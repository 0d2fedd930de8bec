//! What the functions on columns do, said without them.

use vstd::prelude::*;
use crate::columns::{
    aligned, col_name, col_name_number, col_names, col_number, comma_items, declared_types,
    distinct, has_value, placed, sampled_type, sampled_types, texts_of, ColType,
};
use crate::number::is_number;
use crate::text::{text_of, trim};

verus! {

broadcast use vstd::string::group_string_axioms;

/// The number of a column, letter by letter.
proof fn col_number_is_fold(s: Seq<char>)
    ensures
        col_number(s) == s.fold_left(0int, |v: int, c: char| v * 26 + (c as int - 'A' as int + 1)),
    decreases s.len(),
{
    if s.len() > 0 {
        col_number_is_fold(s.drop_last());
    }
}

/// Law: the columns are lettered from `A` on, and counted in base 26 with `A` as 1 and `Z` as
/// 26: column `i`, counted from 0, has number `i + 1`, and so no two have the same letters.
pub proof fn columns_are_counted(n: nat, i: int)
    requires
        0 <= i < n,
    ensures
        col_names(n).len() == n,
        col_names(n)[i].len() > 0,
        forall|k: int|
            0 <= k < col_names(n)[i].len() ==> 'A' <= #[trigger] col_names(n)[i][k] <= 'Z',
        col_names(n)[i].fold_left(0int, |v: int, c: char| v * 26 + (c as int - 'A' as int + 1)) == i
            + 1,
        forall|j: int| 0 <= j < n && j != i ==> #[trigger] col_names(n)[j] != col_names(n)[i],
{
    col_name_number(i as nat);
    col_number_is_fold(col_name(i as nat));
    assert forall|j: int| 0 <= j < n && j != i implies #[trigger] col_names(n)[j]
        != col_names(n)[i] by {
        col_name_number(j as nat);
    }
}

/// Law: a sampled column is numeric if and only if some row has more than white space in it
/// and every such value, trimmed, is a number.
pub proof fn numeric_columns(rows: Seq<Seq<Seq<char>>>, n: nat, c: int)
    requires
        0 <= c < n,
    ensures
        sampled_types(rows, n).len() == n,
        sampled_types(rows, n)[c] == ColType::Numeric <==> {
            &&& exists|r: int|
                0 <= r < rows.len() && c < rows[r].len() && (#[trigger] trim(rows[r][c])).len() > 0
            &&& forall|r: int|
                0 <= r < rows.len() && c < rows[r].len() && (#[trigger] trim(rows[r][c])).len() > 0
                    ==> is_number(trim(rows[r][c]))
        },
{
    if exists|r: int| has_value(rows, r, c) {
        let r = choose|r: int| has_value(rows, r, c);
        assert(trim(rows[r][c]).len() > 0);
    }
    if exists|r: int|
        0 <= r < rows.len() && c < rows[r].len() && (#[trigger] trim(rows[r][c])).len() > 0 {
        let r = choose|r: int|
            0 <= r < rows.len() && c < rows[r].len() && (#[trigger] trim(rows[r][c])).len() > 0;
        assert(has_value(rows, r, c));
    }
    if sampled_types(rows, n)[c] == ColType::Numeric {
        assert forall|r: int|
            0 <= r < rows.len() && c < rows[r].len() && (#[trigger] trim(rows[r][c])).len()
                > 0 implies is_number(trim(rows[r][c])) by {
            assert(has_value(rows, r, c));
        }
    } else if exists|r: int| has_value(rows, r, c) {
        let r = choose|r: int| has_value(rows, r, c) && !is_number(trim(rows[r][c]));
        assert(trim(rows[r][c]).len() > 0);
        assert(!is_number(trim(rows[r][c])));
    }
}

/// Law: one value that is no number makes its column text, whatever the other rows hold.
pub proof fn one_word_makes_text(
    rows: Seq<Seq<Seq<char>>>,
    row: Seq<Seq<char>>,
    more: Seq<Seq<Seq<char>>>,
    c: int,
)
    requires
        0 <= c < row.len(),
        trim(row[c]).len() > 0,
        !is_number(trim(row[c])),
    ensures
        sampled_type(rows + seq![row] + more, c) == ColType::Text,
{
    let all = rows + seq![row] + more;
    let r = rows.len() as int;
    assert(all[r] == row);
    assert(has_value(all, r, c));
}

/// Law: rows without a value in a column do not matter for its type.
pub proof fn rows_without_value_do_not_matter(
    rows: Seq<Seq<Seq<char>>>,
    row: Seq<Seq<char>>,
    c: int,
)
    requires
        0 <= c,
        c < row.len() ==> trim(row[c]).len() == 0,
    ensures
        sampled_type(rows.push(row), c) == sampled_type(rows, c),
{
    let all = rows.push(row);
    assert forall|r: int| #[trigger] has_value(all, r, c) == has_value(rows, r, c) by {
        if 0 <= r < rows.len() {
            assert(all[r] == rows[r]);
        }
    }
    assert forall|r: int| #[trigger] has_value(rows, r, c) implies all[r] == rows[r] by {}
    if exists|r: int| has_value(rows, r, c) {
        let r = choose|r: int| has_value(rows, r, c);
        assert(has_value(all, r, c));
    }
    if exists|r: int| has_value(all, r, c) {
        let r = choose|r: int| has_value(all, r, c);
        assert(has_value(rows, r, c));
    }
    if sampled_type(rows, c) == ColType::Numeric {
        assert forall|r: int| #[trigger] has_value(all, r, c) implies is_number(
            trim(all[r][c]),
        ) by {
            assert(has_value(rows, r, c));
        }
    }
    if sampled_type(all, c) == ColType::Numeric {
        assert forall|r: int| #[trigger] has_value(rows, r, c) implies is_number(
            trim(rows[r][c]),
        ) by {
            assert(has_value(all, r, c));
        }
    }
}

/// Law: every field of every byte record is read as its text, in its place.
pub proof fn texts_stand_in_place(records: Seq<Seq<Seq<u8>>>)
    ensures
        texts_of(records).len() == records.len(),
        forall|r: int|
            0 <= r < records.len() ==> (#[trigger] texts_of(records)[r]).len() == records[r].len(),
        forall|r: int, c: int|
            0 <= r < records.len() && 0 <= c < records[r].len() ==> #[trigger] texts_of(
                records,
            )[r][c] == text_of(records[r][c]),
{
}

/// Law: there are as many types, and as many letters, as columns.
pub proof fn columns_are_as_many(rows: Seq<Seq<Seq<char>>>, codes: Seq<char>, n: nat)
    ensures
        sampled_types(rows, n).len() == n,
        declared_types(codes, n).len() == n,
        col_names(n).len() == n,
{
}

/// The items of a list are one more than its commas.
proof fn comma_items_count(s: Seq<char>)
    ensures
        comma_items(s).len() == s.filter(|c: char| c == ',').len() + 1,
    decreases s.len(),
{
    reveal(Seq::filter);
    if s.len() > 0 {
        comma_items_count(s.drop_last());
    }
}

/// A last item without commas is read whole.
proof fn comma_items_last(a: Seq<char>, b: Seq<char>)
    requires
        forall|i: int| 0 <= i < b.len() ==> #[trigger] b[i] != ',',
    ensures
        comma_items(a + seq![','] + b) == comma_items(a).push(b),
    decreases b.len(),
{
    let s = a + seq![','] + b;
    if b.len() == 0 {
        assert(s.drop_last() == a);
        assert(s.last() == ',');
        assert(b == Seq::<char>::empty());
    } else {
        let c = b.drop_last();
        assert forall|i: int| 0 <= i < c.len() implies #[trigger] c[i] != ',' by {
            assert(c[i] == b[i]);
        }
        comma_items_last(a, c);
        assert(s.drop_last() == a + seq![','] + c);
        assert(s.last() == b[b.len() - 1]);
        assert(c.push(b.last()) == b);
        let front = comma_items(a).push(c);
        assert(front.drop_last() == comma_items(a));
    }
}

/// A list without commas is one item.
proof fn comma_items_one(b: Seq<char>)
    requires
        forall|i: int| 0 <= i < b.len() ==> #[trigger] b[i] != ',',
    ensures
        comma_items(b) == seq![b],
    decreases b.len(),
{
    if b.len() == 0 {
        assert(b == Seq::<char>::empty());
    } else {
        let c = b.drop_last();
        assert forall|i: int| 0 <= i < c.len() implies #[trigger] c[i] != ',' by {
            assert(c[i] == b[i]);
        }
        comma_items_one(c);
        assert(b.last() == b[b.len() - 1]);
        assert(c.push(b.last()) == b);
        assert(seq![c].drop_last() == Seq::<Seq<char>>::empty());
        assert(comma_items(b) == seq![b]);
    }
}

/// Law: a code that is added to a list of codes, behind a comma, declares the next column:
/// as numeric if it is `N`, and else as text. The columns before it keep their types, and those
/// behind it are text.
pub proof fn codes_declare_columns(codes: Seq<char>, code: Seq<char>, n: nat, c: int)
    requires
        0 <= c < n,
        forall|i: int| 0 <= i < code.len() ==> #[trigger] code[i] != ',',
    ensures
        declared_types(codes + seq![','] + code, n).len() == n,
        ({
            let next = codes.filter(|x: char| x == ',').len() + 1;
            declared_types(codes + seq![','] + code, n)[c] == if c < next {
                declared_types(codes, n)[c]
            } else if c == next && code == seq!['N'] {
                ColType::Numeric
            } else {
                ColType::Text
            }
        }),
{
    comma_items_count(codes);
    comma_items_last(codes, code);
}

/// Law: a list of one code declares the first column; all others are text.
pub proof fn one_code_declares_first_column(code: Seq<char>, n: nat, c: int)
    requires
        0 <= c < n,
        forall|i: int| 0 <= i < code.len() ==> #[trigger] code[i] != ',',
    ensures
        declared_types(code, n).len() == n,
        declared_types(code, n)[c] == if c == 0 && code == seq!['N'] {
            ColType::Numeric
        } else {
            ColType::Text
        },
{
    comma_items_one(code);
}

/// Where a name of a list first stands.
proof fn first_place(names: Seq<Seq<char>>, x: Seq<char>) -> (p: int)
    requires
        names.contains(x),
    ensures
        0 <= p < names.len(),
        names[p] == x,
        forall|q: int| 0 <= q < p ==> #[trigger] names[q] != x,
    decreases names.len(),
{
    let front = names.drop_last();
    if front.contains(x) {
        let p = first_place(front, x);
        assert forall|q: int| 0 <= q < p implies #[trigger] names[q] != x by {
            assert(front[q] == names[q]);
        }
        p
    } else {
        let p = names.len() - 1;
        let k = choose|k: int| 0 <= k < names.len() && names[k] == x;
        assert(k == p) by {
            if k < p {
                assert(front[k] == x);
            }
        }
        assert forall|q: int| 0 <= q < p implies #[trigger] names[q] != x by {
            assert(front[q] == names[q]);
        }
        p
    }
}

/// Law: the merged headers stand in the order in which the names first come: a name before
/// another in the merged headers comes, somewhere in the list, before the other comes at all.
pub proof fn headers_keep_their_order(names: Seq<Seq<char>>, i: int, j: int)
    requires
        0 <= i < j < distinct(names).len(),
    ensures
        exists|p: int|
            {
                &&& 0 <= p < names.len()
                &&& #[trigger] names[p] == distinct(names)[i]
                &&& forall|q: int| 0 <= q <= p ==> #[trigger] names[q] != distinct(names)[j]
            },
    decreases names.len(),
{
    let front = names.drop_last();
    let d = distinct(front);
    let all = distinct(names);
    if j < d.len() {
        headers_keep_their_order(front, i, j);
        let p = choose|p: int|
            {
                &&& 0 <= p < front.len()
                &&& #[trigger] front[p] == d[i]
                &&& forall|q: int| 0 <= q <= p ==> #[trigger] front[q] != d[j]
            };
        assert(names[p] == all[i]);
        assert forall|q: int| 0 <= q <= p implies #[trigger] names[q] != all[j] by {
            assert(front[q] == names[q]);
        }
    } else {
        assert(all == d.push(names.last()));
        assert(d.contains(d[i]));
        crate::columns::distinct_covers(front);
        assert(front.contains(d[i]));
        let p = first_place(front, d[i]);
        assert(names[p] == all[i]);
        assert forall|q: int| 0 <= q <= p implies #[trigger] names[q] != all[j] by {
            assert(front[q] == names[q]);
            assert(front.contains(front[q]));
            assert(d.contains(front[q]));
        }
    }
}

proof fn placed_last_field(
    record: Seq<Seq<char>>,
    map: Seq<usize>,
    n: nat,
    m: nat,
    k: int,
)
    requires
        m <= map.len(),
        forall|j: int| 0 <= j < map.len() ==> #[trigger] map[j] < n,
        -1 <= k < m,
    ensures
        placed(record, map, n, m).len() == n,
        k >= 0 && (forall|j: int| k < j < m ==> #[trigger] map[j] != map[k]) ==> placed(
            record,
            map,
            n,
            m,
        )[map[k] as int] == record[k],
        forall|c: int|
            0 <= c < n && (forall|j: int| 0 <= j < m ==> #[trigger] map[j] != c)
                ==> #[trigger] placed(record, map, n, m)[c] == Seq::<char>::empty(),
    decreases m,
{
    if m > 0 {
        let p = (m - 1) as nat;
        assert(map[p as int] < n);
        if k < p {
            placed_last_field(record, map, n, p, k);
            if k >= 0 && (forall|j: int| k < j < m ==> #[trigger] map[j] != map[k]) {
                assert(map[p as int] != map[k]);
                assert(map[k] < n);
            }
        } else {
            placed_last_field(record, map, n, p, -1);
        }
        assert forall|c: int|
            0 <= c < n && (forall|j: int| 0 <= j < m ==> #[trigger] map[j] != c) implies #[trigger] placed(
            record,
            map,
            n,
            m,
        )[c] == Seq::<char>::empty() by {
            assert(map[p as int] != c);
            assert(placed(record, map, n, p)[c] == Seq::<char>::empty());
        }
    }
}

/// Law: an aligned row has a field for every merged column. It is the last field of the record
/// that belongs to the column, and nothing where none does; a field without a header belongs to
/// none.
pub proof fn rows_are_aligned(record: Seq<Seq<char>>, map: Seq<usize>, n: nat, c: int)
    requires
        forall|j: int| 0 <= j < map.len() ==> #[trigger] map[j] < n,
        0 <= c < n,
    ensures
        aligned(record, map, n).len() == n,
        forall|k: int|
            0 <= k < map.len() && k < record.len() && #[trigger] map[k] == c && (forall|j: int|
                k < j < map.len() && j < record.len() ==> #[trigger] map[j] != c) ==> aligned(
                record,
                map,
                n,
            )[c] == record[k],
        (forall|j: int| 0 <= j < map.len() && j < record.len() ==> #[trigger] map[j] != c)
            ==> aligned(record, map, n)[c].len() == 0,
{
    let m = if record.len() < map.len() {
        record.len()
    } else {
        map.len()
    };
    placed_last_field(record, map, n, m, -1);
    assert forall|k: int|
        0 <= k < map.len() && k < record.len() && #[trigger] map[k] == c && (forall|j: int|
            k < j < map.len() && j < record.len() ==> #[trigger] map[j] != c) implies aligned(
        record,
        map,
        n,
    )[c] == record[k] by {
        placed_last_field(record, map, n, m, k);
    }
}

} // verus!
