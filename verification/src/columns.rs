//! Columns: their letters, their types, and how the columns of several files line up.

use vstd::prelude::*;
use crate::number::{is_number, reads_as_number};
use crate::text::{chars_of, decode_field, text_of, trim, trim_chars};

verus! {

broadcast use vstd::string::group_string_axioms;

// ---------------------------------------------------------------------------
// Column letters
// ---------------------------------------------------------------------------

/// One or more letters from `A` to `Z`.
pub open spec fn is_col_name(s: Seq<char>) -> bool {
    &&& s.len() > 0
    &&& forall|i: int| 0 <= i < s.len() ==> 'A' <= #[trigger] s[i] <= 'Z'
}

/// The number of the column with the given letters, counted from 1: `A` is 1,
/// `Z` is 26, `AA` is 27.
pub open spec fn col_number(s: Seq<char>) -> int
    decreases s.len(),
{
    if s.len() == 0 {
        0
    } else {
        col_number(s.drop_last()) * 26 + (s.last() as int - 'A' as int + 1)
    }
}

/// The letters of column `i`, counted from 0.
pub open spec fn col_name(i: nat) -> Seq<char>
    decreases i,
{
    let letter = ('A' as int + i % 26) as char;
    if i < 26 {
        seq![letter]
    } else {
        col_name((i / 26 - 1) as nat).push(letter)
    }
}

/// The letters of a column, counted from 0.
pub fn get_col_letter(col_idx: usize) -> (r: String)
    ensures
        r@ == col_name(col_idx as nat),
        is_col_name(r@),
        col_number(r@) == col_idx + 1,
    decreases col_idx,
{
    let rem: u8 = (col_idx % 26) as u8;
    let mut r = if col_idx < 26 {
        String::new()
    } else {
        get_col_letter(col_idx / 26 - 1)
    };
    let ghost front = r@;
    r.push((65 + rem) as char);
    assert(r@.drop_last() == front);
    assert(col_number(front) == (if col_idx < 26 { 0 } else { col_idx as int / 26 }));
    r
}

/// Law: the letters of column `i` are a column name, and its number is `i + 1`.
pub proof fn col_name_number(i: nat)
    ensures
        is_col_name(col_name(i)),
        col_number(col_name(i)) == i + 1,
    decreases i,
{
    let name = col_name(i);
    if i < 26 {
        assert(name.drop_last() == Seq::<char>::empty());
        assert(col_number(name.drop_last()) == 0);
    } else {
        let front = col_name((i / 26 - 1) as nat);
        col_name_number((i / 26 - 1) as nat);
        assert(name.drop_last() == front);
    }
}

/// The letters of the first `n` columns.
pub open spec fn col_names(n: nat) -> Seq<Seq<char>> {
    Seq::new(n, |i: int| col_name(i as nat))
}

/// The letters of the first `n` columns.
pub fn col_letters(n: usize) -> (r: Vec<String>)
    ensures
        r.deep_view() == col_names(n as nat),
{
    let mut r: Vec<String> = Vec::new();
    for i in 0..n
        invariant
            r.deep_view() == col_names(i as nat),
    {
        let ghost before = r.deep_view();
        r.push(get_col_letter(i));
        assert(r.deep_view() == before.push(col_name(i as nat)));
        assert(r.deep_view() == col_names((i + 1) as nat));
    }
    r
}

/// A column name numbers a column: its number is positive.
proof fn col_number_positive(s: Seq<char>)
    requires
        is_col_name(s),
    ensures
        col_number(s) >= 1,
    decreases s.len(),
{
    if s.len() > 1 {
        assert(is_col_name(s.drop_last())) by {
            assert forall|i: int| 0 <= i < s.len() - 1 implies 'A' <= #[trigger] s.drop_last()[i]
                <= 'Z' by {
                assert('A' <= s[i] <= 'Z');
            }
        }
        col_number_positive(s.drop_last());
    }
    assert(col_number(s.drop_last()) >= 0);
    assert('A' <= s[s.len() - 1] <= 'Z');
}

/// Law: no two columns share their letters, and a column's letters are the only ones
/// with its number.
pub proof fn col_names_unique(a: Seq<char>, b: Seq<char>)
    requires
        is_col_name(a),
        is_col_name(b),
    ensures
        col_number(a) == col_number(b) <==> a == b,
    decreases a.len(),
{
    if col_number(a) == col_number(b) {
        assert('A' <= a[a.len() - 1] <= 'Z');
        assert('A' <= b[b.len() - 1] <= 'Z');
        let x = col_number(a.drop_last());
        let y = col_number(b.drop_last());
        assert(x * 26 + (a.last() as int - 64) == y * 26 + (b.last() as int - 64));
        assert(x == y && a.last() == b.last());
        if a.len() > 1 {
            assert forall|i: int| 0 <= i < a.len() - 1 implies 'A' <= #[trigger] a.drop_last()[i]
                <= 'Z' by {
                assert('A' <= a[i] <= 'Z');
            }
            col_number_positive(a.drop_last());
        }
        if b.len() > 1 {
            assert forall|i: int| 0 <= i < b.len() - 1 implies 'A' <= #[trigger] b.drop_last()[i]
                <= 'Z' by {
                assert('A' <= b[i] <= 'Z');
            }
            col_number_positive(b.drop_last());
        }
        if a.len() > 1 && b.len() > 1 {
            col_names_unique(a.drop_last(), b.drop_last());
        }
        assert(a.drop_last() == b.drop_last());
        assert(a == a.drop_last().push(a.last()));
        assert(b == b.drop_last().push(b.last()));
    }
}

// ---------------------------------------------------------------------------
// Column types
// ---------------------------------------------------------------------------

/// How the values of a column are written.
#[derive(Copy, Clone, PartialEq, Eq, Structural, Debug)]
pub enum ColType {
    Numeric,
    Text,
}

/// Row `r` of the sample has a value, other than white space, in column `c`.
pub open spec fn has_value(rows: Seq<Seq<Seq<char>>>, r: int, c: int) -> bool {
    0 <= r < rows.len() && 0 <= c < rows[r].len() && trim(rows[r][c]).len() > 0
}

/// Column `c` of the sample is numeric: it has a value, and all its values read as numbers.
pub open spec fn is_numeric_column(rows: Seq<Seq<Seq<char>>>, c: int) -> bool {
    &&& exists|r: int| has_value(rows, r, c)
    &&& forall|r: int| #[trigger] has_value(rows, r, c) ==> is_number(trim(rows[r][c]))
}

/// The type of column `c` as the sample shows it.
pub open spec fn sampled_type(rows: Seq<Seq<Seq<char>>>, c: int) -> ColType {
    if is_numeric_column(rows, c) {
        ColType::Numeric
    } else {
        ColType::Text
    }
}

/// The types of the first `n` columns as the sample shows them.
pub open spec fn sampled_types(rows: Seq<Seq<Seq<char>>>, n: nat) -> Seq<ColType> {
    Seq::new(n, |c: int| sampled_type(rows, c))
}

/// The text of every field of some byte records.
pub open spec fn texts_of(records: Seq<Seq<Seq<u8>>>) -> Seq<Seq<Seq<char>>> {
    records.map_values(|r: Seq<Seq<u8>>| r.map_values(|f: Seq<u8>| text_of(f)))
}

/// What a sampled value says of its column.
enum Sighting {
    Nothing,
    Number,
    Other,
}

/// Classifies a sampled value.
fn sight(value: &str) -> (r: Sighting)
    ensures
        r is Nothing <==> trim(value@).len() == 0,
        r is Number ==> is_number(trim(value@)),
        r is Other ==> !is_number(trim(value@)),
{
    let t = trim_chars(value);
    if t.len() == 0 {
        Sighting::Nothing
    } else if reads_as_number(&t) {
        Sighting::Number
    } else {
        Sighting::Other
    }
}

/// The type of column `c` in a sample of text rows.
fn column_type(samples: &Vec<Vec<String>>, c: usize) -> (r: ColType)
    ensures
        r == sampled_type(samples.deep_view(), c as int),
{
    let ghost rows = samples.deep_view();
    let mut seen = false;
    for i in 0..samples.len()
        invariant
            rows == samples.deep_view(),
            seen <==> exists|r: int| r < i && has_value(rows, r, c as int),
            forall|r: int|
                r < i && #[trigger] has_value(rows, r, c as int) ==> is_number(
                    trim(rows[r][c as int]),
                ),
    {
        assert(rows[i as int].len() == samples@[i as int]@.len());
        if c < samples[i].len() {
            assert(rows[i as int][c as int] == samples@[i as int]@[c as int]@);
            match sight(samples[i][c].as_str()) {
                Sighting::Nothing => {},
                Sighting::Number => {
                    assert(has_value(rows, i as int, c as int));
                    seen = true;
                },
                Sighting::Other => {
                    assert(has_value(rows, i as int, c as int));
                    return ColType::Text;
                },
            }
        }
    }
    if seen {
        ColType::Numeric
    } else {
        ColType::Text
    }
}

/// The types of all columns with a header, from a sample of rows: a column is numeric
/// when it has values in the sample and each of them reads as a number.
pub fn classify_columns_from_sample(samples: &Vec<Vec<String>>, headers: &Vec<String>) -> (r: Vec<
    ColType,
>)
    ensures
        r@ == sampled_types(samples.deep_view(), headers@.len()),
{
    let mut r: Vec<ColType> = Vec::new();
    for c in 0..headers.len()
        invariant
            r@ == sampled_types(samples.deep_view(), c as nat),
    {
        r.push(column_type(samples, c));
        assert(r@ == sampled_types(samples.deep_view(), (c + 1) as nat));
    }
    r
}

/// The type of column `c` in a sample of byte records.
fn byte_column_type(samples: &Vec<Vec<Vec<u8>>>, c: usize) -> (r: ColType)
    ensures
        r == sampled_type(texts_of(samples.deep_view()), c as int),
{
    let ghost rows = texts_of(samples.deep_view());
    let mut seen = false;
    for i in 0..samples.len()
        invariant
            rows == texts_of(samples.deep_view()),
            seen <==> exists|r: int| r < i && has_value(rows, r, c as int),
            forall|r: int|
                r < i && #[trigger] has_value(rows, r, c as int) ==> is_number(
                    trim(rows[r][c as int]),
                ),
    {
        assert(rows[i as int].len() == samples@[i as int]@.len());
        if c < samples[i].len() {
            assert(samples@[i as int]@[c as int].deep_view() == samples@[i as int]@[c as int]@);
            assert(rows[i as int][c as int] == text_of(samples@[i as int]@[c as int]@));
            match sight(decode_field(samples[i][c].as_slice())) {
                Sighting::Nothing => {},
                Sighting::Number => {
                    assert(has_value(rows, i as int, c as int));
                    seen = true;
                },
                Sighting::Other => {
                    assert(has_value(rows, i as int, c as int));
                    return ColType::Text;
                },
            }
        }
    }
    if seen {
        ColType::Numeric
    } else {
        ColType::Text
    }
}

/// The types of the first `n` columns, from a sample of byte records.
pub fn classify_byte_columns(samples: &Vec<Vec<Vec<u8>>>, n: usize) -> (r: Vec<ColType>)
    ensures
        r@ == sampled_types(texts_of(samples.deep_view()), n as nat),
{
    let mut r: Vec<ColType> = Vec::new();
    for c in 0..n
        invariant
            r@ == sampled_types(texts_of(samples.deep_view()), c as nat),
    {
        r.push(byte_column_type(samples, c));
        assert(r@ == sampled_types(texts_of(samples.deep_view()), (c + 1) as nat));
    }
    r
}

/// The items of a comma-separated list.
pub open spec fn comma_items(s: Seq<char>) -> Seq<Seq<char>>
    decreases s.len(),
{
    if s.len() == 0 {
        seq![Seq::empty()]
    } else {
        let front = comma_items(s.drop_last());
        if s.last() == ',' {
            front.push(Seq::empty())
        } else {
            front.drop_last().push(front.last().push(s.last()))
        }
    }
}

/// The types of `n` columns as a list of codes gives them: `N` for a numeric column.
/// Every other code, and a column without one, stands for text.
pub open spec fn declared_types(codes: Seq<char>, n: nat) -> Seq<ColType> {
    let items = comma_items(codes);
    Seq::new(
        n,
        |c: int|
            if c < items.len() && items[c] == seq!['N'] {
                ColType::Numeric
            } else {
                ColType::Text
            },
    )
}

/// Reads a list of type codes, such as `N,T,N`, for `n` columns.
pub fn parse_types(codes: &str, n: usize) -> (r: Vec<ColType>)
    ensures
        r@ == declared_types(codes@, n as nat),
{
    let chars = chars_of(codes);
    // The items that are complete, and the size and kind of the one being read.
    let mut done: Vec<ColType> = Vec::new();
    let mut size: usize = 0;
    let mut is_n = false;
    let ghost as_type = |item: Seq<char>|
        if item == seq!['N'] {
            ColType::Numeric
        } else {
            ColType::Text
        };
    for i in 0..chars.len()
        invariant
            chars@ == codes@,
            size <= i,
            comma_items(codes@.take(i as int)).len() > 0,
            done@ == comma_items(codes@.take(i as int)).drop_last().map_values(as_type),
            size == comma_items(codes@.take(i as int)).last().len(),
            is_n <==> comma_items(codes@.take(i as int)).last() == seq!['N'],
            as_type == |item: Seq<char>|
                if item == seq!['N'] {
                    ColType::Numeric
                } else {
                    ColType::Text
                },
    {
        let ghost before = comma_items(codes@.take(i as int));
        let ghost after = comma_items(codes@.take(i + 1));
        assert(codes@.take(i + 1).drop_last() == codes@.take(i as int));
        let c = chars[i];
        if c == ',' {
            done.push(
                if is_n {
                    ColType::Numeric
                } else {
                    ColType::Text
                },
            );
            assert(after.drop_last() == before);
            assert(before == before.drop_last().push(before.last()));
            assert(done@ == after.drop_last().map_values(as_type));
            size = 0;
            is_n = false;
            assert(after.last().len() != seq!['N'].len());
        } else {
            assert(after.drop_last() == before.drop_last());
            assert(after.last() == before.last().push(c));
            is_n = size == 0 && c == 'N';
            proof {
                if is_n {
                    assert(after.last() == seq!['N']);
                } else if after.last() == seq!['N'] {
                    assert(after.last()[0] == 'N');
                }
            }
            size = size + 1;
        }
    }
    assert(codes@.take(codes@.len() as int) == codes@);
    let ghost items = comma_items(codes@);
    done.push(
        if is_n {
            ColType::Numeric
        } else {
            ColType::Text
        },
    );
    assert(items == items.drop_last().push(items.last()));
    assert(done@ == items.map_values(as_type));
    let mut r: Vec<ColType> = Vec::new();
    for c in 0..n
        invariant
            items == comma_items(codes@),
            done@.len() == items.len(),
            forall|j: int|
                0 <= j < items.len() ==> done@[j] == if items[j] == seq!['N'] {
                    ColType::Numeric
                } else {
                    ColType::Text
                },
            r@ == declared_types(codes@, c as nat),
    {
        r.push(
            if c < done.len() {
                done[c]
            } else {
                ColType::Text
            },
        );
        assert(r@ == declared_types(codes@, (c + 1) as nat));
    }
    r
}

// ---------------------------------------------------------------------------
// Merged headers
// ---------------------------------------------------------------------------

/// The distinct names of a list, in the order in which each comes first.
pub open spec fn distinct(names: Seq<Seq<char>>) -> Seq<Seq<char>>
    decreases names.len(),
{
    if names.len() == 0 {
        Seq::empty()
    } else {
        let front = distinct(names.drop_last());
        if front.contains(names.last()) {
            front
        } else {
            front.push(names.last())
        }
    }
}

/// Law: the merged headers hold every name of the list, none that is not in it, and
/// none twice.
pub proof fn distinct_covers(names: Seq<Seq<char>>)
    ensures
        forall|x: Seq<char>| names.contains(x) <==> #[trigger] distinct(names).contains(x),
        distinct(names).no_duplicates(),
    decreases names.len(),
{
    if names.len() > 0 {
        let rest = names.drop_last();
        let front = distinct(rest);
        let all = distinct(names);
        distinct_covers(rest);
        assert(names == rest.push(names.last()));
        assert forall|x: Seq<char>| names.contains(x) <==> #[trigger] all.contains(x) by {
            if names.contains(x) {
                let i = choose|i: int| 0 <= i < names.len() && names[i] == x;
                if i < rest.len() {
                    assert(rest[i] == x);
                    assert(front.contains(x));
                }
                if !front.contains(names.last()) {
                    if front.contains(x) {
                        let k = choose|k: int| 0 <= k < front.len() && front[k] == x;
                        assert(all[k] == x);
                    } else {
                        assert(all[all.len() - 1] == x);
                    }
                }
            }
            if all.contains(x) {
                let k = choose|k: int| 0 <= k < all.len() && all[k] == x;
                if k < front.len() {
                    assert(front[k] == x);
                    assert(front.contains(x));
                    let i = choose|i: int| 0 <= i < rest.len() && rest[i] == x;
                    assert(names[i] == x);
                } else {
                    assert(names[names.len() - 1] == x);
                }
            }
        }
        assert(all.no_duplicates()) by {
            assert forall|i: int, j: int|
                0 <= i < all.len() && 0 <= j < all.len() && i != j implies all[i] != all[j] by {
                if i < front.len() && j < front.len() {
                    assert(front[i] != front[j]);
                } else if i < front.len() {
                    assert(front.contains(front[i]));
                } else {
                    assert(front.contains(front[j]));
                }
            }
        }
    }
}

/// Where a name stands in a list, if it does.
pub fn position(names: &Vec<String>, name: &String) -> (r: Option<usize>)
    ensures
        r is Some <==> names.deep_view().contains(name@),
        r matches Some(i) ==> {
            &&& i < names@.len()
            &&& names.deep_view()[i as int] == name@
            &&& forall|j: int| 0 <= j < i ==> names.deep_view()[j] != name@
        },
{
    let ghost v = names.deep_view();
    for i in 0..names.len()
        invariant
            v == names.deep_view(),
            forall|j: int| 0 <= j < i ==> v[j] != name@,
    {
        assert(v[i as int] == names@[i as int]@);
        if names[i] == *name {
            assert(v.contains(name@));
            return Some(i);
        }
    }
    None
}

/// The headers of several files, merged: each name once, in the order in which it first comes.
pub fn collect_headers(files: &Vec<Vec<String>>) -> (headers: Vec<String>)
    ensures
        headers.deep_view() == distinct(files.deep_view().flatten()),
{
    let mut headers: Vec<String> = Vec::new();
    let ghost lists = files.deep_view();
    let ghost mut read: Seq<Seq<char>> = Seq::empty();
    assert(headers.deep_view() == distinct(read));
    assert(lists.take(0).flatten() == read);
    for f in 0..files.len()
        invariant
            lists == files.deep_view(),
            read == lists.take(f as int).flatten(),
            headers.deep_view() == distinct(read),
    {
        let ghost start = read;
        let ghost list = lists[f as int];
        assert(list == files@[f as int].deep_view());
        assert(list.take(0) == Seq::<Seq<char>>::empty());
        let names = &files[f];
        for i in 0..names.len()
            invariant
                list == names.deep_view(),
                read == start + list.take(i as int),
                headers.deep_view() == distinct(read),
        {
            let name = &names[i];
            let ghost old_headers = headers.deep_view();
            let ghost old_read = read;
            assert(list[i as int] == name@);
            if position(&headers, name).is_none() {
                headers.push(name.clone());
                assert(headers.deep_view() == old_headers.push(name@));
            }
            proof {
                read = read.push(name@);
                assert(read.drop_last() == old_read);
                assert(list.take(i + 1) == list.take(i as int).push(name@));
            }
        }
        proof {
            assert(list.take(list.len() as int) == list);
            assert(lists.take(f + 1) == lists.take(f as int).push(list));
            lists.take(f as int).lemma_flatten_push(list);
        }
    }
    assert(lists.take(lists.len() as int) == lists);
    headers
}

/// What is in one of several lists is in the list of them all.
proof fn flatten_holds(lists: Seq<Seq<Seq<char>>>, f: int, i: int)
    requires
        0 <= f < lists.len(),
        0 <= i < lists[f].len(),
    ensures
        lists.flatten().contains(lists[f][i]),
    decreases lists.len(),
{
    let rest = lists.drop_first().flatten();
    let all = lists.flatten();
    assert(all == lists.first() + rest);
    if f == 0 {
        assert(all[i] == lists[0][i]);
    } else {
        flatten_holds(lists.drop_first(), f - 1, i);
        assert(lists.drop_first()[f - 1] == lists[f]);
        let k = choose|k: int| 0 <= k < rest.len() && rest[k] == lists[f][i];
        assert(all[lists.first().len() + k] == rest[k]);
    }
}

/// Law: every header of every file is among the merged headers.
pub proof fn merged_headers_hold(files: Seq<Seq<Seq<char>>>, f: int, i: int)
    requires
        0 <= f < files.len(),
        0 <= i < files[f].len(),
    ensures
        distinct(files.flatten()).contains(files[f][i]),
{
    flatten_holds(files, f, i);
    distinct_covers(files.flatten());
}

/// Where each header of one file stands among the merged headers.
pub fn header_map(file_headers: &Vec<String>, headers: &Vec<String>) -> (map: Vec<usize>)
    requires
        forall|i: int|
            0 <= i < file_headers@.len() ==> headers.deep_view().contains(
                #[trigger] file_headers.deep_view()[i],
            ),
    ensures
        map@.len() == file_headers@.len(),
        forall|i: int|
            #![trigger map@[i]]
            0 <= i < map@.len() ==> {
                &&& map@[i] < headers@.len()
                &&& headers.deep_view()[map@[i] as int] == file_headers.deep_view()[i]
                &&& forall|j: int| 0 <= j < map@[i] ==> headers.deep_view()[j] != file_headers.deep_view()[i]
            },
{
    let mut map: Vec<usize> = Vec::new();
    for i in 0..file_headers.len()
        invariant
            forall|i: int|
                0 <= i < file_headers@.len() ==> headers.deep_view().contains(
                    #[trigger] file_headers.deep_view()[i],
                ),
            map@.len() == i,
            forall|i: int|
                #![trigger map@[i]]
                0 <= i < map@.len() ==> {
                    &&& map@[i] < headers@.len()
                    &&& headers.deep_view()[map@[i] as int] == file_headers.deep_view()[i]
                    &&& forall|j: int| 0 <= j < map@[i] ==> headers.deep_view()[j] != file_headers.deep_view()[i]
                },
    {
        assert(headers.deep_view().contains(file_headers.deep_view()[i as int]));
        assert(file_headers.deep_view()[i as int] == file_headers@[i as int]@);
        let p = position(headers, &file_headers[i]).unwrap();
        map.push(p);
    }
    map
}

/// A row of `n` empty fields into which the first `k` fields of a record are placed,
/// in order, each in the column that the map gives it.
pub open spec fn placed(record: Seq<Seq<char>>, map: Seq<usize>, n: nat, k: nat) -> Seq<Seq<char>>
    decreases k,
{
    if k == 0 {
        Seq::new(n, |i: int| Seq::empty())
    } else {
        placed(record, map, n, (k - 1) as nat).update(map[k - 1] as int, record[k - 1])
    }
}

/// A record laid out over `n` merged columns. Fields without a header are left out.
pub open spec fn aligned(record: Seq<Seq<char>>, map: Seq<usize>, n: nat) -> Seq<Seq<char>> {
    placed(
        record,
        map,
        n,
        if record.len() < map.len() {
            record.len()
        } else {
            map.len()
        },
    )
}

/// Lays a record of one file out over the `n` merged columns.
pub fn align_row(record: &Vec<String>, map: &Vec<usize>, n: usize) -> (row: Vec<String>)
    requires
        forall|i: int| 0 <= i < map@.len() ==> #[trigger] map@[i] < n,
    ensures
        row@.len() == n,
        row.deep_view() == aligned(record.deep_view(), map@, n as nat),
{
    let mut row: Vec<String> = Vec::new();
    for i in 0..n
        invariant
            row@.len() == i,
            forall|j: int| 0 <= j < i ==> (#[trigger] row@[j])@ == Seq::<char>::empty(),
    {
        row.push(String::new());
    }
    assert(row.deep_view() == placed(record.deep_view(), map@, n as nat, 0));
    let m: usize = if record.len() < map.len() {
        record.len()
    } else {
        map.len()
    };
    for k in 0..m
        invariant
            m <= record@.len(),
            m <= map@.len(),
            row@.len() == n,
            forall|i: int| 0 <= i < map@.len() ==> #[trigger] map@[i] < n,
            row.deep_view() == placed(record.deep_view(), map@, n as nat, k as nat),
    {
        let ghost before = row.deep_view();
        let target = map[k];
        let value = record[k].clone();
        row.set(target, value);
        assert(row.deep_view() == before.update(target as int, record.deep_view()[k as int]));
    }
    row
}

/// Law: where no two fields of a file share a merged column, every field of a record
/// that has a header is found again in its column.
pub proof fn aligned_keeps_fields(record: Seq<Seq<char>>, map: Seq<usize>, n: nat, i: int)
    requires
        forall|k: int| 0 <= k < map.len() ==> #[trigger] map[k] < n,
        map.no_duplicates(),
        0 <= i < record.len(),
        i < map.len(),
    ensures
        aligned(record, map, n).len() == n,
        aligned(record, map, n)[map[i] as int] == record[i],
{
    let m = if record.len() < map.len() {
        record.len()
    } else {
        map.len()
    };
    placed_keeps_field(record, map, n, m, i);
}

proof fn placed_keeps_field(record: Seq<Seq<char>>, map: Seq<usize>, n: nat, k: nat, i: int)
    requires
        forall|j: int| 0 <= j < map.len() ==> #[trigger] map[j] < n,
        map.no_duplicates(),
        k <= map.len(),
        0 <= i < map.len(),
    ensures
        placed(record, map, n, k).len() == n,
        i < k ==> placed(record, map, n, k)[map[i] as int] == record[i],
    decreases k,
{
    if k > 0 {
        placed_keeps_field(record, map, n, (k - 1) as nat, i);
        assert(map[k - 1] < n);
        assert(map[i] < n);
    }
}

/// Law: a merged column for which a file has no header is empty in all its rows.
pub proof fn aligned_leaves_others_empty(
    record: Seq<Seq<char>>,
    map: Seq<usize>,
    n: nat,
    c: int,
)
    requires
        forall|k: int| 0 <= k < map.len() ==> #[trigger] map[k] < n,
        0 <= c < n,
        forall|k: int| 0 <= k < map.len() ==> #[trigger] map[k] != c,
    ensures
        aligned(record, map, n)[c] == Seq::<char>::empty(),
{
    let m = if record.len() < map.len() {
        record.len()
    } else {
        map.len()
    };
    placed_leaves_empty(record, map, n, m, c);
}

proof fn placed_leaves_empty(record: Seq<Seq<char>>, map: Seq<usize>, n: nat, k: nat, c: int)
    requires
        forall|j: int| 0 <= j < map.len() ==> #[trigger] map[j] < n,
        0 <= c < n,
        forall|j: int| 0 <= j < map.len() ==> #[trigger] map[j] != c,
        k <= map.len(),
    ensures
        placed(record, map, n, k).len() == n,
        placed(record, map, n, k)[c] == Seq::<char>::empty(),
    decreases k,
{
    if k > 0 {
        placed_leaves_empty(record, map, n, (k - 1) as nat, c);
        assert(map[k - 1] != c);
        assert(map[k - 1] < n);
    }
}

} // verus!
