//! What comparing a workbook comes to.

use vstd::prelude::*;
use crate::roundtrip::{
    is_sheet_part, mismatches_are_differences, mismatches_of, reports_due, sheet_parts, text_le,
    CellPair,
};
use crate::text_laws::occurrence_is_part;

verus! {

broadcast use vstd::string::group_string_axioms;

/// The cells of a row with their fields, and which of the numbers in them are close.
pub struct ComparedRow {
    pub pairs: Seq<CellPair>,
    pub close: Seq<bool>,
}

/// Law: a count of mismatches that starts at zero, and grows, row by row, by the mismatches of
/// the row, is zero at the end only if in every row every cell has the text of its field, or both
/// are numbers that are close.
pub proof fn counts_show_every_difference(rows: Seq<ComparedRow>, counts: Seq<nat>)
    requires
        counts.len() == rows.len() + 1,
        counts[0] == 0,
        forall|k: int|
            0 <= k < rows.len() ==> (#[trigger] rows[k]).close.len() == rows[k].pairs.len(),
        forall|k: int|
            0 <= k < rows.len() ==> counts[k + 1] == counts[k] + mismatches_of(
                (#[trigger] rows[k]).pairs,
                rows[k].close,
            ).len(),
    ensures
        counts.last() == 0 <==> forall|k: int, c: int|
            0 <= k < rows.len() && 0 <= c < rows[k].pairs.len() ==> (
            #[trigger] rows[k].pairs[c]).xlsx@ == rows[k].pairs[c].csv@ || (
            rows[k].pairs[c].by_number && rows[k].close[c]),
    decreases rows.len(),
{
    if rows.len() > 0 {
        let front = rows.drop_last();
        let early = counts.drop_last();
        let last = rows.len() - 1;
        assert forall|k: int| 0 <= k < front.len() implies (#[trigger] front[k]).close.len()
            == front[k].pairs.len() by {
            assert(front[k] == rows[k]);
        }
        assert forall|k: int| 0 <= k < front.len() implies early[k + 1] == early[k]
            + mismatches_of((#[trigger] front[k]).pairs, front[k].close).len() by {
            assert(front[k] == rows[k]);
        }
        counts_show_every_difference(front, early);
        let row = rows[last];
        mismatches_are_differences(row.pairs, row.close);
        assert(early.last() == counts[last]);
        if counts.last() == 0 {
            assert forall|k: int, c: int|
                0 <= k < rows.len() && 0 <= c < rows[k].pairs.len() implies (
            #[trigger] rows[k].pairs[c]).xlsx@ == rows[k].pairs[c].csv@ || (
            rows[k].pairs[c].by_number && rows[k].close[c]) by {
                if k < last {
                    assert(front[k] == rows[k]);
                    assert(front[k].pairs[c].xlsx@ == front[k].pairs[c].csv@ || (
                    front[k].pairs[c].by_number && front[k].close[c]));
                }
            }
        }
        if forall|k: int, c: int|
            0 <= k < rows.len() && 0 <= c < rows[k].pairs.len() ==> (
            #[trigger] rows[k].pairs[c]).xlsx@ == rows[k].pairs[c].csv@ || (
            rows[k].pairs[c].by_number && rows[k].close[c]) {
            assert forall|k: int, c: int|
                0 <= k < front.len() && 0 <= c < front[k].pairs.len() implies (
            #[trigger] front[k].pairs[c]).xlsx@ == front[k].pairs[c].csv@ || (
            front[k].pairs[c].by_number && front[k].close[c]) by {
                assert(front[k] == rows[k]);
                assert(rows[k].pairs[c].xlsx@ == rows[k].pairs[c].csv@ || (
                rows[k].pairs[c].by_number && rows[k].close[c]));
            }
            assert forall|c: int| 0 <= c < row.pairs.len() implies (#[trigger] row.pairs[c]).xlsx@
                == row.pairs[c].csv@ || (row.pairs[c].by_number && row.close[c]) by {
                assert(rows[last].pairs[c].xlsx@ == rows[last].pairs[c].csv@ || (
                rows[last].pairs[c].by_number && rows[last].close[c]));
            }
        }
    }
}

/// Law: the first ten mismatches are reported, over all rows together, and no others.
pub proof fn ten_mismatches_are_reported(before: int, n: int, m: int)
    requires
        0 <= before,
        0 <= n,
        0 <= m,
    ensures
        n <= 10 ==> reports_due(0, n) == n,
        n >= 10 ==> reports_due(0, n) == 10,
        reports_due(before, n) + reports_due(before + n, m) == reports_due(before, n + m),
        0 <= reports_due(before, n) <= n,
{
}

/// Law: a part holds a sheet if and only if its name is `xl/worksheets/sheet`, anything, and
/// `.xml`.
pub proof fn sheet_part_names(name: Seq<char>)
    ensures
        is_sheet_part(name) <==> exists|middle: Seq<char>|
            name == #[trigger] ("xl/worksheets/sheet"@ + middle) + ".xml"@,
{
    reveal_strlit("xl/worksheets/sheet");
    reveal_strlit(".xml");
    let start = "xl/worksheets/sheet"@;
    let end = ".xml"@;
    let n = name.len() as int;
    occurrence_is_part(name, start, 0);
    occurrence_is_part(name, end, n - 4);
    if is_sheet_part(name) {
        assert(n >= 23) by {
            if n < 23 {
                let k = n - 4;
                assert(name.subrange(k, k + 4)[0] == '.');
                assert(name[k] == '.');
                assert(name.subrange(0, 0 + 19int)[k] == start[k]);
            }
        }
        let middle = name.subrange(19, n - 4);
        assert(name == start + middle + end);
    }
    if exists|middle: Seq<char>| name == #[trigger] ("xl/worksheets/sheet"@ + middle) + ".xml"@ {
        let middle = choose|middle: Seq<char>|
            name == #[trigger] ("xl/worksheets/sheet"@ + middle) + ".xml"@;
        assert(name.subrange(0, 0 + 19int) == start);
        assert(name.subrange(n - 4, n - 4 + 4) == end);
    }
}

/// Law: of the parts of an archive those are taken, in order, whose names are names of sheets.
pub proof fn sheets_are_selected(names: Seq<Seq<char>>, name: Seq<char>)
    ensures
        sheet_parts(Seq::empty()) == Seq::<Seq<char>>::empty(),
        sheet_parts(names.push(name)) == if exists|middle: Seq<char>|
            name == #[trigger] ("xl/worksheets/sheet"@ + middle) + ".xml"@ {
            sheet_parts(names).push(name)
        } else {
            sheet_parts(names)
        },
{
    reveal(Seq::filter);
    sheet_part_names(name);
    assert(names.push(name).drop_last() == names);
}

/// Law: a text comes before another where it is its start, or where it has the smaller
/// character at the first place at which they differ.
pub proof fn texts_are_ordered(a: Seq<char>, b: Seq<char>)
    ensures
        text_le(a, b) <==> {
            ||| a.len() <= b.len() && b.take(a.len() as int) == a
            ||| exists|i: int|
                {
                    &&& 0 <= i < a.len() && i < b.len()
                    &&& #[trigger] a.take(i) == b.take(i)
                    &&& a[i] < b[i]
                }
        },
    decreases a.len(),
{
    if a.len() == 0 {
        assert(b.take(0) == a);
    } else if b.len() > 0 {
        let c = a.drop_first();
        let d = b.drop_first();
        if a[0] == b[0] {
            texts_are_ordered(c, d);
            if a.len() <= b.len() && b.take(a.len() as int) == a {
                assert(d.take(c.len() as int) == c) by {
                    assert forall|k: int| 0 <= k < c.len() implies d[k] == c[k] by {
                        assert(b.take(a.len() as int)[k + 1] == a[k + 1]);
                    }
                }
            }
            if c.len() <= d.len() && d.take(c.len() as int) == c {
                assert(b.take(a.len() as int) == a) by {
                    assert forall|k: int| 0 <= k < a.len() implies b[k] == a[k] by {
                        if k > 0 {
                            assert(d.take(c.len() as int)[k - 1] == c[k - 1]);
                        }
                    }
                }
            }
            if exists|i: int|
                {
                    &&& 0 <= i < a.len() && i < b.len()
                    &&& #[trigger] a.take(i) == b.take(i)
                    &&& a[i] < b[i]
                } {
                let i = choose|i: int|
                    {
                        &&& 0 <= i < a.len() && i < b.len()
                        &&& #[trigger] a.take(i) == b.take(i)
                        &&& a[i] < b[i]
                    };
                assert(c.take(i - 1) == d.take(i - 1)) by {
                    assert forall|k: int| 0 <= k < i - 1 implies c[k] == d[k] by {
                        assert(a.take(i)[k + 1] == b.take(i)[k + 1]);
                    }
                }
                assert(c[i - 1] < d[i - 1]);
            }
            if exists|i: int|
                {
                    &&& 0 <= i < c.len() && i < d.len()
                    &&& #[trigger] c.take(i) == d.take(i)
                    &&& c[i] < d[i]
                } {
                let i = choose|i: int|
                    {
                        &&& 0 <= i < c.len() && i < d.len()
                        &&& #[trigger] c.take(i) == d.take(i)
                        &&& c[i] < d[i]
                    };
                assert(a.take(i + 1) == b.take(i + 1)) by {
                    assert forall|k: int| 0 <= k < i + 1 implies a[k] == b[k] by {
                        if k > 0 {
                            assert(c.take(i)[k - 1] == d.take(i)[k - 1]);
                        }
                    }
                }
                assert(a[i + 1] < b[i + 1]);
            }
        } else {
            if a[0] < b[0] {
                assert(a.take(0) == b.take(0));
            }
            if a.len() <= b.len() && b.take(a.len() as int) == a {
                assert(b.take(a.len() as int)[0] == a[0]);
            }
            assert forall|i: int|
                0 < i < a.len() && i < b.len() implies #[trigger] a.take(i) != b.take(i) by {
                assert(a.take(i)[0] == a[0]);
                assert(b.take(i)[0] == b[0]);
            }
        }
    }
}

} // verus!
