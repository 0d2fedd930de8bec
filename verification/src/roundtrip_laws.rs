//! When a workbook matches the records that it was made of.

use vstd::prelude::*;
use crate::columns::ColType;
use crate::escape_laws::{
    collapsed, has_entity, replace_nothing, restored, restored_without_entity, stripped,
};
use crate::pipe::{stream_groups, stream_keeps_every_row, stream_types, without_headers};
use crate::pipe_writer::{
    finished_archive, sheet_groups, sheets_of, streamed_workbook_holds_records, ChunkData,
};
use crate::render::pipe_row;
use crate::roundtrip::{
    field_text, in_text_order, is_pair, is_sheet_part, mismatches_of, sheet_parts, text_le,
    text_le_antisymmetric, text_le_total, text_le_transitive, CellPair, SHEET_PART_END,
    SHEET_PART_START,
};
use crate::row_laws::{
    pipe_sheet, restored_fields, streamed_row_reads_back, streamed_sheet_reads_back,
};
use crate::text::{
    contains_text, decimal, digit_char, is_white, occurs_at, replace_all, text_of, trim, trim_end,
    trim_start,
};
use crate::workbook::sheet_part;
use crate::xml::{cells_from, in_order_from, is_illegal, rows_from};

verus! {

broadcast use vstd::string::group_string_axioms;

/// The number of characters that are not white space.
spec fn ink(s: Seq<char>) -> nat
    decreases s.len(),
{
    if s.len() == 0 {
        0
    } else {
        (if is_white(s.first()) {
            0nat
        } else {
            1nat
        }) + ink(s.drop_first())
    }
}

proof fn ink_concat(a: Seq<char>, b: Seq<char>)
    ensures
        ink(a + b) == ink(a) + ink(b),
    decreases a.len(),
{
    if a.len() == 0 {
        assert(a + b == b);
    } else {
        assert((a + b).drop_first() == a.drop_first() + b);
        ink_concat(a.drop_first(), b);
    }
}

proof fn ink_of_one(c: char)
    ensures
        ink(seq![c]) == if is_white(c) {
            0nat
        } else {
            1nat
        },
{
    reveal_with_fuel(ink, 2);
}

proof fn ink_trim_start(s: Seq<char>)
    ensures
        ink(trim_start(s)) == ink(s),
    decreases s.len(),
{
    if s.len() > 0 && is_white(s.first()) {
        ink_trim_start(s.drop_first());
    }
}

proof fn ink_trim_end(s: Seq<char>)
    ensures
        ink(trim_end(s)) == ink(s),
    decreases s.len(),
{
    if s.len() > 0 && is_white(s.last()) {
        ink_trim_end(s.drop_last());
        assert(s == s.drop_last() + seq![s.last()]);
        ink_concat(s.drop_last(), seq![s.last()]);
        ink_of_one(s.last());
    }
}

/// Trimming takes no ink.
proof fn ink_trim(s: Seq<char>)
    ensures
        ink(trim(s)) == ink(s),
{
    ink_trim_start(s);
    ink_trim_end(trim_start(s));
}

/// Leaving characters out adds no ink.
proof fn ink_stripped(s: Seq<char>)
    ensures
        ink(stripped(s)) <= ink(s),
    decreases s.len(),
{
    if s.len() > 0 {
        ink_stripped(s.drop_first());
        if !is_illegal(s.first()) {
            ink_concat(seq![s.first()], stripped(s.drop_first()));
            ink_of_one(s.first());
        }
    }
}

/// Replacing a text by one with less ink takes ink wherever the text occurs.
proof fn ink_replace(s: Seq<char>, pat: Seq<char>, to: Seq<char>)
    requires
        pat.len() > 0,
        ink(to) < ink(pat),
    ensures
        ink(replace_all(s, pat, to)) <= ink(s),
        contains_text(s, pat) ==> ink(replace_all(s, pat, to)) < ink(s),
    decreases s.len(),
{
    if s.len() == 0 {
        if contains_text(s, pat) {
            let i = choose|i: int| occurs_at(s, pat, i);
            assert(i + pat.len() <= 0);
        }
    } else if occurs_at(s, pat, 0) {
        let rest = s.skip(pat.len() as int);
        assert(s == pat + rest) by {
            assert forall|k: int| 0 <= k < pat.len() implies s[k] == pat[k] by {
                assert(s[0 + k] == pat[k]);
            }
        }
        ink_concat(pat, rest);
        ink_concat(to, replace_all(rest, pat, to));
        ink_replace(rest, pat, to);
    } else {
        let rest = s.skip(1);
        assert(s == seq![s[0]] + rest);
        ink_concat(seq![s[0]], rest);
        ink_concat(seq![s[0]], replace_all(rest, pat, to));
        ink_replace(rest, pat, to);
        if contains_text(s, pat) {
            let i = choose|i: int| occurs_at(s, pat, i);
            assert forall|k: int| 0 <= k < pat.len() implies rest[i - 1 + k] == #[trigger] pat[k] by {
                assert(s[i + k] == pat[k]);
            }
            assert(occurs_at(rest, pat, i - 1));
        }
    }
}

/// An entity has more ink than what it stands for.
proof fn entities_have_ink()
    ensures
        ink("<"@) < ink("&lt;"@),
        ink(">"@) < ink("&gt;"@),
        ink("\""@) < ink("&quot;"@),
{
    reveal_strlit("<");
    reveal_strlit(">");
    reveal_strlit("\"");
    reveal_strlit("&lt;");
    reveal_strlit("&gt;");
    reveal_strlit("&quot;");
    reveal_with_fuel(ink, 7);
}

/// Replacing entities takes ink where there is one.
proof fn ink_collapsed(s: Seq<char>)
    requires
        has_entity(s),
    ensures
        ink(collapsed(s)) < ink(s),
{
    reveal_strlit("&lt;");
    reveal_strlit("&gt;");
    reveal_strlit("&quot;");
    let a = replace_all(s, "&lt;"@, "<"@);
    let b = replace_all(a, "&gt;"@, ">"@);
    entities_have_ink();
    ink_replace(s, "&lt;"@, "<"@);
    ink_replace(a, "&gt;"@, ">"@);
    ink_replace(b, "&quot;"@, "\""@);
    if !contains_text(s, "&lt;"@) {
        replace_nothing(s, "&lt;"@, "<"@);
        if !contains_text(a, "&gt;"@) {
            replace_nothing(a, "&gt;"@, ">"@);
        }
    }
}

/// What a field must be like for its cell to match it: it holds nothing that looks like an
/// entity for `<`, `>` or `"`, and no character that XML does not allow, save among the white space
/// at its ends.
pub open spec fn survives(field: Seq<char>) -> bool {
    &&& !has_entity(stripped(field))
    &&& trim(stripped(field)) == trim(field)
}

/// Law: what is read back of a field matches the field if and only if the field is of
/// the kind that survives.
pub proof fn field_survives(field: Seq<char>)
    ensures
        trim(restored(field)) == trim(field) <==> survives(field),
{
    let s = stripped(field);
    if has_entity(s) {
        ink_collapsed(s);
        ink_stripped(field);
        ink_trim(restored(field));
        ink_trim(field);
    } else {
        restored_without_entity(field);
    }
}

/// Law: a streamed row matches the record that it was made of, if the fields are of the kind
/// that survives: no pair of a cell and its field is a mismatch.
pub proof fn streamed_row_matches(
    record: Seq<Seq<u8>>,
    types: Seq<ColType>,
    pairs: Seq<CellPair>,
    close: Seq<bool>,
)
    requires
        forall|c: int| 0 <= c < record.len() ==> survives(text_of(#[trigger] record[c])),
        pairs.len() == cells_from(pipe_row(record, types), 0).len(),
        close.len() == pairs.len(),
        forall|c: int|
            0 <= c < pairs.len() ==> is_pair(
                #[trigger] pairs[c],
                cells_from(pipe_row(record, types), 0),
                record,
                c,
            ),
    ensures
        pairs.len() == record.len(),
        mismatches_of(pairs, close).len() == 0,
{
    let cells = cells_from(pipe_row(record, types), 0);
    streamed_row_reads_back(record, types);
    assert forall|c: int| 0 <= c < pairs.len() implies (#[trigger] pairs[c]).xlsx@
        == pairs[c].csv@ by {
        assert(survives(text_of(record[c])));
        field_survives(text_of(record[c]));
        assert(cells[c] == restored(text_of(record[c])));
    }
    same_texts_match(pairs, close);
}

/// Pairs of the same texts match.
proof fn same_texts_match(pairs: Seq<CellPair>, close: Seq<bool>)
    requires
        close.len() == pairs.len(),
        forall|c: int|
            0 <= c < pairs.len() ==> (#[trigger] pairs[c]).xlsx@ == pairs[c].csv@,
    ensures
        mismatches_of(pairs, close).len() == 0,
    decreases pairs.len(),
{
    if pairs.len() > 0 {
        let front = pairs.drop_last();
        assert forall|c: int| 0 <= c < front.len() implies (#[trigger] front[c]).xlsx@
            == front[c].csv@ by {
            assert(front[c] == pairs[c]);
        }
        same_texts_match(front, close.drop_last());
        assert(pairs.last() == pairs[pairs.len() - 1]);
    }
}

// ---------------------------------------------------------------------------
// Whole workbooks
// ---------------------------------------------------------------------------

/// The rows of data of a sheet: all but the first, which is the header.
pub open spec fn data_rows(sheet: Seq<char>) -> Seq<Seq<char>> {
    rows_from(sheet, 0).skip(1)
}

/// The rows of data of streamed sheets are the rows of their records.
proof fn sheets_read_back(
    names: Seq<Seq<char>>,
    sheets: Seq<Seq<Seq<Seq<Seq<u8>>>>>,
    types: Seq<ColType>,
)
    ensures
        sheets.map_values(
            |s: Seq<Seq<Seq<Seq<u8>>>>| data_rows(pipe_sheet(names, s.flatten(), types)),
        ).flatten() == sheets.flatten().flatten().map_values(
            |r: Seq<Seq<u8>>| pipe_row(r, types),
        ),
    decreases sheets.len(),
{
    let f = |s: Seq<Seq<Seq<Seq<u8>>>>| data_rows(pipe_sheet(names, s.flatten(), types));
    let g = |r: Seq<Seq<u8>>| pipe_row(r, types);
    if sheets.len() == 0 {
        assert(sheets.map_values(f) == Seq::<Seq<Seq<char>>>::empty());
        assert(sheets.flatten() == Seq::<Seq<Seq<Seq<u8>>>>::empty());
        assert(sheets.flatten().flatten() == Seq::<Seq<Seq<u8>>>::empty());
        assert(sheets.map_values(f).flatten() == sheets.flatten().flatten().map_values(g));
    } else {
        let front = sheets.drop_last();
        let s = sheets.last();
        sheets_read_back(names, front, types);
        assert(sheets == front.push(s));
        front.lemma_flatten_push(s);
        vstd::seq_lib::lemma_flatten_concat(front.flatten(), s);
        assert(sheets.map_values(f) == front.map_values(f).push(f(s)));
        front.map_values(f).lemma_flatten_push(f(s));
        streamed_sheet_reads_back(names, s.flatten(), types);
        assert(f(s) == s.flatten().map_values(g));
        assert((front.flatten().flatten() + s.flatten()).map_values(g)
            == front.flatten().flatten().map_values(g) + s.flatten().map_values(g));
    }
}

/// Law: the rows of data in the workbook of a stream, sheet by sheet, are the rows of the
/// stream's records, in order, without those that repeat the header. Row for row they have as many
/// cells as the record has fields, and a cell matches its field if and only if the field is of the
/// kind that survives.
pub proof fn streamed_workbook_matches(
    names: Seq<Seq<char>>,
    header: Seq<Seq<u8>>,
    declared: Option<Seq<ColType>>,
    records: Seq<Seq<Seq<u8>>>,
)
    ensures
        ({
            let kept = without_headers(header, records);
            let types = stream_types(declared, kept, header.len());
            let sheets = sheet_groups(stream_groups(header, records));
            let rows = sheets.map_values(
                |s: Seq<Seq<Seq<Seq<u8>>>>| data_rows(pipe_sheet(names, s.flatten(), types)),
            ).flatten();
            &&& rows == kept.map_values(|r: Seq<Seq<u8>>| pipe_row(r, types))
            &&& forall|k: int|
                0 <= k < kept.len() ==> {
                    &&& in_order_from(#[trigger] rows[k], 0)
                    &&& cells_from(rows[k], 0).len() == kept[k].len()
                }
            &&& forall|k: int, c: int|
                0 <= k < kept.len() && 0 <= c < kept[k].len() ==> (trim(
                    #[trigger] cells_from(rows[k], 0)[c],
                ) == field_text(kept[k], c) <==> survives(text_of(kept[k][c])))
        }),
{
    let kept = without_headers(header, records);
    let types = stream_types(declared, kept, header.len());
    let groups = stream_groups(header, records);
    let sheets = sheet_groups(groups);
    let rows = sheets.map_values(
        |s: Seq<Seq<Seq<Seq<u8>>>>| data_rows(pipe_sheet(names, s.flatten(), types)),
    ).flatten();
    stream_keeps_every_row(header, declared, records);
    streamed_workbook_holds_records(names, groups, types);
    sheets_read_back(names, sheets, types);
    assert forall|k: int| 0 <= k < kept.len() implies {
        &&& in_order_from(#[trigger] rows[k], 0)
        &&& cells_from(rows[k], 0).len() == kept[k].len()
    } by {
        assert(rows[k] == pipe_row(kept[k], types));
        streamed_row_reads_back(kept[k], types);
    }
    assert forall|k: int, c: int| 0 <= k < kept.len() && 0 <= c < kept[k].len() implies (trim(
        #[trigger] cells_from(rows[k], 0)[c],
    ) == field_text(kept[k], c) <==> survives(text_of(kept[k][c]))) by {
        assert(rows[k] == pipe_row(kept[k], types));
        streamed_row_reads_back(kept[k], types);
        assert(restored_fields(kept[k])[c] == restored(text_of(kept[k][c])));
        field_survives(text_of(kept[k][c]));
    }
}

// ---------------------------------------------------------------------------
// The order of the sheets
// ---------------------------------------------------------------------------

/// The names of the parts of a workbook of `n` sheets, in the order in which they are written.
pub open spec fn part_names(n: nat) -> Seq<Seq<char>> {
    seq!["_rels/.rels"@, "xl/styles.xml"@] + Seq::new(n, |i: int| sheet_part((i + 1) as nat))
        + seq!["[Content_Types].xml"@, "xl/workbook.xml"@, "xl/_rels/workbook.xml.rels"@]
}

/// Law: the parts of a streamed workbook have these names, in this order.
pub proof fn streamed_part_names(names: Seq<Seq<char>>, chunks: Seq<ChunkData>)
    ensures
        finished_archive(names, chunks).map_values(|part: (Seq<char>, Seq<u8>)| part.0)
            == part_names(sheets_of(chunks).len()),
{
}

/// Law: the parts that hold sheets are told from the others by their names.
pub proof fn sheet_parts_are_sheets(n: nat)
    ensures
        sheet_parts(part_names(n)) == Seq::new(n, |i: int| sheet_part((i + 1) as nat)),
{
    let pred = |name: Seq<char>| is_sheet_part(name);
    let a = seq!["_rels/.rels"@, "xl/styles.xml"@];
    let b = Seq::new(n, |i: int| sheet_part((i + 1) as nat));
    let c = seq!["[Content_Types].xml"@, "xl/workbook.xml"@, "xl/_rels/workbook.xml.rels"@];
    reveal_strlit("_rels/.rels");
    reveal_strlit("xl/styles.xml");
    reveal_strlit("[Content_Types].xml");
    reveal_strlit("xl/workbook.xml");
    reveal_strlit("xl/_rels/workbook.xml.rels");
    reveal_strlit("xl/worksheets/sheet");
    reveal_strlit(".xml");
    assert forall|i: int| 0 <= i < a.len() implies !is_sheet_part(#[trigger] a[i]) by {
        if is_sheet_part(a[i]) {
            assert(a[i][0int + 3] == SHEET_PART_START@[3]);
        }
    }
    assert forall|i: int| 0 <= i < c.len() implies !is_sheet_part(#[trigger] c[i]) by {
        if is_sheet_part(c[i]) {
            assert(c[i][0int + 3] == SHEET_PART_START@[3]);
            assert(c[i][0int + 7] == SHEET_PART_START@[7]);
        }
    }
    assert forall|i: int| 0 <= i < b.len() implies is_sheet_part(#[trigger] b[i]) by {
        let name = sheet_part((i + 1) as nat);
        let start = SHEET_PART_START@;
        let end = SHEET_PART_END@;
        assert(name == start + (decimal((i + 1) as nat) + end));
        assert forall|k: int| 0 <= k < start.len() implies name[0 + k] == #[trigger] start[k] by {}
        assert forall|k: int| 0 <= k < end.len() implies name[name.len() - end.len() + k]
            == #[trigger] end[k] by {}
    }
    Seq::filter_distributes_over_add(a, b, pred);
    Seq::filter_distributes_over_add(a + b, c, pred);
    filter_all(b);
    filter_none(a);
    filter_none(c);
    assert(Seq::<Seq<char>>::empty() + b + Seq::<Seq<char>>::empty() == b);
}

/// Names of sheets are all kept.
proof fn filter_all(names: Seq<Seq<char>>)
    requires
        forall|i: int| 0 <= i < names.len() ==> is_sheet_part(#[trigger] names[i]),
    ensures
        sheet_parts(names) == names,
    decreases names.len(),
{
    reveal(Seq::filter);
    if names.len() > 0 {
        let front = names.drop_last();
        assert forall|i: int| 0 <= i < front.len() implies is_sheet_part(#[trigger] front[i]) by {
            assert(front[i] == names[i]);
        }
        filter_all(front);
        assert(names.last() == names[names.len() - 1]);
        assert(front.push(names.last()) == names);
    }
}

/// Other names are all left out.
proof fn filter_none(names: Seq<Seq<char>>)
    requires
        forall|i: int| 0 <= i < names.len() ==> !is_sheet_part(#[trigger] names[i]),
    ensures
        sheet_parts(names) == Seq::<Seq<char>>::empty(),
    decreases names.len(),
{
    reveal(Seq::filter);
    if names.len() > 0 {
        let front = names.drop_last();
        assert forall|i: int| 0 <= i < front.len() implies !is_sheet_part(#[trigger] front[i]) by {
            assert(front[i] == names[i]);
        }
        filter_none(front);
        assert(names.last() == names[names.len() - 1]);
    }
}

/// What two texts have in common at their start does not matter for their order.
proof fn text_le_behind(start: Seq<char>, a: Seq<char>, b: Seq<char>)
    ensures
        text_le(start + a, start + b) == text_le(a, b),
    decreases start.len(),
{
    if start.len() == 0 {
        assert(start + a == a);
        assert(start + b == b);
    } else {
        assert((start + a).drop_first() == start.drop_first() + a);
        assert((start + b).drop_first() == start.drop_first() + b);
        text_le_behind(start.drop_first(), a, b);
    }
}

/// Law: the sheets of a workbook of up to nine sheets are read from the first to the
/// last. From ten sheets on they are not: the name of sheet 10 comes before that of sheet 2.
pub proof fn sheets_read_in_order(n: nat, sheets: Seq<Seq<char>>)
    requires
        n <= 9,
        in_text_order(sheets),
        sheets.to_multiset() == sheet_parts(part_names(n)).to_multiset(),
    ensures
        sheets == Seq::new(n, |i: int| sheet_part((i + 1) as nat)),
{
    let expected = Seq::new(n, |i: int| sheet_part((i + 1) as nat));
    let leq = |a: Seq<char>, b: Seq<char>| text_le(a, b);
    sheet_parts_are_sheets(n);
    assert forall|i: int, j: int| 0 <= i < j < n implies text_le(
        #[trigger] expected[i],
        #[trigger] expected[j],
    ) by {
        let start = SHEET_PART_START@;
        let end = SHEET_PART_END@;
        let a = decimal((i + 1) as nat) + end;
        let b = decimal((j + 1) as nat) + end;
        assert(expected[i] == start + a);
        assert(expected[j] == start + b);
        text_le_behind(start, a, b);
        assert(a.first() == digit_char((i + 1) as nat));
        assert(b.first() == digit_char((j + 1) as nat));
    }
    assert forall|a: Seq<char>, b: Seq<char>, c: Seq<char>| #[trigger]
        leq(a, b) && #[trigger] leq(b, c) implies leq(a, c) by {
        text_le_transitive(a, b, c);
    }
    assert forall|a: Seq<char>, b: Seq<char>| #[trigger] leq(a, b) && #[trigger] leq(
        b,
        a,
    ) implies a == b by {
        text_le_antisymmetric(a, b);
    }
    assert forall|a: Seq<char>, b: Seq<char>| #[trigger] leq(a, b) || #[trigger] leq(b, a) by {
        text_le_total(a, b);
    }
    assert forall|a: Seq<char>| #[trigger] leq(a, a) by {
        text_le_total(a, a);
    }
    vstd::seq_lib::lemma_sorted_unique(sheets, expected, leq);
}

} // verus!
