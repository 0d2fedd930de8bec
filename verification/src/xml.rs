//! The XML of worksheets: escaping, the shape of cells and rows, and reading them back.

use vstd::prelude::*;
use vstd::string::*;
use crate::text::{
    chars_of, copy_range, find, find_from, find_from_first, contains_text, occurs_at, replace, replace_all,
    stands_at, string_of, decode_field, text_of,
};

verus! {

broadcast use vstd::string::group_string_axioms;

// ---------------------------------------------------------------------------
// Escaping
// ---------------------------------------------------------------------------

/// A control character that XML 1.0 does not allow: every one below the space, save
/// tab, line feed and carriage return.
pub open spec fn is_illegal(c: char) -> bool {
    c < ' ' && c != '\t' && c != '\n' && c != '\r'
}

/// A character as it stands in XML text.
pub open spec fn escaped_char(c: char) -> Seq<char> {
    if c == '&' {
        "&amp;"@
    } else if c == '<' {
        "&lt;"@
    } else if c == '>' {
        "&gt;"@
    } else if c == '"' {
        "&quot;"@
    } else if is_illegal(c) {
        Seq::empty()
    } else {
        seq![c]
    }
}

/// A text as it stands in XML: reserved characters are escaped, characters that XML
/// does not allow are left out.
pub open spec fn escaped(s: Seq<char>) -> Seq<char>
    decreases s.len(),
{
    if s.len() == 0 {
        Seq::empty()
    } else {
        escaped_char(s.first()) + escaped(s.drop_first())
    }
}

/// Escaping works character by character.
pub proof fn escaped_concat(a: Seq<char>, b: Seq<char>)
    ensures
        escaped(a + b) == escaped(a) + escaped(b),
    decreases a.len(),
{
    if a.len() == 0 {
        assert(a + b == b);
        assert(escaped(a) + escaped(b) == escaped(b));
    } else {
        assert((a + b).drop_first() == a.drop_first() + b);
        escaped_concat(a.drop_first(), b);
        assert(escaped(a + b) == escaped(a) + escaped(b));
    }
}

/// Escaping one more character.
proof fn escaped_push(s: Seq<char>, c: char)
    ensures
        escaped(s.push(c)) == escaped(s) + escaped_char(c),
{
    let one = seq![c];
    escaped_concat(s, one);
    assert(s.push(c) == s + one);
    assert(one.drop_first() == Seq::<char>::empty());
    assert(escaped(one.drop_first()) == Seq::<char>::empty());
    assert(escaped(one) == escaped_char(c));
}

/// Appends a text, escaped, to `out`.
pub fn escape_xml(s: &str, out: &mut String)
    ensures
        final(out)@ == old(out)@ + escaped(s@),
{
    let ghost start = out@;
    assert(escaped(s@.take(0)) == Seq::<char>::empty());
    for c in it: s.chars()
        invariant
            it.seq() == s@,
            out@ == start + escaped(s@.take(it.index())),
    {
        let ghost before = out@;
        if c == '&' {
            out.append("&amp;");
        } else if c == '<' {
            out.append("&lt;");
        } else if c == '>' {
            out.append("&gt;");
        } else if c == '"' {
            out.append("&quot;");
        } else if c < ' ' && c != '\t' && c != '\n' && c != '\r' {
            // Not allowed in XML.
        } else {
            out.push(c);
        }
        proof {
            let i = it.index();
            assert(out@ == before + escaped_char(c));
            assert(s@.take(i + 1) == s@.take(i).push(c));
            escaped_push(s@.take(i), c);
        }
    }
    assert(s@.take(s@.len() as int) == s@);
}

/// Appends the text of a byte field, escaped, to `out`. A field that is not UTF-8 adds nothing.
pub fn escape_xml_bytes(s: &[u8], out: &mut String)
    ensures
        final(out)@ == old(out)@ + escaped(text_of(s@)),
{
    escape_xml(decode_field(s), out);
}

/// An XML text with its entities replaced, one kind after the other: `&amp;` first,
/// then `&lt;`, `&gt;` and `&quot;`.
pub open spec fn unescaped(s: Seq<char>) -> Seq<char> {
    replace_all(
        replace_all(
            replace_all(replace_all(s, "&amp;"@, "&"@), "&lt;"@, "<"@),
            "&gt;"@,
            ">"@,
        ),
        "&quot;"@,
        "\""@,
    )
}

/// Replaces the entities of an XML text.
fn unescape(s: &Vec<char>) -> (r: Vec<char>)
    ensures
        r@ == unescaped(s@),
{
    proof {
        reveal_strlit("&amp;");
        reveal_strlit("&lt;");
        reveal_strlit("&gt;");
        reveal_strlit("&quot;");
    }
    let a = replace(s, "&amp;", "&");
    let b = replace(&a, "&lt;", "<");
    let c = replace(&b, "&gt;", ">");
    replace(&c, "&quot;", "\"")
}

// ---------------------------------------------------------------------------
// Reading cells
// ---------------------------------------------------------------------------

/// Where the cell that starts at `start` ends: behind `/>` or behind `</c>`, whichever
/// comes first.
pub open spec fn cell_end(row: Seq<char>, start: int) -> Option<int> {
    match (find_from(row, "/>"@, start), find_from(row, "</c>"@, start)) {
        (Some(a), Some(b)) => Some(
            if a < b {
                a + 2
            } else {
                b + 4
            },
        ),
        (Some(a), None) => Some(a + 2),
        (None, Some(b)) => Some(b + 4),
        (None, None) => None,
    }
}

/// `cell` ends in `/>`: it has no content.
pub open spec fn is_self_closing(cell: Seq<char>) -> bool {
    occurs_at(cell, "/>"@, cell.len() - 2)
}

/// `cell` holds its value as inline text.
pub open spec fn is_inline(cell: Seq<char>) -> bool {
    contains_text(cell, "t=\"inlineStr\""@)
}

/// Where the content between an opening and a closing tag starts and ends: behind the
/// first opening tag, and at the first closing tag.
pub open spec fn content_range(cell: Seq<char>, open: Seq<char>, close: Seq<char>) -> Option<(int, int)> {
    match (find_from(cell, open, 0), find_from(cell, close, 0)) {
        (Some(a), Some(b)) => Some((a + open.len(), b)),
        _ => None,
    }
}

/// Where the value of a cell stands in it.
pub open spec fn value_range(cell: Seq<char>) -> Option<(int, int)> {
    if is_self_closing(cell) {
        None
    } else if is_inline(cell) {
        content_range(cell, "<t>"@, "</t>"@)
    } else {
        content_range(cell, "<v>"@, "</v>"@)
    }
}

/// The opening tag of a cell's value does not come after the closing one.
pub open spec fn is_in_order(cell: Seq<char>) -> bool {
    value_range(cell) matches Some((a, b)) ==> a <= b
}

/// The value of a cell: nothing where it has none, the entities replaced where it is
/// inline text, and otherwise the value as it stands.
pub open spec fn cell_value(cell: Seq<char>) -> Seq<char> {
    match value_range(cell) {
        None => Seq::empty(),
        Some((a, b)) => if is_inline(cell) {
            unescaped(cell.subrange(a, b))
        } else {
            cell.subrange(a, b)
        },
    }
}

/// The first cell of a row at or after `pos`: where it starts and ends.
pub open spec fn next_cell(row: Seq<char>, pos: int) -> Option<(int, int)> {
    match find_from(row, "<c"@, pos) {
        None => None,
        Some(start) => match cell_end(row, start) {
            None => None,
            Some(end) => Some((start, end)),
        },
    }
}

/// A cell lies inside the row, at or after the position at which it was looked for, and is
/// not empty.
pub proof fn next_cell_bounds(row: Seq<char>, pos: int)
    requires
        0 <= pos,
    ensures
        next_cell(row, pos) matches Some((start, end)) ==> pos <= start < end <= row.len(),
{
    reveal_strlit("<c");
    reveal_strlit("/>");
    reveal_strlit("</c>");
    find_from_first(row, "<c"@, pos);
    if let Some(start) = find_from(row, "<c"@, pos) {
        find_from_first(row, "/>"@, start);
        find_from_first(row, "</c>"@, start);
    }
}

/// The values of all cells of a row from `pos` on.
pub open spec fn cells_from(row: Seq<char>, pos: int) -> Seq<Seq<char>>
    decreases row.len() - pos,
    via cells_from_ends
{
    if pos < 0 {
        Seq::empty()
    } else {
        match next_cell(row, pos) {
            None => Seq::empty(),
            Some((start, end)) => seq![cell_value(row.subrange(start, end))] + cells_from(row, end),
        }
    }
}

#[via_fn]
proof fn cells_from_ends(row: Seq<char>, pos: int) {
    if pos >= 0 {
        next_cell_bounds(row, pos);
    }
}

/// In all cells of a row from `pos` on the value's tags are in order.
pub open spec fn in_order_from(row: Seq<char>, pos: int) -> bool
    decreases row.len() - pos,
    via in_order_from_ends
{
    pos < 0 || match next_cell(row, pos) {
        None => true,
        Some((start, end)) => is_in_order(row.subrange(start, end)) && in_order_from(row, end),
    }
}

#[via_fn]
proof fn in_order_from_ends(row: Seq<char>, pos: int) {
    if pos >= 0 {
        next_cell_bounds(row, pos);
    }
}

/// Finds the first cell of a row at or after `pos`.
fn find_cell(row: &Vec<char>, pos: usize) -> (r: Option<(usize, usize)>)
    ensures
        r is Some <==> next_cell(row@, pos as int) is Some,
        r matches Some((start, end)) ==> {
            &&& next_cell(row@, pos as int) == Some((start as int, end as int))
            &&& pos <= start < end <= row@.len()
        },
{
    proof {
        next_cell_bounds(row@, pos as int);
        reveal_strlit("/>");
        reveal_strlit("</c>");
    }
    let start = match find(row, &chars_of("<c"), pos) {
        Some(start) => start,
        None => {
            return None;
        },
    };
    let slash = find(row, &chars_of("/>"), start);
    let close = find(row, &chars_of("</c>"), start);
    match (slash, close) {
        (Some(a), Some(b)) => if a < b {
            Some((start, a + 2))
        } else {
            Some((start, b + 4))
        },
        (Some(a), None) => Some((start, a + 2)),
        (None, Some(b)) => Some((start, b + 4)),
        (None, None) => None,
    }
}

/// Finds the content between an opening and a closing tag.
fn find_content(cell: &Vec<char>, open: &str, close: &str) -> (r: Option<(usize, usize)>)
    ensures
        r is Some <==> content_range(cell@, open@, close@) is Some,
        r matches Some((a, b)) ==> {
            &&& content_range(cell@, open@, close@) == Some((a as int, b as int))
            &&& a <= cell@.len()
            &&& b <= cell@.len()
        },
{
    let open_chars = chars_of(open);
    match (find(cell, &open_chars, 0), find(cell, &chars_of(close), 0)) {
        (Some(a), Some(b)) => Some((a + open_chars.len(), b)),
        _ => None,
    }
}

/// Whether a cell holds its value as inline text.
fn holds_inline(cell: &Vec<char>) -> (r: bool)
    ensures
        r == is_inline(cell@),
{
    proof {
        find_from_first(cell@, "t=\"inlineStr\""@, 0);
    }
    let r = find(cell, &chars_of("t=\"inlineStr\""), 0).is_some();
    assert(is_inline(cell@) ==> exists|i: int| 0 <= i && occurs_at(cell@, "t=\"inlineStr\""@, i));
    r
}

/// Finds the value of a cell.
fn find_value(cell: &Vec<char>) -> (r: Option<(usize, usize)>)
    ensures
        r is Some <==> value_range(cell@) is Some,
        r matches Some((a, b)) ==> {
            &&& value_range(cell@) == Some((a as int, b as int))
            &&& a <= cell@.len()
            &&& b <= cell@.len()
        },
{
    if cell.len() >= 2 && stands_at(cell, &chars_of("/>"), cell.len() - 2) {
        return None;
    }
    if holds_inline(cell) {
        find_content(cell, "<t>", "</t>")
    } else {
        find_content(cell, "<v>", "</v>")
    }
}

/// Whether in every cell of a row the tags of the value are in order.
pub fn cells_in_order(row_str: &str) -> (r: bool)
    ensures
        r == in_order_from(row_str@, 0),
{
    let row = chars_of(row_str);
    let mut pos: usize = 0;
    loop
        invariant
            row@ == row_str@,
            pos <= row@.len(),
            in_order_from(row@, 0) == in_order_from(row@, pos as int),
        decreases row@.len() - pos,
    {
        match find_cell(&row, pos) {
            None => {
                return true;
            },
            Some((start, end)) => {
                let cell = copy_range(&row, start, end);
                if let Some((a, b)) = find_value(&cell) {
                    if a > b {
                        return false;
                    }
                }
                pos = end;
            },
        }
    }
}

/// The values of the cells of a row.
pub fn extract_xml_cells(row_str: &str) -> (cells: Vec<String>)
    requires
        in_order_from(row_str@, 0),
    ensures
        cells.deep_view() == cells_from(row_str@, 0),
{
    let row = chars_of(row_str);
    let mut cells: Vec<String> = Vec::new();
    let mut pos: usize = 0;
    loop
        invariant
            row@ == row_str@,
            pos <= row@.len(),
            in_order_from(row@, pos as int),
            cells_from(row@, 0) == cells.deep_view() + cells_from(row@, pos as int),
        decreases row@.len() - pos,
    {
        match find_cell(&row, pos) {
            None => {
                return cells;
            },
            Some((start, end)) => {
                let ghost before = cells.deep_view();
                let cell = copy_range(&row, start, end);
                let value = match find_value(&cell) {
                    None => String::new(),
                    Some((a, b)) => {
                        let content = copy_range(&cell, a, b);
                        if holds_inline(&cell) {
                            string_of(&unescape(&content))
                        } else {
                            string_of(&content)
                        }
                    },
                };
                assert(value@ == cell_value(cell@));
                cells.push(value);
                assert(cells.deep_view() == before.push(cell_value(cell@)));
                assert(before + (seq![cell_value(cell@)] + cells_from(row@, end as int))
                    == cells.deep_view() + cells_from(row@, end as int));
                pos = end;
            },
        }
    }
}

// ---------------------------------------------------------------------------
// Reading rows
// ---------------------------------------------------------------------------

/// The first row of a sheet at or after `pos`: where it starts and ends.
pub open spec fn next_row(sheet: Seq<char>, pos: int) -> Option<(int, int)> {
    match find_from(sheet, "<row>"@, pos) {
        None => None,
        Some(start) => match find_from(sheet, "</row>"@, start) {
            None => None,
            Some(close) => Some((start, close + 6)),
        },
    }
}

/// A row lies inside the sheet, at or after the position at which it was looked for, and is
/// not empty.
pub proof fn next_row_bounds(sheet: Seq<char>, pos: int)
    requires
        0 <= pos,
    ensures
        next_row(sheet, pos) matches Some((start, end)) ==> pos <= start < end <= sheet.len(),
{
    reveal_strlit("<row>");
    reveal_strlit("</row>");
    find_from_first(sheet, "<row>"@, pos);
    if let Some(start) = find_from(sheet, "<row>"@, pos) {
        find_from_first(sheet, "</row>"@, start);
    }
}

/// All rows of a sheet from `pos` on.
pub open spec fn rows_from(sheet: Seq<char>, pos: int) -> Seq<Seq<char>>
    decreases sheet.len() - pos,
    via rows_from_ends
{
    if pos < 0 {
        Seq::empty()
    } else {
        match next_row(sheet, pos) {
            None => Seq::empty(),
            Some((start, end)) => seq![sheet.subrange(start, end)] + rows_from(sheet, end),
        }
    }
}

#[via_fn]
proof fn rows_from_ends(sheet: Seq<char>, pos: int) {
    if pos >= 0 {
        next_row_bounds(sheet, pos);
    }
}

/// The rows of a sheet, each from its opening to its closing tag.
pub fn split_rows(sheet: &str) -> (rows: Vec<String>)
    ensures
        rows.deep_view() == rows_from(sheet@, 0),
{
    let chars = chars_of(sheet);
    let open = chars_of("<row>");
    let close = chars_of("</row>");
    proof {
        reveal_strlit("<row>");
        reveal_strlit("</row>");
    }
    let mut rows: Vec<String> = Vec::new();
    let mut pos: usize = 0;
    loop
        invariant
            chars@ == sheet@,
            open@ == "<row>"@,
            close@ == "</row>"@,
            close@.len() == 6,
            pos <= chars@.len(),
            rows_from(chars@, 0) == rows.deep_view() + rows_from(chars@, pos as int),
        decreases chars@.len() - pos,
    {
        proof {
            next_row_bounds(chars@, pos as int);
        }
        let start = match find(&chars, &open, pos) {
            Some(start) => start,
            None => {
                return rows;
            },
        };
        let end = match find(&chars, &close, start) {
            Some(i) => i + 6,
            None => {
                return rows;
            },
        };
        let ghost before = rows.deep_view();
        let row = string_of(&copy_range(&chars, start, end));
        rows.push(row);
        assert(rows.deep_view() == before.push(chars@.subrange(start as int, end as int)));
        assert(before + (seq![chars@.subrange(start as int, end as int)] + rows_from(
            chars@,
            end as int,
        )) == rows.deep_view() + rows_from(chars@, end as int));
        pos = end;
    }
}

} // verus!
