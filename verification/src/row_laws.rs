//! What reading written rows and sheets gives back.

use vstd::prelude::*;
use crate::columns::{col_name, col_name_number, is_col_name, ColType};
use crate::escape_laws::{
    escaped_is_safe, restored, restored_without_entity, stripped, unescaped_escaped,
};
use crate::number::{finite_number_chars, is_finite_number, is_number_char};
use crate::render::{
    cell_ref, inline_cell, merge_cells, merge_row, number_cell, pipe_cells, pipe_row, pipe_rows,
    row_ref, row_xml, value_cell,
};
use crate::text::{
    contains_text, decimal, find_from, find_from_at, find_from_first, find_from_none, is_white,
    occurs_at, text_of, trim, trim_keeps,
};
use crate::workbook::{header_cell, header_row, sheet_head, SHEET_CLOSE, SHEET_OPEN};
use crate::xml::{
    cell_value, cells_from, escaped, in_order_from, is_illegal, is_in_order, is_inline,
    is_self_closing, next_cell, next_row, rows_from, unescaped, value_range,
};

verus! {

broadcast use vstd::string::group_string_axioms;

// ---------------------------------------------------------------------------
// Numbers as texts
// ---------------------------------------------------------------------------

/// A character that stands in XML as it is.
spec fn is_unreserved(c: char) -> bool {
    c != '&' && c != '<' && c != '>' && c != '"'
}

/// A finite number, with white space around it, holds no reserved character and no `t`.
proof fn number_is_unreserved(v: Seq<char>)
    requires
        is_finite_number(trim(v)),
    ensures
        forall|i: int| 0 <= i < v.len() ==> is_unreserved(#[trigger] v[i]) && v[i] != 't',
{
    let t = trim(v);
    finite_number_chars(t);
    trim_keeps(v);
    assert forall|i: int| 0 <= i < v.len() implies is_unreserved(#[trigger] v[i]) && v[i]
        != 't' by {
        if !is_white(v[i]) {
            let j = choose|j: int| 0 <= j < t.len() && t[j] == v[i];
            assert(is_number_char(t[j]));
        }
    }
}

/// Without reserved characters, escaping leaves the legal part.
proof fn escaped_unreserved(v: Seq<char>)
    requires
        forall|i: int| 0 <= i < v.len() ==> is_unreserved(#[trigger] v[i]),
    ensures
        escaped(v) == stripped(v),
    decreases v.len(),
{
    if v.len() > 0 {
        let t = v.drop_first();
        assert forall|i: int| 0 <= i < t.len() implies is_unreserved(#[trigger] t[i]) by {
            assert(t[i] == v[i + 1]);
        }
        escaped_unreserved(t);
        assert(is_unreserved(v[0]));
        assert(escaped(v) == stripped(v));
    }
}

/// The legal part of a text holds characters of the text only.
proof fn stripped_chars(v: Seq<char>)
    ensures
        forall|i: int| 0 <= i < stripped(v).len() ==> v.contains(#[trigger] stripped(v)[i]),
    decreases v.len(),
{
    if v.len() > 0 {
        let t = v.drop_first();
        let s = stripped(v);
        stripped_chars(t);
        assert forall|i: int| 0 <= i < s.len() implies v.contains(#[trigger] s[i]) by {
            if is_illegal(v.first()) {
                let j = choose|j: int| 0 <= j < t.len() && t[j] == s[i];
                assert(v[j + 1] == s[i]);
            } else if i == 0 {
                assert(v[0] == s[0]);
            } else {
                assert(s[i] == stripped(t)[i - 1]);
                let j = choose|j: int| 0 <= j < t.len() && t[j] == s[i];
                assert(v[j + 1] == s[i]);
            }
        }
    }
}

/// A number is read back as it was escaped.
proof fn number_restored(v: Seq<char>)
    requires
        is_finite_number(trim(v)),
    ensures
        escaped(v) == restored(v),
        forall|i: int| 0 <= i < escaped(v).len() ==> #[trigger] escaped(v)[i] != 't',
{
    reveal_strlit("&lt;");
    reveal_strlit("&gt;");
    reveal_strlit("&quot;");
    let s = stripped(v);
    number_is_unreserved(v);
    escaped_unreserved(v);
    stripped_chars(v);
    assert forall|i: int| 0 <= i < s.len() implies #[trigger] s[i] != '&' && s[i] != 't' by {
        let j = choose|j: int| 0 <= j < v.len() && v[j] == s[i];
        assert(is_unreserved(v[j]));
    }
    if contains_text(s, "&lt;"@) {
        let i = choose|i: int| occurs_at(s, "&lt;"@, i);
        assert(s[i + 0] == "&lt;"@[0]);
    }
    if contains_text(s, "&gt;"@) {
        let i = choose|i: int| occurs_at(s, "&gt;"@, i);
        assert(s[i + 0] == "&gt;"@[0]);
    }
    if contains_text(s, "&quot;"@) {
        let i = choose|i: int| occurs_at(s, "&quot;"@, i);
        assert(s[i + 0] == "&quot;"@[0]);
    }
    restored_without_entity(v);
}

// ---------------------------------------------------------------------------
// Single cells
// ---------------------------------------------------------------------------

/// Attributes that do not disturb the reading of a cell.
spec fn is_quiet(attrs: Seq<char>) -> bool {
    forall|i: int|
        0 <= i < attrs.len() ==> {
            let c = #[trigger] attrs[i];
            c != '<' && c != '>' && c != '/' && c != 't'
        }
}

/// A text without angle brackets.
spec fn is_flat(text: Seq<char>) -> bool {
    forall|i: int| 0 <= i < text.len() ==> #[trigger] text[i] != '<' && text[i] != '>'
}

/// A cell that ends at its first closing mark, at its own end.
spec fn is_closed(x: Seq<char>) -> bool {
    ||| x == "<c/>"@
    ||| {
        &&& occurs_at(x, "<c"@, 0)
        &&& occurs_at(x, "</c>"@, x.len() - 4)
        &&& forall|j: int|
            0 <= j < x.len() - 4 ==> !occurs_at(x, "</c>"@, j) && !occurs_at(x, "/>"@, j)
    }
}

/// The empty cell has no value.
proof fn empty_cell_reads()
    ensures
        is_closed("<c/>"@),
        cell_value("<c/>"@) == Seq::<char>::empty(),
        is_in_order("<c/>"@),
{
    reveal_strlit("<c/>");
    reveal_strlit("/>");
    let x = "<c/>"@;
    assert(occurs_at(x, "/>"@, 2));
}

/// A number cell holds its text as its value.
proof fn number_cell_reads(attrs: Seq<char>, text: Seq<char>)
    requires
        is_quiet(attrs),
        is_flat(text),
        forall|i: int| 0 <= i < text.len() ==> #[trigger] text[i] != 't',
    ensures
        is_closed(number_cell(attrs, text)),
        cell_value(number_cell(attrs, text)) == text,
        is_in_order(number_cell(attrs, text)),
{
    reveal_strlit("<c");
    reveal_strlit("><v>");
    reveal_strlit("</v></c>");
    reveal_strlit("</c>");
    reveal_strlit("/>");
    reveal_strlit("<v>");
    reveal_strlit("</v>");
    reveal_strlit("t=\"inlineStr\"");
    let x = number_cell(attrs, text);
    let p1: int = 2 + attrs.len() as int;
    let p2 = p1 + 4;
    let p3: int = p2 + text.len();
    assert(x.len() == p3 + 8);
    assert forall|j: int| 0 <= j < x.len() implies {
        let c = #[trigger] x[j];
        &&& c == '<' ==> j == 0 || j == p1 + 1 || j == p3 || j == p3 + 4
        &&& c == '>' ==> j == p1 || j == p1 + 3 || j == p3 + 3 || j == p3 + 7
        &&& c != 't'
    } by {
        if j < 2 {
        } else if j < p1 {
            assert(x[j] == attrs[j - 2]);
        } else if j < p2 {
            assert(x[j] == "><v>"@[j - p1]);
        } else if j < p3 {
            assert(x[j] == text[j - p2]);
        } else {
            assert(x[j] == "</v></c>"@[j - p3]);
        }
    }
    assert(x[0] == '<' && x[1] == 'c');
    assert(x[p1] == '>' && x[p1 + 1] == '<' && x[p1 + 2] == 'v' && x[p1 + 3] == '>');
    assert(x[p3] == '<' && x[p3 + 1] == '/' && x[p3 + 2] == 'v' && x[p3 + 3] == '>');
    assert(x[p3 + 4] == '<' && x[p3 + 5] == '/' && x[p3 + 6] == 'c' && x[p3 + 7] == '>');
    assert(occurs_at(x, "<c"@, 0));
    assert(occurs_at(x, "</c>"@, x.len() - 4));
    assert forall|j: int| 0 <= j < x.len() - 4 implies !occurs_at(x, "</c>"@, j) && !occurs_at(
        x,
        "/>"@,
        j,
    ) by {
        if occurs_at(x, "</c>"@, j) {
            assert(x[j + 0] == "</c>"@[0]);
            assert(x[j + 1] == "</c>"@[1]);
            assert(x[j + 2] == "</c>"@[2]);
        }
        if occurs_at(x, "/>"@, j) {
            assert(x[j + 0] == "/>"@[0]);
            assert(x[j + 1] == "/>"@[1]);
            if j + 1 == p1 {
                if attrs.len() > 0 {
                    assert(x[j] == attrs[attrs.len() - 1]);
                }
            }
        }
    }
    assert(!is_self_closing(x)) by {
        if is_self_closing(x) {
            assert(x[x.len() - 2 + 0] == "/>"@[0]);
        }
    }
    assert(!is_inline(x)) by {
        if is_inline(x) {
            let i = choose|i: int| occurs_at(x, "t=\"inlineStr\""@, i);
            assert(x[i + 0] == "t=\"inlineStr\""@[0]);
        }
    }
    assert(occurs_at(x, "<v>"@, p1 + 1));
    assert forall|j: int| 0 <= j < p1 + 1 implies !occurs_at(x, "<v>"@, j) by {
        if occurs_at(x, "<v>"@, j) {
            assert(x[j + 0] == "<v>"@[0]);
            assert(x[j + 1] == "<v>"@[1]);
        }
    }
    find_from_at(x, "<v>"@, 0, p1 + 1);
    assert(occurs_at(x, "</v>"@, p3));
    assert forall|j: int| 0 <= j < p3 implies !occurs_at(x, "</v>"@, j) by {
        if occurs_at(x, "</v>"@, j) {
            assert(x[j + 0] == "</v>"@[0]);
            assert(x[j + 1] == "</v>"@[1]);
        }
    }
    find_from_at(x, "</v>"@, 0, p3);
    assert(value_range(x) == Some((p2, p3)));
    assert(x.subrange(p2, p3) == text);
}

/// An inline cell holds its text, with the entities replaced, as its value.
proof fn inline_cell_reads(attrs: Seq<char>, text: Seq<char>)
    requires
        is_quiet(attrs),
        is_flat(text),
    ensures
        is_closed(inline_cell(attrs, text)),
        cell_value(inline_cell(attrs, text)) == unescaped(text),
        is_in_order(inline_cell(attrs, text)),
{
    reveal_strlit("<c");
    reveal_strlit(" t=\"inlineStr\"><is><t>");
    reveal_strlit("</t></is></c>");
    reveal_strlit("</c>");
    reveal_strlit("/>");
    reveal_strlit("<t>");
    reveal_strlit("</t>");
    reveal_strlit("t=\"inlineStr\"");
    let x = inline_cell(attrs, text);
    let open = " t=\"inlineStr\"><is><t>"@;
    let close = "</t></is></c>"@;
    let p1: int = 2 + attrs.len() as int;
    let p2 = p1 + 22;
    let p3: int = p2 + text.len();
    assert(open.len() == 22);
    assert(x.len() == p3 + 13);
    assert forall|j: int| 0 <= j < x.len() implies {
        let c = #[trigger] x[j];
        &&& c == '<' ==> j == 0 || j == p1 + 15 || j == p1 + 19 || j == p3 || j == p3 + 4 || j
            == p3 + 9
        &&& c == '>' ==> j == p1 + 14 || j == p1 + 18 || j == p1 + 21 || j == p3 + 3 || j == p3
            + 8 || j == p3 + 12
    } by {
        if j < 2 {
        } else if j < p1 {
            assert(x[j] == attrs[j - 2]);
        } else if j < p2 {
            assert(x[j] == open[j - p1]);
        } else if j < p3 {
            assert(x[j] == text[j - p2]);
        } else {
            assert(x[j] == close[j - p3]);
        }
    }
    assert(x[0] == '<' && x[1] == 'c');
    assert forall|j: int| 0 <= j < 22 implies #[trigger] x[p1 + j] == open[j] by {}
    assert forall|j: int| 0 <= j < 13 implies #[trigger] x[p3 + j] == close[j] by {}
    assert(x[p1 + 13] == '"' && x[p1 + 16] == 'i' && x[p1 + 17] == 's' && x[p1 + 19] == '<' && x[p1
        + 20] == 't' && x[p1 + 21] == '>');
    assert(x[p3 + 0] == '<' && x[p3 + 1] == '/' && x[p3 + 2] == 't' && x[p3 + 3] == '>');
    assert(x[p3 + 4] == '<' && x[p3 + 5] == '/' && x[p3 + 6] == 'i' && x[p3 + 7] == 's' && x[p3 + 8]
        == '>');
    assert(x[p3 + 9] == '<' && x[p3 + 10] == '/' && x[p3 + 11] == 'c' && x[p3 + 12] == '>');
    assert(occurs_at(x, "<c"@, 0));
    assert(occurs_at(x, "</c>"@, x.len() - 4));
    assert forall|j: int| 0 <= j < x.len() - 4 implies !occurs_at(x, "</c>"@, j) && !occurs_at(
        x,
        "/>"@,
        j,
    ) by {
        if occurs_at(x, "</c>"@, j) {
            assert(x[j + 0] == "</c>"@[0]);
            assert(x[j + 1] == "</c>"@[1]);
            assert(x[j + 2] == "</c>"@[2]);
        }
        if occurs_at(x, "/>"@, j) {
            assert(x[j + 0] == "/>"@[0]);
            assert(x[j + 1] == "/>"@[1]);
        }
    }
    assert(!is_self_closing(x)) by {
        if is_self_closing(x) {
            assert(x[x.len() - 2 + 0] == "/>"@[0]);
        }
    }
    let mark = "t=\"inlineStr\""@;
    assert forall|k: int| 0 <= k < mark.len() implies x[p1 + 1 + k] == #[trigger] mark[k] by {
        assert(x[p1 + (1 + k)] == open[1 + k]);
    }
    assert(occurs_at(x, mark, p1 + 1));
    assert(occurs_at(x, "<t>"@, p1 + 19));
    assert forall|j: int| 0 <= j < p1 + 19 implies !occurs_at(x, "<t>"@, j) by {
        if occurs_at(x, "<t>"@, j) {
            assert(x[j + 0] == "<t>"@[0]);
            assert(x[j + 1] == "<t>"@[1]);
        }
    }
    find_from_at(x, "<t>"@, 0, p1 + 19);
    assert(occurs_at(x, "</t>"@, p3));
    assert forall|j: int| 0 <= j < p3 implies !occurs_at(x, "</t>"@, j) by {
        if occurs_at(x, "</t>"@, j) {
            assert(x[j + 0] == "</t>"@[0]);
            assert(x[j + 1] == "</t>"@[1]);
        }
    }
    find_from_at(x, "</t>"@, 0, p3);
    assert(value_range(x) == Some((p2, p3)));
    assert(x.subrange(p2, p3) == text);
}

/// The cell of a value is read back as the value was restored.
proof fn value_cell_reads(attrs: Seq<char>, value: Seq<char>, ty: ColType)
    requires
        is_quiet(attrs),
    ensures
        is_closed(value_cell(attrs, value, ty)),
        cell_value(value_cell(attrs, value, ty)) == restored(value),
        is_in_order(value_cell(attrs, value, ty)),
{
    let e = escaped(value);
    escaped_is_safe(value);
    assert(is_flat(e));
    if ty == ColType::Numeric && is_finite_number(trim(value)) {
        number_restored(value);
        number_cell_reads(attrs, e);
    } else {
        inline_cell_reads(attrs, e);
        unescaped_escaped(value);
    }
}

// ---------------------------------------------------------------------------
// Rows of cells
// ---------------------------------------------------------------------------

/// What stands in a part stands in the whole, and the other way round.
proof fn occurs_inside(pre: Seq<char>, x: Seq<char>, post: Seq<char>, pat: Seq<char>, j: int)
    requires
        0 <= j,
        j + pat.len() <= x.len(),
    ensures
        occurs_at(pre + x + post, pat, pre.len() + j) == occurs_at(x, pat, j),
{
    let s = pre + x + post;
    if occurs_at(x, pat, j) {
        assert forall|k: int| 0 <= k < pat.len() implies s[pre.len() + j + k] == #[trigger] pat[k] by {
            assert(x[j + k] == pat[k]);
        }
    }
    if occurs_at(s, pat, pre.len() + j) {
        assert forall|k: int| 0 <= k < pat.len() implies x[j + k] == #[trigger] pat[k] by {
            assert(s[pre.len() + j + k] == pat[k]);
        }
    }
}

/// A closed cell is found where it stands.
proof fn closed_cell_found(pre: Seq<char>, x: Seq<char>, post: Seq<char>)
    requires
        is_closed(x),
    ensures
        next_cell(pre + x + post, pre.len() as int) == Some(
            (pre.len() as int, (pre.len() + x.len()) as int),
        ),
        (pre + x + post).subrange(pre.len() as int, (pre.len() + x.len()) as int) == x,
{
    reveal_strlit("<c");
    reveal_strlit("<c/>");
    reveal_strlit("</c>");
    reveal_strlit("/>");
    let s = pre + x + post;
    let n = pre.len() as int;
    assert(s.subrange(n, n + x.len()) == x);
    assert(occurs_at(x, "<c"@, 0));
    occurs_inside(pre, x, post, "<c"@, 0);
    find_from_at(s, "<c"@, n, n);
    find_from_first(s, "/>"@, n);
    find_from_first(s, "</c>"@, n);
    if x == "<c/>"@ {
        assert(occurs_at(x, "/>"@, 2));
        occurs_inside(pre, x, post, "/>"@, 2);
        assert(s[n] == '<' && s[n + 1] == 'c' && s[n + 2] == '/');
        assert forall|j: int| n <= j < n + 2 implies !occurs_at(s, "/>"@, j) by {
            if occurs_at(s, "/>"@, j) {
                assert(s[j + 0] == "/>"@[0]);
            }
        }
        find_from_at(s, "/>"@, n, n + 2);
        assert forall|j: int| n <= j <= n + 2 implies !occurs_at(s, "</c>"@, j) by {
            if occurs_at(s, "</c>"@, j) {
                assert(s[j + 0] == "</c>"@[0]);
                assert(s[j + 1] == "</c>"@[1]);
            }
        }
    } else {
        let e = x.len() - 4;
        occurs_inside(pre, x, post, "</c>"@, e);
        assert forall|j: int| n <= j < n + e implies !occurs_at(s, "</c>"@, j) && !occurs_at(
            s,
            "/>"@,
            j,
        ) by {
            occurs_inside(pre, x, post, "</c>"@, j - n);
            occurs_inside(pre, x, post, "/>"@, j - n);
        }
        find_from_at(s, "</c>"@, n, n + e);
        assert(!occurs_at(s, "/>"@, n + e)) by {
            if occurs_at(s, "/>"@, n + e) {
                assert(s[n + e + 0] == "/>"@[0]);
                assert(s[n + e] == x[e]);
                assert(x[e + 0] == "</c>"@[0]);
            }
        }
    }
}

/// The values of some cells, where one of no length has none.
pub open spec fn values_of(cells: Seq<Seq<char>>) -> Seq<Seq<char>>
    decreases cells.len(),
{
    if cells.len() == 0 {
        Seq::empty()
    } else if cells.first().len() == 0 {
        values_of(cells.drop_first())
    } else {
        seq![cell_value(cells.first())] + values_of(cells.drop_first())
    }
}

/// Cells that can be read.
spec fn all_readable(cells: Seq<Seq<char>>) -> bool {
    forall|i: int|
        0 <= i < cells.len() ==> {
            let x = #[trigger] cells[i];
            x.len() == 0 || (is_closed(x) && is_in_order(x))
        }
}

/// Cells that stand in a row are read one after the other.
proof fn cells_read(pre: Seq<char>, cells: Seq<Seq<char>>, tail: Seq<char>)
    requires
        all_readable(cells),
        forall|j: int| 0 <= j ==> !occurs_at(tail, "<c"@, j),
    ensures
        cells_from(pre + cells.flatten() + tail, pre.len() as int) == values_of(cells),
        in_order_from(pre + cells.flatten() + tail, pre.len() as int),
    decreases cells.len(),
{
    reveal_strlit("<c");
    let s = pre + cells.flatten() + tail;
    let n = pre.len() as int;
    if cells.len() == 0 {
        assert(s == pre + tail);
        assert forall|j: int| n <= j implies !occurs_at(s, "<c"@, j) by {
            if occurs_at(s, "<c"@, j) {
                assert(pre + tail + Seq::<char>::empty() == s);
                occurs_inside(pre, tail, Seq::<char>::empty(), "<c"@, j - n);
            }
        }
        find_from_none(s, "<c"@, n);
    } else {
        let x = cells.first();
        let rest = cells.drop_first();
        let post = rest.flatten() + tail;
        assert(s == pre + x + post);
        assert(s == (pre + x) + rest.flatten() + tail);
        assert forall|i: int| 0 <= i < rest.len() implies {
            let y = #[trigger] rest[i];
            y.len() == 0 || (is_closed(y) && is_in_order(y))
        } by {
            assert(rest[i] == cells[i + 1]);
        }
        cells_read(pre + x, rest, tail);
        assert(x == cells[0]);
        if x.len() > 0 {
            closed_cell_found(pre, x, post);
        }
    }
}

/// The cells of a row are read one after the other.
proof fn row_reads(attrs: Seq<char>, cells: Seq<Seq<char>>)
    requires
        is_quiet(attrs),
        all_readable(cells),
    ensures
        cells_from(row_xml(attrs, cells), 0) == values_of(cells),
        in_order_from(row_xml(attrs, cells), 0),
{
    reveal_strlit("<row");
    reveal_strlit(">");
    reveal_strlit("</row>");
    reveal_strlit("<c");
    let pre = "<row"@ + attrs + ">"@;
    let tail = "</row>"@;
    let s = row_xml(attrs, cells);
    assert(s == pre + cells.flatten() + tail);
    assert forall|j: int| 0 <= j implies !occurs_at(tail, "<c"@, j) by {
        if occurs_at(tail, "<c"@, j) {
            assert(tail[j + 0] == "<c"@[0]);
            assert(tail[j + 1] == "<c"@[1]);
        }
    }
    cells_read(pre, cells, tail);
    let n = pre.len() as int;
    assert forall|j: int| 0 <= j < n implies !occurs_at(s, "<c"@, j) by {
        if occurs_at(s, "<c"@, j) {
            assert(s[j + 0] == "<c"@[0]);
            assert(s[j + 1] == "<c"@[1]);
            assert(s[j] == pre[j]);
            if j == 0 {
                assert(s[1] == pre[1]);
            } else if 4 <= j < n - 1 {
                assert(pre[j] == attrs[j - 4]);
            }
        }
    }
    find_from_first(s, "<c"@, 0);
    find_from_first(s, "<c"@, n);
    assert(find_from(s, "<c"@, 0) == find_from(s, "<c"@, n));
    assert(next_cell(s, 0) == next_cell(s, n));
}

/// What reading a streamed row gives back: one value for each field.
pub open spec fn restored_fields(record: Seq<Seq<u8>>) -> Seq<Seq<char>> {
    record.map_values(|f: Seq<u8>| restored(text_of(f)))
}

/// The empty field is restored as the empty text.
proof fn empty_field_restored()
    ensures
        text_of(Seq::<u8>::empty()) == Seq::<char>::empty(),
        restored(Seq::<char>::empty()) == Seq::<char>::empty(),
{
    assert(stripped(Seq::<char>::empty()) == Seq::<char>::empty());
}

/// Cells that all hold something have one value each.
proof fn values_of_full(cells: Seq<Seq<char>>)
    requires
        forall|i: int| 0 <= i < cells.len() ==> (#[trigger] cells[i]).len() > 0,
    ensures
        values_of(cells) == cells.map_values(|x: Seq<char>| cell_value(x)),
    decreases cells.len(),
{
    let f = |x: Seq<char>| cell_value(x);
    if cells.len() > 0 {
        let rest = cells.drop_first();
        assert forall|i: int| 0 <= i < rest.len() implies (#[trigger] rest[i]).len() > 0 by {
            assert(rest[i] == cells[i + 1]);
        }
        values_of_full(rest);
        assert(cells[0].len() > 0);
        assert(cells.map_values(f) == seq![cell_value(cells[0])] + rest.map_values(f));
    } else {
        assert(cells.map_values(f) == Seq::<Seq<char>>::empty());
    }
}

/// Law: a streamed row is read back field by field, in order, as many fields as the
/// record has; and it can be read.
pub proof fn streamed_row_reads_back(record: Seq<Seq<u8>>, types: Seq<ColType>)
    ensures
        in_order_from(pipe_row(record, types), 0),
        cells_from(pipe_row(record, types), 0) == restored_fields(record),
{
    reveal_strlit("<c/>");
    let cells = pipe_cells(record, types);
    assert forall|i: int| 0 <= i < cells.len() implies {
        let x = #[trigger] cells[i];
        x.len() > 0 && is_closed(x) && is_in_order(x) && cell_value(x) == restored(
            text_of(record[i]),
        )
    } by {
        if record[i].len() == 0 {
            empty_cell_reads();
            empty_field_restored();
            assert(record[i] == Seq::<u8>::empty());
        } else {
            value_cell_reads(Seq::empty(), text_of(record[i]), types[i]);
            reveal_strlit("<c");
        }
    }
    row_reads(Seq::empty(), cells);
    values_of_full(cells);
    assert(values_of(cells) == restored_fields(record));
}

/// What reading a merged row gives back: its fields without the white space around
/// them, save those that hold nothing else.
pub open spec fn restored_values(row: Seq<Seq<char>>) -> Seq<Seq<char>>
    decreases row.len(),
{
    if row.len() == 0 {
        Seq::empty()
    } else if trim(row.first()).len() == 0 {
        restored_values(row.drop_first())
    } else {
        seq![restored(trim(row.first()))] + restored_values(row.drop_first())
    }
}

/// A decimal numeral is made of digits.
pub proof fn decimal_chars(n: nat)
    ensures
        forall|i: int| 0 <= i < decimal(n).len() ==> '0' <= #[trigger] decimal(n)[i] <= '9',
    decreases n,
{
    if n >= 10 {
        decimal_chars(n / 10);
        let front = decimal(n / 10);
        assert forall|i: int| 0 <= i < decimal(n).len() implies '0' <= #[trigger] decimal(n)[i]
            <= '9' by {
            if i < front.len() {
                assert(decimal(n)[i] == front[i]);
            }
        }
    }
}

/// References do not disturb reading.
proof fn refs_are_quiet(letters: Seq<char>, n: nat)
    requires
        is_col_name(letters),
    ensures
        is_quiet(cell_ref(letters, n)),
        is_quiet(row_ref(n)),
{
    reveal_strlit(" r=\"");
    reveal_strlit("\"");
    decimal_chars(n);
    let d = decimal(n);
    let a = cell_ref(letters, n);
    assert forall|i: int| 0 <= i < a.len() implies {
        let c = #[trigger] a[i];
        c != '<' && c != '>' && c != '/' && c != 't'
    } by {
        if i < 4 {
        } else if i < 4 + letters.len() {
            assert(a[i] == letters[i - 4]);
        } else if i < 4 + letters.len() + d.len() {
            assert(a[i] == d[i - 4 - letters.len()]);
        }
    }
    let b = row_ref(n);
    assert forall|i: int| 0 <= i < b.len() implies {
        let c = #[trigger] b[i];
        c != '<' && c != '>' && c != '/' && c != 't'
    } by {
        if i < 4 {
        } else if i < 4 + d.len() {
            assert(b[i] == d[i - 4]);
        }
    }
}

proof fn merge_values_read(cells: Seq<Seq<char>>, row: Seq<Seq<char>>)
    requires
        cells.len() == row.len(),
        forall|i: int|
            0 <= i < cells.len() ==> {
                let x = #[trigger] cells[i];
                if trim(row[i]).len() == 0 {
                    x.len() == 0
                } else {
                    x.len() > 0 && cell_value(x) == restored(trim(row[i]))
                }
            },
    ensures
        values_of(cells) == restored_values(row),
    decreases cells.len(),
{
    if cells.len() > 0 {
        let cs = cells.drop_first();
        let rs = row.drop_first();
        assert forall|i: int| 0 <= i < cs.len() implies {
            let x = #[trigger] cs[i];
            if trim(rs[i]).len() == 0 {
                x.len() == 0
            } else {
                x.len() > 0 && cell_value(x) == restored(trim(rs[i]))
            }
        } by {
            assert(cs[i] == cells[i + 1]);
        }
        merge_values_read(cs, rs);
        assert(cells[0] == cells.first());
    }
}

/// Law: a merged row is read back as its fields without the white space around them, in
/// order, save those that hold nothing else; and it can be read.
pub proof fn merged_row_reads_back(
    row: Seq<Seq<char>>,
    letters: Seq<Seq<char>>,
    types: Seq<ColType>,
    number: nat,
)
    requires
        forall|c: int| 0 <= c < row.len() ==> is_col_name(#[trigger] letters[c]),
    ensures
        in_order_from(merge_row(row, letters, types, number), 0),
        cells_from(merge_row(row, letters, types, number), 0) == restored_values(row),
{
    let cells = merge_cells(row, letters, types, number);
    refs_are_quiet(seq!['A'], number);
    assert forall|i: int| 0 <= i < cells.len() implies {
        let x = #[trigger] cells[i];
        if trim(row[i]).len() == 0 {
            x.len() == 0
        } else {
            x.len() > 0 && is_closed(x) && is_in_order(x) && cell_value(x) == restored(
                trim(row[i]),
            )
        }
    } by {
        if trim(row[i]).len() > 0 {
            assert(is_col_name(letters[i]));
            refs_are_quiet(letters[i], number);
            value_cell_reads(cell_ref(letters[i], number), trim(row[i]), types[i]);
            reveal_strlit("<c");
        }
    }
    row_reads(row_ref(number), cells);
    merge_values_read(cells, row);
}

// ---------------------------------------------------------------------------
// Sheets of rows
// ---------------------------------------------------------------------------

/// A text in which no closing tag of a row starts.
spec fn is_tame(s: Seq<char>) -> bool {
    forall|j: int|
        0 <= j < s.len() && #[trigger] s[j] == '<' ==> j + 2 < s.len() && !(s[j + 1] == '/' && s[j
            + 2] == 'r')
}

proof fn tame_concat(a: Seq<char>, b: Seq<char>)
    requires
        is_tame(a),
        is_tame(b),
    ensures
        is_tame(a + b),
{
    let s = a + b;
    assert forall|j: int| 0 <= j < s.len() && #[trigger] s[j] == '<' implies j + 2 < s.len() && !(
    s[j + 1] == '/' && s[j + 2] == 'r') by {
        if j < a.len() {
            assert(a[j] == '<');
        } else {
            assert(b[j - a.len()] == '<');
        }
    }
}

proof fn tame_flatten(parts: Seq<Seq<char>>)
    requires
        forall|i: int| 0 <= i < parts.len() ==> is_tame(#[trigger] parts[i]),
    ensures
        is_tame(parts.flatten()),
    decreases parts.len(),
{
    if parts.len() > 0 {
        let rest = parts.drop_first();
        assert forall|i: int| 0 <= i < rest.len() implies is_tame(#[trigger] rest[i]) by {
            assert(rest[i] == parts[i + 1]);
        }
        tame_flatten(rest);
        assert(is_tame(parts[0]));
        tame_concat(parts.first(), rest.flatten());
    }
}

/// Cells are tame.
proof fn cells_are_tame(attrs: Seq<char>, text: Seq<char>)
    requires
        is_quiet(attrs),
        is_flat(text),
    ensures
        is_tame(number_cell(attrs, text)),
        is_tame(inline_cell(attrs, text)),
        is_tame("<c/>"@),
{
    reveal_strlit("<c");
    reveal_strlit("<c/>");
    reveal_strlit("><v>");
    reveal_strlit("</v></c>");
    reveal_strlit(" t=\"inlineStr\"><is><t>");
    reveal_strlit("</t></is></c>");
    let x = number_cell(attrs, text);
    let p1: int = 2 + attrs.len() as int;
    let p2 = p1 + 4;
    let p3: int = p2 + text.len();
    assert forall|j: int| 0 <= j < x.len() && #[trigger] x[j] == '<' implies j + 2 < x.len() && !(
    x[j + 1] == '/' && x[j + 2] == 'r') by {
        if j < 2 {
        } else if j < p1 {
            assert(x[j] == attrs[j - 2]);
        } else if j < p2 {
            assert(x[j] == "><v>"@[j - p1]);
            assert(x[p1 + 2] == 'v');
        } else if j < p3 {
            assert(x[j] == text[j - p2]);
        } else {
            assert(x[j] == "</v></c>"@[j - p3]);
            assert(x[p3 + 2] == 'v' && x[p3 + 6] == 'c');
        }
    }
    let y = inline_cell(attrs, text);
    let open = " t=\"inlineStr\"><is><t>"@;
    let close = "</t></is></c>"@;
    let q2 = p1 + 22;
    let q3: int = q2 + text.len();
    assert forall|j: int| 0 <= j < y.len() && #[trigger] y[j] == '<' implies j + 2 < y.len() && !(
    y[j + 1] == '/' && y[j + 2] == 'r') by {
        if j < 2 {
        } else if j < p1 {
            assert(y[j] == attrs[j - 2]);
        } else if j < q2 {
            assert(y[j] == open[j - p1]);
            assert(y[p1 + 16] == 'i' && y[p1 + 20] == 't');
        } else if j < q3 {
            assert(y[j] == text[j - q2]);
        } else {
            assert(y[j] == close[j - q3]);
            assert(y[q3 + 2] == 't' && y[q3 + 6] == 'i' && y[q3 + 11] == 'c');
        }
    }
}

/// A row that starts with its opening tag and ends at its first closing tag, at its own end.
#[verifier::opaque]
spec fn is_whole_row(x: Seq<char>) -> bool {
    &&& occurs_at(x, "<row>"@, 0)
    &&& occurs_at(x, "</row>"@, x.len() - 6)
    &&& forall|j: int| 0 <= j < x.len() - 6 ==> !occurs_at(x, "</row>"@, j)
}

/// A row of tame cells is whole.
proof fn row_is_whole(cells: Seq<Seq<char>>)
    requires
        forall|i: int| 0 <= i < cells.len() ==> is_tame(#[trigger] cells[i]),
    ensures
        is_whole_row(row_xml(Seq::empty(), cells)),
{
    reveal_strlit("<row");
    reveal_strlit(">");
    reveal_strlit("<row>");
    reveal_strlit("</row>");
    reveal(is_whole_row);
    let flat = cells.flatten();
    let x = row_xml(Seq::empty(), cells);
    tame_flatten(cells);
    assert(x == "<row>"@ + flat + "</row>"@);
    assert(x.len() == flat.len() + 11);
    assert(occurs_at(x, "<row>"@, 0));
    assert(occurs_at(x, "</row>"@, x.len() - 6));
    assert forall|j: int| 0 <= j < x.len() - 6 implies !occurs_at(x, "</row>"@, j) by {
        if occurs_at(x, "</row>"@, j) {
            assert(x[j + 0] == "</row>"@[0]);
            assert(x[j + 1] == "</row>"@[1]);
            assert(x[j + 2] == "</row>"@[2]);
            if j >= 5 {
                assert(flat[j - 5] == '<');
                assert(x[j + 1] == flat[j - 5 + 1]);
                assert(x[j + 2] == flat[j - 5 + 2]);
            }
        }
    }
}

/// Whole rows that stand in a sheet are found one after the other.
proof fn rows_read(pre: Seq<char>, rows: Seq<Seq<char>>, tail: Seq<char>)
    requires
        forall|i: int| 0 <= i < rows.len() ==> is_whole_row(#[trigger] rows[i]),
        forall|j: int| 0 <= j ==> !occurs_at(tail, "<row>"@, j),
    ensures
        rows_from(pre + rows.flatten() + tail, pre.len() as int) == rows,
    decreases rows.len(),
{
    reveal_strlit("<row>");
    reveal_strlit("</row>");
    let s = pre + rows.flatten() + tail;
    let n = pre.len() as int;
    if rows.len() == 0 {
        assert(s == pre + tail);
        assert forall|j: int| n <= j implies !occurs_at(s, "<row>"@, j) by {
            if occurs_at(s, "<row>"@, j) {
                assert(pre + tail + Seq::<char>::empty() == s);
                occurs_inside(pre, tail, Seq::<char>::empty(), "<row>"@, j - n);
            }
        }
        find_from_none(s, "<row>"@, n);
    } else {
        let x = rows.first();
        let rest = rows.drop_first();
        let post = rest.flatten() + tail;
        assert(s == pre + x + post);
        assert(s == (pre + x) + rest.flatten() + tail);
        assert forall|i: int| 0 <= i < rest.len() implies is_whole_row(#[trigger] rest[i]) by {
            assert(rest[i] == rows[i + 1]);
        }
        rows_read(pre + x, rest, tail);
        assert(is_whole_row(rows[0]));
        reveal(is_whole_row);
        occurs_inside(pre, x, post, "<row>"@, 0);
        find_from_at(s, "<row>"@, n, n);
        let e = x.len() - 6;
        occurs_inside(pre, x, post, "</row>"@, e);
        assert forall|j: int| n <= j < n + e implies !occurs_at(s, "</row>"@, j) by {
            occurs_inside(pre, x, post, "</row>"@, j - n);
        }
        find_from_at(s, "</row>"@, n, n + e);
        assert(s.subrange(n, n + x.len()) == x);
        assert(rows == seq![x] + rest);
    }
}

/// A streamed sheet: its header, its rows and what closes it.
pub open spec fn pipe_sheet(
    names: Seq<Seq<char>>,
    records: Seq<Seq<Seq<u8>>>,
    types: Seq<ColType>,
) -> Seq<char> {
    sheet_head(Seq::empty(), names) + pipe_rows(records, types) + SHEET_CLOSE@
}

/// The header row of a streamed sheet is whole.
proof fn header_row_is_whole(names: Seq<Seq<char>>)
    ensures
        is_whole_row(header_row(Seq::empty(), names)),
{
    let cells = Seq::new(names.len(), |c: int| header_cell(names[c], c as nat));
    assert forall|c: int| 0 <= c < cells.len() implies is_tame(#[trigger] cells[c]) by {
        col_name_number(c as nat);
        refs_are_quiet(col_name(c as nat), 1);
        escaped_is_safe(names[c]);
        cells_are_tame(cell_ref(col_name(c as nat), 1), escaped(names[c]));
    }
    row_is_whole(cells);
}

/// A streamed row is whole.
proof fn pipe_row_is_whole(record: Seq<Seq<u8>>, types: Seq<ColType>)
    ensures
        is_whole_row(pipe_row(record, types)),
{
    let cells = pipe_cells(record, types);
    assert forall|c: int| 0 <= c < cells.len() implies is_tame(#[trigger] cells[c]) by {
        escaped_is_safe(text_of(record[c]));
        cells_are_tame(Seq::empty(), escaped(text_of(record[c])));
    }
    row_is_whole(cells);
}

/// Whole rows between what opens and what closes a sheet are its rows.
proof fn framed_rows_read(rows: Seq<Seq<char>>)
    requires
        forall|i: int| 0 <= i < rows.len() ==> is_whole_row(#[trigger] rows[i]),
    ensures
        rows_from(SHEET_OPEN@ + rows.flatten() + SHEET_CLOSE@, 0) == rows,
{
    let pre = SHEET_OPEN@;
    let s = pre + rows.flatten() + SHEET_CLOSE@;
    let n = pre.len() as int;
    frame_has_no_rows();
    rows_read(pre, rows, SHEET_CLOSE@);
    reveal_strlit("<row>");
    assert forall|j: int| 0 <= j < n implies !occurs_at(s, "<row>"@, j) by {
        if occurs_at(s, "<row>"@, j) {
            assert(s[j + 0] == "<row>"@[0]);
            assert(s[j + 1] == "<row>"@[1]);
            assert(s[j] == pre[j]);
            assert(s[j + 1] == pre[j + 1]);
        }
    }
    find_from_first(s, "<row>"@, 0);
    find_from_first(s, "<row>"@, n);
    assert(find_from(s, "<row>"@, 0) == find_from(s, "<row>"@, n));
    assert(next_row(s, 0) == next_row(s, n));
}

/// Law: the rows of a streamed sheet are its header row and the rows of its records, in order.
pub proof fn streamed_sheet_reads_back(
    names: Seq<Seq<char>>,
    records: Seq<Seq<Seq<u8>>>,
    types: Seq<ColType>,
)
    ensures
        rows_from(pipe_sheet(names, records, types), 0) == seq![header_row(Seq::empty(), names)]
            + records.map_values(|r: Seq<Seq<u8>>| pipe_row(r, types)),
{
    let header = header_row(Seq::empty(), names);
    let data = records.map_values(|r: Seq<Seq<u8>>| pipe_row(r, types));
    let rows = seq![header] + data;
    header_row_is_whole(names);
    assert forall|i: int| 0 <= i < rows.len() implies is_whole_row(#[trigger] rows[i]) by {
        if i > 0 {
            assert(rows[i] == pipe_row(records[i - 1], types));
            pipe_row_is_whole(records[i - 1], types);
        }
    }
    framed_rows_read(rows);
    assert(rows.drop_first() == data);
    assert(rows.first() == header);
    assert(pipe_sheet(names, records, types) == SHEET_OPEN@ + rows.flatten() + SHEET_CLOSE@);
}

/// No row starts in what stands before and behind the rows of a sheet.
proof fn frame_has_no_rows()
    ensures
        forall|j: int|
            0 <= j < SHEET_OPEN@.len() && #[trigger] SHEET_OPEN@[j] == '<' ==> j + 1
                < SHEET_OPEN@.len() && SHEET_OPEN@[j + 1] != 'r',
        forall|j: int| 0 <= j ==> !occurs_at(SHEET_CLOSE@, "<row>"@, j),
{
    reveal_strlit("<?xml version=\"1.0\" encoding=\"UTF-8\" standalone=\"yes\"?>\n<worksheet xmlns=\"http://schemas.openxmlformats.org/spreadsheetml/2006/main\"><sheetData>");
    reveal_strlit("</sheetData></worksheet>");
    reveal_strlit("<row>");
    assert forall|j: int| 0 <= j implies !occurs_at(SHEET_CLOSE@, "<row>"@, j) by {
        if occurs_at(SHEET_CLOSE@, "<row>"@, j) {
            assert(SHEET_CLOSE@[j + 0] == "<row>"@[0]);
            assert(SHEET_CLOSE@[j + 1] == "<row>"@[1]);
        }
    }
}

} // verus!
