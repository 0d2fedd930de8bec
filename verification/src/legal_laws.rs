//! What a written sheet never holds: a character that XML does not allow, and a number
//! that is none.

use vstd::prelude::*;
use crate::columns::{col_name, col_name_number, col_names, is_col_name, ColType};
use crate::escape_laws::escaped_is_safe;
use crate::number::{finite_number_chars, is_finite_number, is_number_char};
use crate::render::{
    cell_ref, inline_cell, merge_cells, merge_row, merge_rows, number_cell, pipe_cells, pipe_row,
    pipe_rows, row_ref, row_xml, value_cell,
};
use crate::row_laws::{decimal_chars, pipe_sheet};
use crate::text::{decimal, is_white, text_of, trim, trim_keeps};
use crate::workbook::{header_cell, header_row, sheet_head, SHEET_CLOSE, SHEET_OPEN};
use crate::xml::{escaped, is_illegal};

verus! {

broadcast use vstd::string::group_string_axioms;

/// A text of characters that XML allows.
pub open spec fn is_legal(s: Seq<char>) -> bool {
    forall|i: int| 0 <= i < s.len() ==> !is_illegal(#[trigger] s[i])
}

/// Legal texts, one after the other, are a legal text.
proof fn legal_concat(a: Seq<char>, b: Seq<char>)
    requires
        is_legal(a),
        is_legal(b),
    ensures
        is_legal(a + b),
{
    assert forall|i: int| 0 <= i < (a + b).len() implies !is_illegal(#[trigger] (a + b)[i]) by {
        if i < a.len() {
            assert((a + b)[i] == a[i]);
        } else {
            assert((a + b)[i] == b[i - a.len()]);
        }
    }
}

/// Any number of legal texts, one after the other, are a legal text.
proof fn legal_flatten(parts: Seq<Seq<char>>)
    requires
        forall|i: int| 0 <= i < parts.len() ==> is_legal(#[trigger] parts[i]),
    ensures
        is_legal(parts.flatten()),
    decreases parts.len(),
{
    if parts.len() > 0 {
        let rest = parts.drop_first();
        assert forall|i: int| 0 <= i < rest.len() implies is_legal(#[trigger] rest[i]) by {
            assert(rest[i] == parts[i + 1]);
        }
        legal_flatten(rest);
        assert(parts.first() == parts[0]);
        legal_concat(parts.first(), rest.flatten());
    }
}

/// The cell of a value is legal.
proof fn legal_cells(attrs: Seq<char>, value: Seq<char>)
    requires
        is_legal(attrs),
    ensures
        is_legal(inline_cell(attrs, escaped(value))),
        is_legal(number_cell(attrs, escaped(value))),
{
    let text = escaped(value);
    reveal_strlit("<c");
    reveal_strlit(" t=\"inlineStr\"><is><t>");
    reveal_strlit("</t></is></c>");
    reveal_strlit("><v>");
    reveal_strlit("</v></c>");
    escaped_is_safe(value);
    legal_concat("<c"@, attrs);
    let start = "<c"@ + attrs;
    legal_concat(start, " t=\"inlineStr\"><is><t>"@);
    legal_concat(start + " t=\"inlineStr\"><is><t>"@, text);
    legal_concat(start + " t=\"inlineStr\"><is><t>"@ + text, "</t></is></c>"@);
    legal_concat(start, "><v>"@);
    legal_concat(start + "><v>"@, text);
    legal_concat(start + "><v>"@ + text, "</v></c>"@);
}

/// A row of legal cells is legal.
proof fn legal_row(attrs: Seq<char>, cells: Seq<Seq<char>>)
    requires
        is_legal(attrs),
        forall|i: int| 0 <= i < cells.len() ==> is_legal(#[trigger] cells[i]),
    ensures
        is_legal(row_xml(attrs, cells)),
{
    reveal_strlit("<row");
    reveal_strlit(">");
    reveal_strlit("</row>");
    legal_flatten(cells);
    legal_concat("<row"@, attrs);
    legal_concat("<row"@ + attrs, ">"@);
    legal_concat("<row"@ + attrs + ">"@, cells.flatten());
    legal_concat("<row"@ + attrs + ">"@ + cells.flatten(), "</row>"@);
}

/// References are legal.
proof fn legal_refs(letters: Seq<char>, n: nat)
    requires
        is_col_name(letters),
    ensures
        is_legal(cell_ref(letters, n)),
        is_legal(row_ref(n)),
{
    reveal_strlit(" r=\"");
    reveal_strlit("\"");
    decimal_chars(n);
    legal_concat(" r=\""@, letters);
    legal_concat(" r=\""@ + letters, decimal(n));
    legal_concat(" r=\""@ + letters + decimal(n), "\""@);
    legal_concat(" r=\""@, decimal(n));
    legal_concat(" r=\""@ + decimal(n), "\""@);
}

/// The start of a sheet is legal, whatever the names of its columns hold.
proof fn legal_head(attrs: Seq<char>, names: Seq<Seq<char>>)
    requires
        is_legal(attrs),
    ensures
        is_legal(sheet_head(attrs, names)),
        is_legal(SHEET_CLOSE@),
{
    let cells = Seq::new(names.len(), |c: int| header_cell(names[c], c as nat));
    assert forall|c: int| 0 <= c < cells.len() implies is_legal(#[trigger] cells[c]) by {
        col_name_number(c as nat);
        legal_refs(col_name(c as nat), 1);
        legal_cells(cell_ref(col_name(c as nat), 1), names[c]);
    }
    legal_row(attrs, cells);
    reveal_strlit("<?xml version=\"1.0\" encoding=\"UTF-8\" standalone=\"yes\"?>\n<worksheet xmlns=\"http://schemas.openxmlformats.org/spreadsheetml/2006/main\"><sheetData>");
    reveal_strlit("</sheetData></worksheet>");
    legal_concat(SHEET_OPEN@, header_row(attrs, names));
}

/// Law: a streamed sheet holds no character that XML does not allow, whatever its names
/// and records hold.
pub proof fn streamed_sheet_is_legal(
    names: Seq<Seq<char>>,
    records: Seq<Seq<Seq<u8>>>,
    types: Seq<ColType>,
)
    ensures
        is_legal(pipe_sheet(names, records, types)),
{
    let rows = records.map_values(|r: Seq<Seq<u8>>| pipe_row(r, types));
    reveal_strlit("<c/>");
    assert forall|i: int| 0 <= i < rows.len() implies is_legal(#[trigger] rows[i]) by {
        let cells = pipe_cells(records[i], types);
        assert forall|c: int| 0 <= c < cells.len() implies is_legal(#[trigger] cells[c]) by {
            legal_cells(Seq::empty(), text_of(records[i][c]));
        }
        legal_row(Seq::empty(), cells);
    }
    legal_flatten(rows);
    legal_head(Seq::empty(), names);
    let head = sheet_head(Seq::empty(), names);
    legal_concat(head, pipe_rows(records, types));
    legal_concat(head + pipe_rows(records, types), SHEET_CLOSE@);
}

/// Law: a merged sheet holds no character that XML does not allow, whatever its names
/// and rows hold.
pub proof fn merged_sheet_is_legal(
    names: Seq<Seq<char>>,
    rows: Seq<Seq<Seq<char>>>,
    types: Seq<ColType>,
    start: nat,
)
    requires
        forall|r: int| 0 <= r < rows.len() ==> (#[trigger] rows[r]).len() <= names.len(),
    ensures
        is_legal(
            sheet_head(row_ref(1), names) + merge_rows(rows, col_names(names.len()), types, start)
                + SHEET_CLOSE@,
        ),
{
    let letters = col_names(names.len());
    let parts = Seq::new(
        rows.len(),
        |r: int| merge_row(rows[r], letters, types, (start + r) as nat),
    );
    col_name_number(0);
    assert forall|r: int| 0 <= r < parts.len() implies is_legal(#[trigger] parts[r]) by {
        let n = (start + r) as nat;
        let row = rows[r];
        let cells = merge_cells(row, letters, types, n);
        assert forall|c: int| 0 <= c < cells.len() implies is_legal(#[trigger] cells[c]) by {
            assert(letters[c] == col_name(c as nat));
            col_name_number(c as nat);
            legal_refs(letters[c], n);
            legal_cells(cell_ref(letters[c], n), trim(row[c]));
        }
        legal_refs(col_name(0), n);
        legal_row(row_ref(n), cells);
    }
    legal_flatten(parts);
    legal_refs(col_name(0), 1);
    legal_head(row_ref(1), names);
    let head = sheet_head(row_ref(1), names);
    let data = merge_rows(rows, letters, types, start);
    legal_concat(head, data);
    legal_concat(head + data, SHEET_CLOSE@);
}

/// Law: a value that holds anything but white space, digits, signs, points and exponent marks,
/// as `NaN` and `Infinity` do, is written as text, even in a numeric column.
pub proof fn words_are_text(attrs: Seq<char>, value: Seq<char>, ty: ColType, i: int)
    requires
        0 <= i < value.len(),
        !is_white(value[i]),
        !is_number_char(value[i]),
    ensures
        value_cell(attrs, value, ty) == inline_cell(attrs, escaped(value)),
{
    if is_finite_number(trim(value)) {
        let t = trim(value);
        finite_number_chars(t);
        trim_keeps(value);
        assert(t.contains(value[i]));
        let j = choose|j: int| 0 <= j < t.len() && t[j] == value[i];
        assert(is_number_char(t[j]));
    }
}

} // verus!
