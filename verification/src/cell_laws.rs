//! What stands in cells, rows and headers, said in the characters that are written.

use vstd::prelude::*;
use crate::columns::{col_name, col_name_number, col_names, ColType};
use crate::column_laws::columns_are_counted;
use crate::number::{finite_number_chars, is_finite_number, is_number_char};
use crate::number_laws::sign_does_not_matter;
use crate::render::{
    merge_cell, merge_cells, merge_row, merge_rows, pipe_cell, pipe_cells, pipe_row, pipe_rows,
    row_ref, row_xml, value_cell,
};
use crate::text::{decimal, text_of, trim, trim_end, trim_start};
use crate::text_laws::decimal_has_value;
use crate::workbook::{header_cell, header_row, sheet_head};
use crate::xml::{escaped, escaped_concat};

verus! {

broadcast use vstd::string::group_string_axioms;

// ---------------------------------------------------------------------------
// Escaping
// ---------------------------------------------------------------------------

/// Law: a character is written as its entity where it is `&`, `<`, `>` or `"`, not at all where
/// it is a control character other than tab, line feed and carriage return, and else as it is.
pub proof fn character_is_written(c: char)
    ensures
        escaped(seq![c]) == if c == '&' {
            "&amp;"@
        } else if c == '<' {
            "&lt;"@
        } else if c == '>' {
            "&gt;"@
        } else if c == '"' {
            "&quot;"@
        } else if (c as int) < 32 && c as int != 9 && c as int != 10 && c as int != 13 {
            Seq::empty()
        } else {
            seq![c]
        },
{
    assert(seq![c].drop_first() == Seq::<char>::empty());
    assert(escaped(seq![c].drop_first()) == Seq::<char>::empty());
    assert(escaped(seq![c]) == crate::xml::escaped_char(c));
}

/// Law: a text is written character by character, in order.
pub proof fn text_is_written_in_order(a: Seq<char>, b: Seq<char>)
    ensures
        escaped(Seq::empty()) == Seq::<char>::empty(),
        escaped(a + b) == escaped(a) + escaped(b),
{
    escaped_concat(a, b);
}

/// A text without reserved and illegal characters is written as it is.
proof fn plain_is_written(s: Seq<char>)
    requires
        forall|i: int| 0 <= i < s.len() ==> is_number_char(#[trigger] s[i]),
    ensures
        escaped(s) == s,
    decreases s.len(),
{
    if s.len() > 0 {
        let t = s.drop_first();
        assert forall|i: int| 0 <= i < t.len() implies is_number_char(#[trigger] t[i]) by {
            assert(t[i] == s[i + 1]);
        }
        plain_is_written(t);
        assert(is_number_char(s[0]));
        assert(s == seq![s[0]] + t);
    }
}

/// A text without white space is its own trimmed text.
proof fn dense_is_trimmed(s: Seq<char>)
    requires
        forall|i: int| 0 <= i < s.len() ==> is_number_char(#[trigger] s[i]),
    ensures
        trim(s) == s,
{
    if s.len() > 0 {
        assert(is_number_char(s[0]));
        assert(is_number_char(s[s.len() - 1]));
        assert(trim_start(s) == s);
        assert(trim_end(s) == s);
    }
}

// ---------------------------------------------------------------------------
// Cells
// ---------------------------------------------------------------------------

/// Law: in a numeric column a value whose trimmed text is a finite number is written as a
/// number, whatever its sign, and not as text.
pub proof fn finite_values_are_numbers(attrs: Seq<char>, value: Seq<char>)
    requires
        is_finite_number(trim(value)),
    ensures
        value_cell(attrs, value, ColType::Numeric) == "<c"@ + attrs + "><v>"@ + escaped(value)
            + "</v></c>"@,
{
}

/// Law: a value of a text column, and one whose trimmed text is no finite number, is written
/// as inline text, and not as a number.
pub proof fn other_values_are_text(attrs: Seq<char>, value: Seq<char>, ty: ColType)
    requires
        ty == ColType::Text || !is_finite_number(trim(value)),
    ensures
        value_cell(attrs, value, ty) == "<c"@ + attrs + " t=\"inlineStr\"><is><t>"@ + escaped(value)
            + "</t></is></c>"@,
{
}

/// Law: a finite number is written digit for digit, and so is its opposite.
pub proof fn numbers_are_written_as_they_are(attrs: Seq<char>, number: Seq<char>)
    requires
        is_finite_number(number),
    ensures
        value_cell(attrs, number, ColType::Numeric) == "<c"@ + attrs + "><v>"@ + number
            + "</v></c>"@,
        number[0] != '+' && number[0] != '-' ==> value_cell(
            attrs,
            seq!['-'] + number,
            ColType::Numeric,
        ) == "<c"@ + attrs + "><v>"@ + (seq!['-'] + number) + "</v></c>"@,
{
    finite_number_chars(number);
    plain_is_written(number);
    dense_is_trimmed(number);
    if number[0] != '+' && number[0] != '-' {
        let m = seq!['-'] + number;
        sign_does_not_matter(number);
        finite_number_chars(m);
        plain_is_written(m);
        dense_is_trimmed(m);
    }
}

// ---------------------------------------------------------------------------
// Streamed rows
// ---------------------------------------------------------------------------

/// A row with one more cell.
proof fn row_with_cell(attrs: Seq<char>, cells: Seq<Seq<char>>, cell: Seq<char>)
    ensures
        row_xml(attrs, cells).len() >= 6,
        row_xml(attrs, cells.push(cell)) == row_xml(attrs, cells).take(
            row_xml(attrs, cells).len() - 6,
        ) + cell + "</row>"@,
{
    reveal_strlit("</row>");
    let open = "<row"@ + attrs + ">"@;
    let a = open + cells.flatten();
    cells.lemma_flatten_push(cell);
    assert(row_xml(attrs, cells) == a + "</row>"@);
    assert((a + "</row>"@).take((a + "</row>"@).len() - 6) == a);
    assert(row_xml(attrs, cells.push(cell)) == a + cell + "</row>"@);
}

/// Law: the row of a record has a cell for each field, in order: one more field is one more
/// cell in front of the end of the row. An empty field is an empty cell; any other is the cell of
/// its text.
pub proof fn field_becomes_cell(record: Seq<Seq<u8>>, field: Seq<u8>, types: Seq<ColType>)
    ensures
        pipe_row(Seq::empty(), types) == "<row>"@ + "</row>"@,
        pipe_row(record, types).len() >= 6,
        pipe_row(record.push(field), types) == pipe_row(record, types).take(
            pipe_row(record, types).len() - 6,
        ) + (if field.len() == 0 {
            "<c/>"@
        } else {
            value_cell(Seq::empty(), text_of(field), types[record.len() as int])
        }) + "</row>"@,
{
    let cells = pipe_cells(record, types);
    let cell = pipe_cell(field, types[record.len() as int]);
    assert(pipe_cells(record.push(field), types) == cells.push(cell));
    row_with_cell(Seq::empty(), cells, cell);
    let none: Seq<Seq<u8>> = Seq::empty();
    assert(pipe_cells(none, types) == Seq::<Seq<char>>::empty());
    reveal_strlit("<row");
    reveal_strlit(">");
    reveal_strlit("<row>");
    assert(pipe_row(none, types) == "<row>"@ + "</row>"@);
}

/// Law: every record becomes one row, in order.
pub proof fn record_becomes_row(
    records: Seq<Seq<Seq<u8>>>,
    record: Seq<Seq<u8>>,
    types: Seq<ColType>,
)
    ensures
        pipe_rows(Seq::empty(), types) == Seq::<char>::empty(),
        pipe_rows(records.push(record), types) == pipe_rows(records, types) + pipe_row(
            record,
            types,
        ),
{
    let f = |r: Seq<Seq<u8>>| pipe_row(r, types);
    let none: Seq<Seq<Seq<u8>>> = Seq::empty();
    assert(none.map_values(f) == Seq::<Seq<char>>::empty());
    assert(records.push(record).map_values(f) == records.map_values(f).push(f(record)));
    records.map_values(f).lemma_flatten_push(f(record));
}

// ---------------------------------------------------------------------------
// Merged rows
// ---------------------------------------------------------------------------

/// Law: a merged row starts with its number, and has a cell for each field that holds more
/// than white space, in order: one more such field is one more cell, of its trimmed text, with the
/// letters of the field's own column and the number of the row; one more field of white space
/// changes nothing.
pub proof fn value_becomes_cell(
    row: Seq<Seq<char>>,
    field: Seq<char>,
    letters: Seq<Seq<char>>,
    types: Seq<ColType>,
    number: nat,
)
    ensures
        merge_row(Seq::empty(), letters, types, number) == "<row r=\""@ + decimal(number) + "\">"@
            + "</row>"@,
        merge_row(row, letters, types, number).len() >= 6,
        trim(field).len() == 0 ==> merge_row(row.push(field), letters, types, number) == merge_row(
            row,
            letters,
            types,
            number,
        ),
        trim(field).len() > 0 ==> merge_row(row.push(field), letters, types, number) == merge_row(
            row,
            letters,
            types,
            number,
        ).take(merge_row(row, letters, types, number).len() - 6) + value_cell(
            " r=\""@ + letters[row.len() as int] + decimal(number) + "\""@,
            trim(field),
            types[row.len() as int],
        ) + "</row>"@,
{
    let cells = merge_cells(row, letters, types, number);
    let cell = merge_cell(field, letters[row.len() as int], types[row.len() as int], number);
    assert(merge_cells(row.push(field), letters, types, number) == cells.push(cell));
    row_with_cell(row_ref(number), cells, cell);
    cells.lemma_flatten_push(cell);
    if trim(field).len() == 0 {
        assert(cells.flatten() + cell == cells.flatten());
    }
    let none: Seq<Seq<char>> = Seq::empty();
    assert(merge_cells(none, letters, types, number) == Seq::<Seq<char>>::empty());
    reveal_strlit("<row");
    reveal_strlit(" r=\"");
    reveal_strlit("\"");
    reveal_strlit(">");
    reveal_strlit("<row r=\"");
    reveal_strlit("\">");
    assert(merge_row(none, letters, types, number) == "<row r=\""@ + decimal(number) + "\">"@
        + "</row>"@);
}

/// Law: the cell of field `c` of a merged row refers to column `c`: its letters, counted in
/// base 26 with `A` as 1, have the value `c + 1`, and the number of the row follows them.
pub proof fn cell_refers_to_its_column(
    row: Seq<Seq<char>>,
    types: Seq<ColType>,
    n: nat,
    number: nat,
    c: int,
)
    requires
        0 <= c < row.len() <= n,
        trim(row[c]).len() > 0,
    ensures
        exists|name: Seq<char>|
            {
                &&& name.len() > 0
                &&& forall|k: int| 0 <= k < name.len() ==> 'A' <= #[trigger] name[k] <= 'Z'
                &&& name.fold_left(0int, |v: int, x: char| v * 26 + (x as int - 'A' as int + 1)) == c
                    + 1
                &&& merge_row(row.take(c + 1), col_names(n), types, number) == merge_row(
                    row.take(c),
                    col_names(n),
                    types,
                    number,
                ).take(merge_row(row.take(c), col_names(n), types, number).len() - 6)
                    + #[trigger] value_cell(
                    " r=\""@ + name + decimal(number) + "\""@,
                    trim(row[c]),
                    types[c],
                ) + "</row>"@
            },
{
    let letters = col_names(n);
    let name = letters[c];
    columns_are_counted(n, c);
    assert(row.take(c + 1) == row.take(c).push(row[c]));
    value_becomes_cell(row.take(c), row[c], letters, types, number);
    assert(merge_row(row.take(c + 1), letters, types, number) == merge_row(
        row.take(c),
        letters,
        types,
        number,
    ).take(merge_row(row.take(c), letters, types, number).len() - 6) + value_cell(
        " r=\""@ + name + decimal(number) + "\""@,
        trim(row[c]),
        types[c],
    ) + "</row>"@);
}

/// Law: fields that are added to a row leave the cells before them as they are.
pub proof fn later_fields_leave_earlier_cells(
    row: Seq<Seq<char>>,
    letters: Seq<Seq<char>>,
    types: Seq<ColType>,
    number: nat,
    c: int,
)
    requires
        0 <= c <= row.len(),
    ensures
        ({
            let early = merge_row(row.take(c), letters, types, number);
            let all = merge_row(row, letters, types, number);
            &&& 6 <= early.len() <= all.len()
            &&& all.take(early.len() - 6) == early.take(early.len() - 6)
        }),
    decreases row.len(),
{
    let early = merge_row(row.take(c), letters, types, number);
    let all = merge_row(row, letters, types, number);
    reveal_strlit("</row>");
    if c == row.len() {
        assert(row.take(c) == row);
        value_becomes_cell(row, Seq::empty(), letters, types, number);
    } else {
        let front = row.drop_last();
        later_fields_leave_earlier_cells(front, letters, types, number, c);
        assert(front.take(c) == row.take(c));
        assert(row == front.push(row.last()));
        value_becomes_cell(front, row.last(), letters, types, number);
        let mid = merge_row(front, letters, types, number);
        if trim(row.last()).len() > 0 {
            assert(all.take(mid.len() - 6) == mid.take(mid.len() - 6));
            assert(all.take(early.len() - 6) == mid.take(early.len() - 6));
        }
    }
}

/// Law: no two cells of a sheet have the same reference.
pub proof fn references_differ(a: nat, n: nat, b: nat, m: nat)
    requires
        a != b || n != m,
    ensures
        " r=\""@ + col_name(a) + decimal(n) + "\""@ != " r=\""@ + col_name(b) + decimal(m) + "\""@,
{
    reveal_strlit(" r=\"");
    reveal_strlit("\"");
    let x = col_name(a);
    let y = col_name(b);
    let s = " r=\""@ + x + decimal(n) + "\""@;
    let t = " r=\""@ + y + decimal(m) + "\""@;
    col_name_number(a);
    col_name_number(b);
    decimal_has_value(n);
    decimal_has_value(m);
    if s == t {
        if x.len() < y.len() {
            assert(s[4int + x.len()] == decimal(n)[0]);
            assert(t[4int + x.len()] == y[x.len() as int]);
        }
        if y.len() < x.len() {
            assert(t[4int + y.len()] == decimal(m)[0]);
            assert(s[4int + y.len()] == x[y.len() as int]);
        }
        assert(s.subrange(4, 4int + x.len()) == x);
        assert(t.subrange(4, 4int + y.len()) == y);
        assert(s.subrange(4int + x.len(), s.len() - 1) == decimal(n));
        assert(t.subrange(4int + y.len(), t.len() - 1) == decimal(m));
    }
}

/// Law: every merged row stands in the sheet once, in order, with the next number.
pub proof fn rows_are_numbered(
    rows: Seq<Seq<Seq<char>>>,
    row: Seq<Seq<char>>,
    letters: Seq<Seq<char>>,
    types: Seq<ColType>,
    start: nat,
)
    ensures
        merge_rows(Seq::empty(), letters, types, start) == Seq::<char>::empty(),
        merge_rows(rows.push(row), letters, types, start) == merge_rows(rows, letters, types, start)
            + merge_row(row, letters, types, start + rows.len()),
{
    let none: Seq<Seq<Seq<char>>> = Seq::empty();
    assert(Seq::new(
        none.len(),
        |r: int| merge_row(none[r], letters, types, (start + r) as nat),
    ) == Seq::<Seq<char>>::empty());
    let parts = Seq::new(
        rows.len(),
        |r: int| merge_row(rows[r], letters, types, (start + r) as nat),
    );
    let all = rows.push(row);
    let more = Seq::new(
        all.len(),
        |r: int| merge_row(all[r], letters, types, (start + r) as nat),
    );
    let last = merge_row(row, letters, types, start + rows.len());
    assert(more == parts.push(last));
    parts.lemma_flatten_push(last);
}

// ---------------------------------------------------------------------------
// Headers
// ---------------------------------------------------------------------------

/// Law: the header row has a text cell for each name, in order, in row 1: one more name is one
/// more cell, with the letters of the next column.
pub proof fn name_becomes_cell(attrs: Seq<char>, names: Seq<Seq<char>>, name: Seq<char>)
    ensures
        header_row(attrs, Seq::empty()) == "<row"@ + attrs + ">"@ + "</row>"@,
        header_row(attrs, names).len() >= 6,
        header_row(attrs, names.push(name)) == header_row(attrs, names).take(
            header_row(attrs, names).len() - 6,
        ) + ("<c"@ + (" r=\""@ + col_names(names.len() + 1)[names.len() as int] + decimal(1) + "\""@)
            + " t=\"inlineStr\"><is><t>"@ + escaped(name) + "</t></is></c>"@) + "</row>"@,
{
    let cells = Seq::new(names.len(), |c: int| header_cell(names[c], c as nat));
    let all = names.push(name);
    let more = Seq::new(all.len(), |c: int| header_cell(all[c], c as nat));
    let cell = header_cell(name, names.len());
    assert(more == cells.push(cell));
    row_with_cell(attrs, cells, cell);
    let none: Seq<Seq<char>> = Seq::empty();
    assert(Seq::new(none.len(), |c: int| header_cell(none[c], c as nat)) == Seq::<
        Seq<char>,
    >::empty());
    assert("<row"@ + attrs + ">"@ + Seq::<char>::empty() == "<row"@ + attrs + ">"@);
}

/// Law: a sheet starts with the declaration, the worksheet and its data, and then the header.
pub proof fn sheet_starts_with_header(attrs: Seq<char>, names: Seq<Seq<char>>)
    ensures
        sheet_head(attrs, names)
            == "<?xml version=\"1.0\" encoding=\"UTF-8\" standalone=\"yes\"?>\n<worksheet xmlns=\"http://schemas.openxmlformats.org/spreadsheetml/2006/main\"><sheetData>"@
            + header_row(attrs, names),
{
}

} // verus!
