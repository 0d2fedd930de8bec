//! Writing cells and rows.
//!
//! Two layouts are written. A streamed row leaves out all references and marks an
//! empty field by an empty cell. A merged row numbers itself and its cells, so that
//! it can leave empty fields out.

use rayon::iter::{IndexedParallelIterator, ParallelIterator};
use rayon::slice::ParallelSlice;
use vstd::prelude::*;
use vstd::string::*;
use vstd::utf8::encode_utf8;
use crate::columns::ColType;
use crate::number::{is_finite_number, reads_as_finite_number};
use crate::text::{decimal, decode_field, push_decimal, text_of, trim, trim_chars, trim_text};
use crate::xml::{escape_xml, escaped};

verus! {

broadcast use vstd::string::group_string_axioms;

// ---------------------------------------------------------------------------
// Shapes
// ---------------------------------------------------------------------------

/// A cell that holds inline text.
pub open spec fn inline_cell(attrs: Seq<char>, text: Seq<char>) -> Seq<char> {
    "<c"@ + attrs + " t=\"inlineStr\"><is><t>"@ + text + "</t></is></c>"@
}

/// A cell that holds a number.
pub open spec fn number_cell(attrs: Seq<char>, text: Seq<char>) -> Seq<char> {
    "<c"@ + attrs + "><v>"@ + text + "</v></c>"@
}

/// The cell for a value: a number where the column is numeric and the value is a
/// finite number, and otherwise inline text.
pub open spec fn value_cell(attrs: Seq<char>, value: Seq<char>, ty: ColType) -> Seq<char> {
    if ty == ColType::Numeric && is_finite_number(trim(value)) {
        number_cell(attrs, escaped(value))
    } else {
        inline_cell(attrs, escaped(value))
    }
}

/// A row with the given cells.
pub open spec fn row_xml(attrs: Seq<char>, cells: Seq<Seq<char>>) -> Seq<char> {
    "<row"@ + attrs + ">"@ + cells.flatten() + "</row>"@
}

/// The attribute that refers to a cell by its column's letters and its row's number.
pub open spec fn cell_ref(letters: Seq<char>, row: nat) -> Seq<char> {
    " r=\""@ + letters + decimal(row) + "\""@
}

/// The attribute that numbers a row.
pub open spec fn row_ref(row: nat) -> Seq<char> {
    " r=\""@ + decimal(row) + "\""@
}

/// The strings of `parts` one after the other, up to and with part `i`.
proof fn flatten_step(parts: Seq<Seq<char>>, i: int)
    requires
        0 <= i < parts.len(),
    ensures
        parts.take(i + 1).flatten() == parts.take(i).flatten() + parts[i],
{
    assert(parts.take(i + 1) == parts.take(i).push(parts[i]));
    parts.take(i).lemma_flatten_push(parts[i]);
}

/// Appends the cell for a value.
fn push_value_cell(out: &mut String, attrs: &str, value: &str, ty: ColType)
    ensures
        final(out)@ == old(out)@ + value_cell(attrs@, value@, ty),
{
    let ghost start = out@;
    let number = ty == ColType::Numeric && reads_as_finite_number(&trim_chars(value));
    out.append("<c");
    out.append(attrs);
    if number {
        out.append("><v>");
        escape_xml(value, out);
        out.append("</v></c>");
    } else {
        out.append(" t=\"inlineStr\"><is><t>");
        escape_xml(value, out);
        out.append("</t></is></c>");
    }
    assert(out@ == start + value_cell(attrs@, value@, ty));
}

// ---------------------------------------------------------------------------
// Streamed rows
// ---------------------------------------------------------------------------

/// The cell of a streamed field.
pub open spec fn pipe_cell(field: Seq<u8>, ty: ColType) -> Seq<char> {
    if field.len() == 0 {
        "<c/>"@
    } else {
        value_cell(Seq::empty(), text_of(field), ty)
    }
}

/// The cells of a streamed record.
pub open spec fn pipe_cells(record: Seq<Seq<u8>>, types: Seq<ColType>) -> Seq<Seq<char>> {
    Seq::new(record.len(), |c: int| pipe_cell(record[c], types[c]))
}

/// The row of a streamed record.
pub open spec fn pipe_row(record: Seq<Seq<u8>>, types: Seq<ColType>) -> Seq<char> {
    row_xml(Seq::empty(), pipe_cells(record, types))
}

/// The rows of some streamed records.
pub open spec fn pipe_rows(records: Seq<Seq<Seq<u8>>>, types: Seq<ColType>) -> Seq<char> {
    records.map_values(|r: Seq<Seq<u8>>| pipe_row(r, types)).flatten()
}

/// A record has no value behind its last column.
pub open spec fn fits(record: Seq<Seq<u8>>, columns: nat) -> bool {
    forall|c: int| columns <= c < record.len() ==> (#[trigger] record[c]).len() == 0
}

/// Whether a record has no value behind its last column.
pub fn fits_columns(record: &Vec<Vec<u8>>, columns: usize) -> (r: bool)
    ensures
        r == fits(record.deep_view(), columns as nat),
{
    let ghost v = record.deep_view();
    for c in 0..record.len()
        invariant
            v == record.deep_view(),
            forall|j: int| columns <= j < c ==> (#[trigger] v[j]).len() == 0,
    {
        assert(v[c as int].len() == record@[c as int]@.len());
        if c >= columns && record[c].len() != 0 {
            return false;
        }
    }
    true
}

/// Appends the row of a streamed record.
pub fn push_pipe_row(out: &mut String, record: &Vec<Vec<u8>>, types: &Vec<ColType>)
    requires
        fits(record.deep_view(), types@.len()),
    ensures
        final(out)@ == old(out)@ + pipe_row(record.deep_view(), types@),
{
    let ghost start = out@;
    let ghost v = record.deep_view();
    let ghost cells = pipe_cells(v, types@);
    out.append("<row");
    out.append(">");
    let ghost opened = out@;
    assert(cells.take(0).flatten() == Seq::<char>::empty());
    for c in 0..record.len()
        invariant
            v == record.deep_view(),
            cells == pipe_cells(v, types@),
            fits(v, types@.len()),
            out@ == opened + cells.take(c as int).flatten(),
    {
        let ghost before = out@;
        assert(v[c as int] == record@[c as int].deep_view());
        assert(record@[c as int].deep_view() == record@[c as int]@);
        if record[c].len() == 0 {
            out.append("<c/>");
        } else {
            proof {
                reveal_strlit("");
            }
            assert(""@ == Seq::<char>::empty());
            push_value_cell(out, "", decode_field(record[c].as_slice()), types[c]);
        }
        proof {
            assert(out@ == before + cells[c as int]);
            flatten_step(cells, c as int);
        }
    }
    assert(cells.take(cells.len() as int) == cells);
    out.append("</row>");
    assert(out@ == start + pipe_row(v, types@));
}

// ---------------------------------------------------------------------------
// Merged rows
// ---------------------------------------------------------------------------

/// The cell of a merged field: nothing where it holds white space only.
pub open spec fn merge_cell(value: Seq<char>, letters: Seq<char>, ty: ColType, row: nat) -> Seq<char> {
    let v = trim(value);
    if v.len() == 0 {
        Seq::empty()
    } else {
        value_cell(cell_ref(letters, row), v, ty)
    }
}

/// The cells of a merged row.
pub open spec fn merge_cells(
    row: Seq<Seq<char>>,
    letters: Seq<Seq<char>>,
    types: Seq<ColType>,
    number: nat,
) -> Seq<Seq<char>> {
    Seq::new(row.len(), |c: int| merge_cell(row[c], letters[c], types[c], number))
}

/// A merged row with the given number.
pub open spec fn merge_row(
    row: Seq<Seq<char>>,
    letters: Seq<Seq<char>>,
    types: Seq<ColType>,
    number: nat,
) -> Seq<char> {
    row_xml(row_ref(number), merge_cells(row, letters, types, number))
}

/// Merged rows, numbered from `start` on.
pub open spec fn merge_rows(
    rows: Seq<Seq<Seq<char>>>,
    letters: Seq<Seq<char>>,
    types: Seq<ColType>,
    start: nat,
) -> Seq<char> {
    Seq::new(rows.len(), |r: int| merge_row(rows[r], letters, types, (start + r) as nat)).flatten()
}

/// Every field of a row that holds more than white space has a column.
pub open spec fn row_fits(row: Seq<Seq<char>>, columns: nat) -> bool {
    forall|c: int| columns <= c < row.len() ==> trim(#[trigger] row[c]).len() == 0
}

/// All rows fit the columns.
pub open spec fn rows_fit(rows: Seq<Seq<Seq<char>>>, columns: nat) -> bool {
    forall|r: int| 0 <= r < rows.len() ==> row_fits(#[trigger] rows[r], columns)
}

/// Appends a merged row.
fn push_merge_row(
    out: &mut String,
    row: &Vec<String>,
    letters: &[String],
    types: &[ColType],
    number: usize,
)
    requires
        row_fits(row.deep_view(), letters@.len()),
        row_fits(row.deep_view(), types@.len()),
    ensures
        final(out)@ == old(out)@ + merge_row(
            row.deep_view(),
            letters.deep_view(),
            types@,
            number as nat,
        ),
{
    let ghost start = out@;
    let ghost v = row.deep_view();
    let ghost l = letters.deep_view();
    let ghost cells = merge_cells(v, l, types@, number as nat);
    out.append("<row");
    out.append(" r=\"");
    push_decimal(out, number);
    out.append("\"");
    out.append(">");
    let ghost opened = out@;
    assert(opened == start + ("<row"@ + row_ref(number as nat) + ">"@));
    assert(cells.take(0).flatten() == Seq::<char>::empty());
    for c in 0..row.len()
        invariant
            v == row.deep_view(),
            l == letters.deep_view(),
            cells == merge_cells(v, l, types@, number as nat),
            row_fits(v, letters@.len()),
            row_fits(v, types@.len()),
            out@ == opened + cells.take(c as int).flatten(),
    {
        let ghost before = out@;
        assert(v[c as int] == row@[c as int]@);
        let value = trim_text(row[c].as_str());
        if value.as_str().is_empty() {
            assert(cells[c as int] == Seq::<char>::empty());
        } else {
            assert(c < letters@.len() && c < types@.len());
            assert(l[c as int] == letters@[c as int]@);
            let mut attrs = String::new();
            attrs.append(" r=\"");
            attrs.append(letters[c].as_str());
            push_decimal(&mut attrs, number);
            attrs.append("\"");
            assert(attrs@ == cell_ref(l[c as int], number as nat));
            push_value_cell(out, attrs.as_str(), value.as_str(), types[c]);
        }
        proof {
            assert(out@ == before + cells[c as int]);
            flatten_step(cells, c as int);
        }
    }
    assert(cells.take(cells.len() as int) == cells);
    out.append("</row>");
    assert(out@ == start + merge_row(v, l, types@, number as nat));
}

/// How many rows one worker renders at a time.
pub const SUB_CHUNK: usize = 10_000;

/// Rows rendered in two parts are the rows rendered at once.
pub proof fn merge_rows_split(
    rows: Seq<Seq<Seq<char>>>,
    letters: Seq<Seq<char>>,
    types: Seq<ColType>,
    start: nat,
    m: int,
)
    requires
        0 <= m <= rows.len(),
    ensures
        merge_rows(rows, letters, types, start) == merge_rows(rows.take(m), letters, types, start)
            + merge_rows(rows.skip(m), letters, types, (start + m) as nat),
{
    let all = Seq::new(rows.len(), |r: int| merge_row(rows[r], letters, types, (start + r) as nat));
    let a = Seq::new(
        rows.take(m).len(),
        |r: int| merge_row(rows.take(m)[r], letters, types, (start + r) as nat),
    );
    let b = Seq::new(
        rows.skip(m).len(),
        |r: int| merge_row(rows.skip(m)[r], letters, types, ((start + m) as nat + r) as nat),
    );
    assert(all == a + b);
    vstd::seq_lib::lemma_flatten_concat(a, b);
}

/// The rows of sub-chunk `k`, where each sub-chunk but the last holds `size` rows.
pub open spec fn sub_chunk(rows: Seq<Seq<Seq<char>>>, size: nat, k: int) -> Seq<Seq<Seq<char>>> {
    let end = (k + 1) * size;
    rows.subrange(
        k * size,
        if end < rows.len() {
            end
        } else {
            rows.len() as int
        },
    )
}

/// Renders sub-chunk `sub_idx` of some rows, of which the first has the number `start`.
fn render_sub_chunk(
    sub_idx: usize,
    sub: &[Vec<String>],
    letters: &[String],
    types: &[ColType],
    start: usize,
    size: usize,
) -> (r: String)
    requires
        rows_fit(sub.deep_view(), letters@.len()),
        rows_fit(sub.deep_view(), types@.len()),
        start + sub_idx * size + sub@.len() <= usize::MAX,
    ensures
        r@ == merge_rows(
            sub.deep_view(),
            letters.deep_view(),
            types@,
            (start + sub_idx * size) as nat,
        ),
{
    assert(0 <= sub_idx * size) by (nonlinear_arith)
        requires
            0 <= sub_idx,
            0 <= size,
    ;
    let first: usize = start + sub_idx * size;
    let ghost rows = sub.deep_view();
    let ghost l = letters.deep_view();
    let ghost parts = Seq::new(
        rows.len(),
        |r: int| merge_row(rows[r], l, types@, (first as nat + r) as nat),
    );
    let mut out = String::new();
    assert(parts.take(0).flatten() == Seq::<char>::empty());
    for i in 0..sub.len()
        invariant
            rows == sub.deep_view(),
            l == letters.deep_view(),
            first + sub@.len() <= usize::MAX,
            rows_fit(rows, letters@.len()),
            rows_fit(rows, types@.len()),
            parts == Seq::new(
                rows.len(),
                |r: int| merge_row(rows[r], l, types@, (first as nat + r) as nat),
            ),
            out@ == parts.take(i as int).flatten(),
    {
        assert(rows[i as int] == sub@[i as int].deep_view());
        push_merge_row(&mut out, &sub[i], letters, types, first + i);
        proof {
            flatten_step(parts, i as int);
        }
    }
    assert(parts.take(parts.len() as int) == parts);
    out
}

/// Renders all sub-chunks on rayon's thread pool.
///
/// `ParallelSlice::par_chunks` cuts the rows into consecutive pieces of `size` rows, of
/// which the last may be shorter; `enumerate` numbers them from 0; `map` hands each to
/// `render_sub_chunk`; `collect` keeps their order. What is claimed is that the result has
/// one entry for each piece, in order, and that each entry is what `render_sub_chunk`
/// promises for that piece.
#[verifier::external_body]
fn render_sub_chunks(
    records: &[Vec<String>],
    letters: &[String],
    types: &[ColType],
    start: usize,
    size: usize,
) -> (parts: Vec<String>)
    requires
        size > 0,
        rows_fit(records.deep_view(), letters@.len()),
        rows_fit(records.deep_view(), types@.len()),
        start + records@.len() <= usize::MAX,
    ensures
        records@.len() <= parts@.len() * size,
        parts@.len() > 0 ==> (parts@.len() - 1) * size < records@.len(),
        forall|k: int|
            0 <= k < parts@.len() ==> (#[trigger] parts@[k])@ == merge_rows(
                sub_chunk(records.deep_view(), size as nat, k),
                letters.deep_view(),
                types@,
                (start + k * size) as nat,
            ),
{
    records.par_chunks(size).enumerate().map(
        |(k, sub)| render_sub_chunk(k, sub, letters, types, start, size),
    ).collect()
}

/// Renders a chunk of merged rows, of which the first has the number
/// `start_row_1based`, on several threads.
pub fn render_chunk_parallel(
    records: &[Vec<String>],
    col_letters: &[String],
    col_types: &[ColType],
    start_row_1based: usize,
) -> (xml: Vec<u8>)
    requires
        rows_fit(records.deep_view(), col_letters@.len()),
        rows_fit(records.deep_view(), col_types@.len()),
        start_row_1based + records@.len() <= usize::MAX,
    ensures
        xml@ == encode_utf8(
            merge_rows(
                records.deep_view(),
                col_letters.deep_view(),
                col_types@,
                start_row_1based as nat,
            ),
        ),
{
    let parts = render_sub_chunks(records, col_letters, col_types, start_row_1based, SUB_CHUNK);
    let ghost rows = records.deep_view();
    let ghost l = col_letters.deep_view();
    let ghost start = start_row_1based as nat;
    let mut out = String::new();
    assert(merge_rows(rows.take(0), l, col_types@, start) == Seq::<char>::empty());
    let ghost mut done: int = 0;
    for k in 0..parts.len()
        invariant
            rows == records.deep_view(),
            l == col_letters.deep_view(),
            start == start_row_1based,
            parts@.len() > 0 ==> (parts@.len() - 1) * SUB_CHUNK < records@.len(),
            records@.len() <= parts@.len() * SUB_CHUNK,
            forall|k: int|
                0 <= k < parts@.len() ==> (#[trigger] parts@[k])@ == merge_rows(
                    sub_chunk(rows, SUB_CHUNK as nat, k),
                    l,
                    col_types@,
                    (start + k * SUB_CHUNK) as nat,
                ),
            done == (if k * SUB_CHUNK < rows.len() {
                k * SUB_CHUNK
            } else {
                rows.len() as int
            }),
            out@ == merge_rows(rows.take(done), l, col_types@, start),
    {
        proof {
            let next = if (k + 1) * SUB_CHUNK < rows.len() {
                (k + 1) * SUB_CHUNK
            } else {
                rows.len() as int
            };
            let piece = sub_chunk(rows, SUB_CHUNK as nat, k as int);
            assert(done == k * SUB_CHUNK);
            assert(rows.take(next).take(done) == rows.take(done));
            assert(rows.take(next).skip(done) == piece);
            merge_rows_split(rows.take(next), l, col_types@, start, done);
            assert(parts@[k as int]@ == merge_rows(piece, l, col_types@, (start + done) as nat));
            done = next;
        }
        out.append(parts[k].as_str());
    }
    assert(rows.take(rows.len() as int) == rows);
    out.into_bytes()
}

} // verus!
