//! The writing end of a merge: chunks of rows come in, the actions that write them to
//! the archive go out.

use vstd::prelude::*;
use vstd::string::*;
use vstd::utf8::encode_utf8;
use crate::columns::{col_letters, col_names, ColType};
use crate::merge::{
    chunk_ending, chunk_stands_at_its_rows, completed_chunks, completes_chunk, merge_chunks, rows_in_chunk, rows_in_sheet,
    waiting, MergeChunk, RowChunkMessage, FIRST_DATA_ROW,
};
use crate::render::{merge_rows, merge_rows_split, render_chunk_parallel, row_ref, rows_fit};
use crate::text::{encode_concat, push_decimal};
use crate::workbook::{
    applied_all, content_types_xml, leading_parts, listing_parts, push_action, push_part, sheet_head,
    sheet_head_xml, sheet_part, sheet_part_name, workbook_rels_xml, workbook_xml, Archive, ZipAction,
    MAX_ROWS_PER_SHEET, RELS_XML, SHEET_CLOSE, STYLES_XML,
};

verus! {

broadcast use vstd::string::group_string_axioms;

/// The columns of a merge: their names and their types.
pub struct MergeColumns {
    pub names: Seq<Seq<char>>,
    pub types: Seq<ColType>,
}

impl MergeColumns {
    /// The bytes with which every sheet starts.
    pub open spec fn head(self) -> Seq<u8> {
        encode_utf8(sheet_head(row_ref(1), self.names))
    }

    /// The bytes of some rows, numbered from `start` on.
    pub open spec fn rows(self, rows: Seq<Seq<Seq<char>>>, start: nat) -> Seq<u8> {
        encode_utf8(merge_rows(rows, col_names(self.names.len()), self.types, start))
    }
}

/// An archive with bytes appended to its last part.
pub open spec fn extended(archive: Archive, data: Seq<u8>) -> Archive {
    archive.drop_last().push((archive.last().0, archive.last().1 + data))
}

/// The sheets after the given chunks: a chunk of a sheet that is not there yet starts it, its
/// rows are appended to the last sheet, and the last chunk of a sheet closes it.
pub open spec fn merge_sheets(columns: MergeColumns, chunks: Seq<MergeChunk>) -> Archive
    decreases chunks.len(),
{
    if chunks.len() == 0 {
        Seq::empty()
    } else {
        let c = chunks.last();
        let front = merge_sheets(columns, chunks.drop_last());
        let started = if c.sheet > front.len() {
            front.push((sheet_part(c.sheet), columns.head()))
        } else {
            front
        };
        let filled = extended(started, columns.rows(c.records, c.start));
        if c.last {
            extended(filled, encode_utf8(SHEET_CLOSE@))
        } else {
            filled
        }
    }
}

/// The sheets of a finished merge: one at least, and the last one closed.
pub open spec fn finished_sheets(columns: MergeColumns, chunks: Seq<MergeChunk>) -> Archive {
    let sheets = merge_sheets(columns, chunks);
    if chunks.len() == 0 {
        seq![(sheet_part(1), columns.head() + encode_utf8(SHEET_CLOSE@))]
    } else if chunks.last().last {
        sheets
    } else {
        extended(sheets, encode_utf8(SHEET_CLOSE@))
    }
}

/// The archive of a finished merge.
pub open spec fn merged_archive(columns: MergeColumns, chunks: Seq<MergeChunk>) -> Archive {
    let sheets = finished_sheets(columns, chunks);
    leading_parts() + sheets + listing_parts(sheets.len(), ""@)
}

/// Extending the last sheet of an archive.
proof fn extended_behind(parts: Archive, sheets: Archive, data: Seq<u8>)
    requires
        sheets.len() > 0,
    ensures
        extended(parts + sheets, data) == parts + extended(sheets, data),
{
    assert((parts + sheets).drop_last() == parts + sheets.drop_last());
    assert((parts + sheets).last() == sheets.last());
    assert(extended(parts + sheets, data) == parts + extended(sheets, data));
}

/// The writing end of a merge.
pub struct MergeWriter {
    head: String,
    letters: Vec<String>,
    types: Vec<ColType>,
    sheets: usize,
    open: bool,
    total_rows: usize,
    columns: Ghost<MergeColumns>,
    chunks: Ghost<Seq<MergeChunk>>,
}

impl MergeWriter {
    /// The columns.
    pub closed spec fn columns(&self) -> MergeColumns {
        self.columns@
    }

    /// The chunks that came in so far.
    pub closed spec fn chunks(&self) -> Seq<MergeChunk> {
        self.chunks@
    }

    /// The number of sheets so far.
    pub open spec fn sheet_count(&self) -> nat {
        merge_sheets(self.columns(), self.chunks()).len()
    }

    /// The number of rows that came in so far.
    pub closed spec fn row_count(&self) -> nat {
        self.total_rows as nat
    }

    /// What has been written so far.
    pub open spec fn archive(&self) -> Archive {
        leading_parts() + merge_sheets(self.columns(), self.chunks())
    }

    /// The fields agree with the columns and the chunks.
    pub closed spec fn valid(&self) -> bool {
        let columns = self.columns();
        let chunks = self.chunks();
        &&& columns.types.len() == columns.names.len()
        &&& self.head@ == sheet_head(row_ref(1), columns.names)
        &&& self.letters.deep_view() == col_names(columns.names.len())
        &&& self.letters@.len() == columns.names.len()
        &&& self.types@ == columns.types
        &&& self.sheets == merge_sheets(columns, chunks).len()
        &&& self.sheets < usize::MAX
        &&& self.open == (chunks.len() > 0 && !chunks.last().last)
        &&& chunks.len() == 0 <==> self.sheets == 0
        &&& forall|i: int| 0 <= i < chunks.len() ==> (#[trigger] chunks[i]).sheet >= 1
    }

    /// Starts a workbook with the given columns.
    pub fn begin(names: &Vec<String>, types: Vec<ColType>) -> (r: (MergeWriter, Vec<ZipAction>))
        requires
            types@.len() == names@.len(),
        ensures
            r.0.valid(),
            r.0.columns() == (MergeColumns { names: names.deep_view(), types: types@ }),
            r.0.chunks() == Seq::<MergeChunk>::empty(),
            r.0.row_count() == 0,
            applied_all(Seq::empty(), r.1@) == r.0.archive(),
    {
        let mut attrs = String::new();
        attrs.append(" r=\"");
        push_decimal(&mut attrs, 1);
        attrs.append("\"");
        assert(attrs@ == row_ref(1));
        let head = sheet_head_xml(attrs.as_str(), names);
        let letters = col_letters(names.len());
        assert(letters.deep_view().len() == letters@.len());
        let ghost none: Archive = Seq::empty();
        let mut actions: Vec<ZipAction> = Vec::new();
        push_part(&mut actions, "_rels/.rels", RELS_XML.to_owned());
        push_part(&mut actions, "xl/styles.xml", STYLES_XML.to_owned());
        assert(applied_all(none, actions@) == leading_parts());
        assert(leading_parts() == leading_parts() + none);
        let ghost columns = MergeColumns { names: names.deep_view(), types: types@ };
        let w = MergeWriter {
            head,
            letters,
            types,
            sheets: 0,
            open: false,
            total_rows: 0,
            columns: Ghost(columns),
            chunks: Ghost(Seq::empty()),
        };
        (w, actions)
    }

    /// Takes the next chunk of rows.
    pub fn write(&mut self, message: RowChunkMessage) -> (actions: Vec<ZipAction>)
        requires
            old(self).valid(),
            1 <= message.sheet_idx <= old(self).sheet_count() + 1,
            message.sheet_idx < usize::MAX,
            rows_fit(message@.records, old(self).columns().names.len()),
            message.chunk_start_row + message@.records.len() <= usize::MAX,
            old(self).row_count() + message@.records.len() <= usize::MAX,
        ensures
            final(self).valid(),
            final(self).columns() == old(self).columns(),
            final(self).chunks() == old(self).chunks().push(message@),
            final(self).row_count() == old(self).row_count() + message@.records.len(),
            applied_all(old(self).archive(), actions@) == final(self).archive(),
    {
        let ghost columns = self.columns@;
        let ghost earlier: Seq<MergeChunk> = self.chunks@;
        let ghost chunk = message@;
        let ghost more = earlier.push(chunk);
        let ghost before = self.archive();
        let ghost sheets = merge_sheets(columns, earlier);
        let ghost close = encode_utf8(SHEET_CLOSE@);
        let mut actions: Vec<ZipAction> = Vec::new();
        assert(applied_all(before, actions@) == before);
        assert(more.drop_last() == earlier);
        assert forall|i: int| 0 <= i < more.len() implies (#[trigger] more[i]).sheet >= 1 by {
            if i < earlier.len() {
                assert(more[i] == earlier[i]);
            }
        }
        if message.sheet_idx > self.sheets {
            push_part(&mut actions, sheet_part_name(message.sheet_idx).as_str(), self.head.clone());
            self.sheets = self.sheets + 1;
        }
        let ghost started = if chunk.sheet > sheets.len() {
            sheets.push((sheet_part(chunk.sheet), columns.head()))
        } else {
            sheets
        };
        assert(applied_all(before, actions@) == leading_parts() + started);
        let records = message.records.as_slice();
        let letters = self.letters.as_slice();
        assert(records.deep_view() == chunk.records);
        assert(letters.deep_view() == self.letters.deep_view());
        let xml = render_chunk_parallel(
            records,
            letters,
            self.types.as_slice(),
            message.chunk_start_row,
        );
        push_action(&mut actions, ZipAction::WriteAll(xml));
        let ghost filled = extended(started, columns.rows(chunk.records, chunk.start));
        proof {
            extended_behind(leading_parts(), started, columns.rows(chunk.records, chunk.start));
            assert(applied_all(before, actions@) == leading_parts() + filled);
        }
        if message.is_last_chunk_of_sheet {
            push_action(&mut actions, ZipAction::WriteAll(SHEET_CLOSE.to_owned().into_bytes()));
            proof {
                extended_behind(leading_parts(), filled, close);
            }
        }
        self.total_rows = self.total_rows + message.records.len();
        self.open = !message.is_last_chunk_of_sheet;
        self.chunks = Ghost(more);
        actions
    }

    /// The number of rows that came in so far.
    pub fn rows(&self) -> (n: usize)
        requires
            self.valid(),
        ensures
            n == self.row_count(),
    {
        self.total_rows
    }

    /// The number of sheets so far.
    pub fn sheets(&self) -> (n: usize)
        requires
            self.valid(),
        ensures
            n == self.sheet_count(),
    {
        self.sheets
    }

    /// Ends the workbook: closes the last sheet where it is open, writes the header where
    /// there is no sheet, and writes the parts that list the sheets.
    pub fn finish(self) -> (actions: Vec<ZipAction>)
        requires
            self.valid(),
        ensures
            applied_all(self.archive(), actions@) == merged_archive(self.columns(), self.chunks()),
    {
        let ghost columns = self.columns@;
        let ghost chunks: Seq<MergeChunk> = self.chunks@;
        let ghost before = self.archive();
        let ghost sheets = merge_sheets(columns, chunks);
        let ghost all = finished_sheets(columns, chunks);
        let ghost close = encode_utf8(SHEET_CLOSE@);
        let mut actions: Vec<ZipAction> = Vec::new();
        assert(applied_all(before, actions@) == before);
        let mut n: usize = self.sheets;
        if n == 0 {
            let ghost one: Archive = seq![(sheet_part(1), columns.head())];
            push_part(&mut actions, sheet_part_name(1).as_str(), self.head);
            assert(applied_all(before, actions@) == leading_parts() + one);
            push_action(&mut actions, ZipAction::WriteAll(SHEET_CLOSE.to_owned().into_bytes()));
            proof {
                extended_behind(leading_parts(), one, close);
                assert(extended(one, close) == all);
            }
            n = 1;
        } else if self.open {
            push_action(&mut actions, ZipAction::WriteAll(SHEET_CLOSE.to_owned().into_bytes()));
            proof {
                extended_behind(leading_parts(), sheets, close);
            }
        }
        assert(applied_all(before, actions@) == leading_parts() + all);
        assert(n == all.len());
        push_part(&mut actions, "[Content_Types].xml", content_types_xml(n, ""));
        push_part(&mut actions, "xl/workbook.xml", workbook_xml(n, ""));
        push_part(&mut actions, "xl/_rels/workbook.xml.rels", workbook_rels_xml(n, ""));
        assert(applied_all(before, actions@) == leading_parts() + all + listing_parts(all.len(), ""@));
        actions
    }
}

// ---------------------------------------------------------------------------
// Laws
// ---------------------------------------------------------------------------

/// The number of sheets that hold `n` rows.
pub open spec fn sheets_for(n: nat) -> nat {
    ((n + MAX_ROWS_PER_SHEET - 1) / (MAX_ROWS_PER_SHEET as int)) as nat
}

/// The rows of sheet `i`, counted from 0, out of the first `n`.
pub open spec fn rows_of_sheet(rows: Seq<Seq<Seq<char>>>, n: int, i: int) -> Seq<Seq<Seq<char>>> {
    let end = (i + 1) * MAX_ROWS_PER_SHEET;
    rows.subrange(
        i * MAX_ROWS_PER_SHEET,
        if end < n {
            end
        } else {
            n
        },
    )
}

/// The sheets of the first `n` rows, of which the last may still be open.
pub open spec fn sheets_with(
    columns: MergeColumns,
    rows: Seq<Seq<Seq<char>>>,
    n: int,
    closed: bool,
) -> Archive {
    Seq::new(
        sheets_for(n as nat),
        |i: int|
            (
                sheet_part((i + 1) as nat),
                columns.head() + columns.rows(rows_of_sheet(rows, n, i), FIRST_DATA_ROW as nat)
                    + if closed || i + 1 < sheets_for(n as nat) {
                    encode_utf8(SHEET_CLOSE@)
                } else {
                    Seq::empty()
                },
            ),
    )
}

/// A chunk takes the sheets from the rows before it to the rows up to its end.
proof fn chunk_extends_sheets(
    columns: MergeColumns,
    chunks: Seq<MergeChunk>,
    rows: Seq<Seq<Seq<char>>>,
    first: int,
    n: int,
)
    requires
        0 <= first < n <= rows.len(),
        (n - 1) / (MAX_ROWS_PER_SHEET as int) == first / (MAX_ROWS_PER_SHEET as int),
        chunks.len() > 0,
        merge_sheets(columns, chunks.drop_last()) == sheets_with(
            columns,
            rows,
            first,
            first % (MAX_ROWS_PER_SHEET as int) == 0,
        ),
        chunks.last().sheet == first / (MAX_ROWS_PER_SHEET as int) + 1,
        chunks.last().start == first % (MAX_ROWS_PER_SHEET as int) + FIRST_DATA_ROW,
        chunks.last().records == rows.subrange(first, n),
    ensures
        merge_sheets(columns, chunks) == sheets_with(columns, rows, n, chunks.last().last),
{
    let m = MAX_ROWS_PER_SHEET as int;
    let c = chunks.last();
    let s = first / m;
    let a = sheets_with(columns, rows, first, first % m == 0);
    let b = sheets_with(columns, rows, n, c.last);
    let letters = col_names(columns.names.len());
    let close = encode_utf8(SHEET_CLOSE@);
    let data = columns.rows(c.records, c.start);
    let old_rows = rows.subrange(s * m, first);
    let new_rows = rows.subrange(s * m, n);
    assert(sheets_for(n as nat) == s + 1);
    assert(rows_of_sheet(rows, n, s) == new_rows);
    assert(new_rows.take(first - s * m) == old_rows);
    assert(new_rows.skip(first - s * m) == c.records);
    merge_rows_split(new_rows, letters, columns.types, FIRST_DATA_ROW as nat, first - s * m);
    encode_concat(
        merge_rows(old_rows, letters, columns.types, FIRST_DATA_ROW as nat),
        merge_rows(c.records, letters, columns.types, c.start),
    );
    assert(columns.rows(new_rows, FIRST_DATA_ROW as nat) == columns.rows(
        old_rows,
        FIRST_DATA_ROW as nat,
    ) + data);
    let started = if c.sheet > a.len() {
        a.push((sheet_part(c.sheet), columns.head()))
    } else {
        a
    };
    if first % m == 0 {
        assert(sheets_for(first as nat) == s);
        assert(old_rows == Seq::<Seq<Seq<char>>>::empty());
        assert(merge_rows(old_rows, letters, columns.types, FIRST_DATA_ROW as nat) == Seq::<
            char,
        >::empty());
        assert(columns.rows(old_rows, FIRST_DATA_ROW as nat) == Seq::<u8>::empty());
    } else {
        assert(sheets_for(first as nat) == s + 1);
        assert(rows_of_sheet(rows, first, s) == old_rows);
    }
    assert(started.len() == s + 1);
    assert(started.last().0 == sheet_part((s + 1) as nat));
    assert(started.last().1 == columns.head() + columns.rows(old_rows, FIRST_DATA_ROW as nat));
    let filled = extended(started, data);
    assert(filled.last().1 == columns.head() + columns.rows(new_rows, FIRST_DATA_ROW as nat));
    assert forall|i: int| 0 <= i < s implies started[i] == b[i] by {
        assert(rows_of_sheet(rows, first, i) == rows_of_sheet(rows, n, i));
        assert(started[i] == a[i]);
    }
    if c.last {
        let done = extended(filled, close);
        assert(done[s] == b[s]);
        assert(done == b);
    } else {
        assert(filled[s] == b[s]) by {
            assert(filled.last().1 + Seq::<u8>::empty() == filled.last().1);
        }
        assert(filled == b);
    }
}

/// Rows behind those that the sheets hold do not change the sheets.
proof fn sheets_with_front(
    columns: MergeColumns,
    rows: Seq<Seq<Seq<char>>>,
    m: int,
    n: int,
    closed: bool,
)
    requires
        0 <= n <= m <= rows.len(),
    ensures
        sheets_with(columns, rows.take(m), n, closed) == sheets_with(columns, rows, n, closed),
{
    let a = sheets_with(columns, rows.take(m), n, closed);
    let b = sheets_with(columns, rows, n, closed);
    assert forall|i: int| 0 <= i < a.len() implies a[i] == b[i] by {
        assert(rows_of_sheet(rows.take(m), n, i) == rows_of_sheet(rows, n, i));
    }
    assert(a == b);
}

/// Where the chunk that the last of `n` rows completes stands.
proof fn completed_chunk_place(n: nat)
    requires
        n > 0,
    ensures
        ({
            let m = MAX_ROWS_PER_SHEET as int;
            let first = (n - 1) - waiting((n - 1) as nat);
            &&& first >= 0
            &&& completes_chunk(n) ==> first == n - rows_in_chunk(n)
            &&& !completes_chunk(n) ==> first == n - waiting(n)
            &&& (n - 1) / m == first / m
            &&& completes_chunk(n) ==> ((rows_in_sheet(n) == m) == (n as int % m == 0))
            &&& first % m == rows_in_sheet(n) - rows_in_chunk(n)
        }),
{
}

/// The sheets after the completed chunks hold the rows that do not wait.
proof fn completed_sheets_hold(columns: MergeColumns, rows: Seq<Seq<Seq<char>>>)
    ensures
        ({
            let done = rows.len() - waiting(rows.len());
            merge_sheets(columns, completed_chunks(rows)) == sheets_with(
                columns,
                rows,
                done,
                done % (MAX_ROWS_PER_SHEET as int) == 0,
            )
        }),
    decreases rows.len(),
{
    let m = MAX_ROWS_PER_SHEET as int;
    let chunks = completed_chunks(rows);
    let n = rows.len() as int;
    if n == 0 {
        assert(merge_sheets(columns, chunks) == sheets_with(columns, rows, 0, true));
    } else {
        let front = rows.drop_last();
        let first = front.len() - waiting(front.len());
        completed_sheets_hold(columns, front);
        completed_chunk_place(rows.len());
        assert(front == rows.take(n - 1));
        sheets_with_front(columns, rows, n - 1, first, first % m == 0);
        if completes_chunk(rows.len()) {
            assert(chunks.drop_last() == completed_chunks(front));
            assert(rows.skip(first) == rows.subrange(first, n));
            chunk_extends_sheets(columns, chunks, rows, first, n);
        }
    }
}

/// Law: the workbook of a merge. Its sheets, from the first to the last, hold all rows,
/// in order, as many in each as its limit allows; each sheet starts with the header and
/// is closed; there is at least one; and the last parts list exactly these sheets.
pub proof fn merged_workbook_holds_rows(columns: MergeColumns, rows: Seq<Seq<Seq<char>>>)
    ensures
        ({
            let n = rows.len();
            let count = if n == 0 {
                1
            } else {
                sheets_for(n)
            };
            merged_archive(columns, merge_chunks(rows)) == leading_parts() + Seq::new(
                count,
                |i: int|
                    (
                        sheet_part((i + 1) as nat),
                        columns.head() + columns.rows(
                            rows_of_sheet(rows, n as int, i),
                            FIRST_DATA_ROW as nat,
                        ) + encode_utf8(SHEET_CLOSE@),
                    ),
            ) + listing_parts(count, ""@)
        }),
{
    let m = MAX_ROWS_PER_SHEET as int;
    let n = rows.len();
    let k = waiting(n);
    let close = encode_utf8(SHEET_CLOSE@);
    let full = completed_chunks(rows);
    let chunks = merge_chunks(rows);
    let letters = col_names(columns.names.len());
    let count = if n == 0 {
        1
    } else {
        sheets_for(n)
    };
    let expected = Seq::new(
        count,
        |i: int|
            (
                sheet_part((i + 1) as nat),
                columns.head() + columns.rows(
                    rows_of_sheet(rows, n as int, i),
                    FIRST_DATA_ROW as nat,
                ) + close,
            ),
    );
    completed_sheets_hold(columns, rows);
    if n == 0 {
        let none = rows_of_sheet(rows, 0, 0);
        assert(none == Seq::<Seq<Seq<char>>>::empty());
        assert(merge_rows(none, letters, columns.types, FIRST_DATA_ROW as nat) == Seq::<
            char,
        >::empty());
        assert(columns.rows(none, FIRST_DATA_ROW as nat) == Seq::<u8>::empty());
        assert(columns.head() + Seq::<u8>::empty() + close == columns.head() + close);
        assert(chunks.len() == 0);
        assert(finished_sheets(columns, chunks) == expected);
    } else if k == 0 {
        assert(chunks == full);
        let open = sheets_with(columns, rows, n as int, n as int % m == 0);
        assert(chunks.last() == chunk_ending(rows, rows_in_sheet(n) == MAX_ROWS_PER_SHEET));
        if n as int % m == 0 {
            assert(chunks.last().last);
        } else {
            assert(!chunks.last().last);
            let all = extended(open, close);
            let s = sheets_for(n) - 1;
            assert(open.last() == open[s]);
            assert(open[s].1 + close == expected[s].1) by {
                let x = columns.head() + columns.rows(
                    rows_of_sheet(rows, n as int, s),
                    FIRST_DATA_ROW as nat,
                );
                assert(x + Seq::<u8>::empty() + close == x + close);
            }
            assert(all == expected);
        }
        assert(finished_sheets(columns, chunks) == expected);
    } else {
        let first = n - k;
        assert(chunks.drop_last() == full);
        assert(rows.skip(first) == rows.subrange(first, n as int));
        chunk_extends_sheets(columns, chunks, rows, first, n as int);
        assert(sheets_with(columns, rows, n as int, true) == expected);
        assert(finished_sheets(columns, chunks) == expected);
    }
}

/// Chunk `i` continues the last sheet or starts the next one, and stands within its limit.
pub open spec fn chunk_in_order(columns: MergeColumns, chunks: Seq<MergeChunk>, i: int) -> bool {
    &&& 1 <= chunks[i].sheet <= merge_sheets(columns, chunks.take(i)).len() + 1
    &&& chunks[i].start + chunks[i].records.len() <= MAX_ROWS_PER_SHEET + FIRST_DATA_ROW
    &&& rows_fit(chunks[i].records, columns.names.len())
}

/// The chunks that were handed out come in order.
proof fn completed_chunks_in_order(columns: MergeColumns, rows: Seq<Seq<Seq<char>>>)
    requires
        rows_fit(rows, columns.names.len()),
    ensures
        forall|i: int|
            0 <= i < completed_chunks(rows).len() ==> #[trigger] chunk_in_order(
                columns,
                completed_chunks(rows),
                i,
            ),
    decreases rows.len(),
{
    let chunks = completed_chunks(rows);
    if rows.len() > 0 {
        let front = rows.drop_last();
        let earlier = completed_chunks(front);
        completed_chunks_in_order(columns, front);
        if completes_chunk(rows.len()) {
            completed_sheets_hold(columns, front);
            completed_chunk_place(rows.len());
            assert forall|i: int| 0 <= i < chunks.len() implies #[trigger] chunk_in_order(
                columns,
                chunks,
                i,
            ) by {
                if i < earlier.len() {
                    assert(chunk_in_order(columns, earlier, i));
                    assert(chunks.take(i) == earlier.take(i));
                } else {
                    assert(chunks.take(i) == earlier);
                    chunk_stands_at_its_rows(rows, chunks[i].last);
                }
            }
        }
    }
}

/// Law: the chunks of a merge come to the writer in order. Each one continues the last sheet
/// or starts the next, and ends within the limit of its sheet: the writer takes every one.
pub proof fn merge_chunks_in_order(columns: MergeColumns, rows: Seq<Seq<Seq<char>>>)
    requires
        rows_fit(rows, columns.names.len()),
    ensures
        forall|i: int|
            0 <= i < merge_chunks(rows).len() ==> #[trigger] chunk_in_order(
                columns,
                merge_chunks(rows),
                i,
            ),
{
    let full = completed_chunks(rows);
    let chunks = merge_chunks(rows);
    let k = waiting(rows.len());
    completed_chunks_in_order(columns, rows);
    completed_sheets_hold(columns, rows);
    if k == 0 {
        assert(chunks == full);
    } else {
        completed_chunk_place(rows.len());
        assert forall|i: int| 0 <= i < chunks.len() implies #[trigger] chunk_in_order(
            columns,
            chunks,
            i,
        ) by {
            if i < full.len() {
                assert(chunk_in_order(columns, full, i));
                assert(chunks.take(i) == full.take(i));
            } else {
                assert(chunks.take(i) == full);
                chunk_stands_at_its_rows(rows, true);
            }
        }
    }
}

} // verus!
