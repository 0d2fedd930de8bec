//! The producing end of a merge: rows come in one by one, chunks of rows go out, each
//! with the sheet and the row at which it stands.

use vstd::prelude::*;
use crate::workbook::MAX_ROWS_PER_SHEET;

verus! {

/// How many rows a chunk holds; the last one of a sheet may hold fewer.
pub const MERGE_CHUNK_ROWS: usize = 40_000;

/// How many records of each file are looked at to find the types of the columns.
pub const MERGE_SAMPLE_RECORDS: usize = 200;

/// The number of the first row of data in a sheet. Row 1 is the header.
pub const FIRST_DATA_ROW: usize = 2;

/// A chunk of rows on its way to the writer.
pub struct RowChunkMessage {
    /// The sheet that the rows belong to, counted from 1.
    pub sheet_idx: usize,
    /// The number of the first of the rows in that sheet.
    pub chunk_start_row: usize,
    pub records: Vec<Vec<String>>,
    pub is_last_chunk_of_sheet: bool,
}

/// What a chunk of rows says.
pub struct MergeChunk {
    pub sheet: nat,
    pub start: nat,
    pub records: Seq<Seq<Seq<char>>>,
    pub last: bool,
}

impl View for RowChunkMessage {
    type V = MergeChunk;

    open spec fn view(&self) -> MergeChunk {
        MergeChunk {
            sheet: self.sheet_idx as nat,
            start: self.chunk_start_row as nat,
            records: self.records.deep_view(),
            last: self.is_last_chunk_of_sheet,
        }
    }
}

/// What is handed out, if anything.
pub open spec fn chunks_in(r: Option<RowChunkMessage>) -> Seq<MergeChunk> {
    match r {
        Some(message) => seq![message@],
        None => Seq::empty(),
    }
}

/// The number of rows in the sheet of the last of `n` rows, up to and with that row.
pub open spec fn rows_in_sheet(n: nat) -> nat {
    ((n - 1) % (MAX_ROWS_PER_SHEET as int) + 1) as nat
}

/// The last of `n` rows completes a chunk: it fills a chunk or its sheet.
pub open spec fn completes_chunk(n: nat) -> bool {
    n > 0 && (rows_in_sheet(n) % (MERGE_CHUNK_ROWS as nat) == 0 || rows_in_sheet(n)
        == MAX_ROWS_PER_SHEET)
}

/// The number of rows in the chunk of the last of `n` rows, up to and with that row.
pub open spec fn rows_in_chunk(n: nat) -> nat {
    ((rows_in_sheet(n) - 1) % (MERGE_CHUNK_ROWS as int) + 1) as nat
}

/// The chunk that ends with the last of some rows.
pub open spec fn chunk_ending(rows: Seq<Seq<Seq<char>>>, last: bool) -> MergeChunk {
    let n = rows.len();
    MergeChunk {
        sheet: ((n - 1) / (MAX_ROWS_PER_SHEET as int) + 1) as nat,
        start: (FIRST_DATA_ROW + rows_in_sheet(n) - rows_in_chunk(n)) as nat,
        records: rows.skip(n - rows_in_chunk(n)),
        last,
    }
}

/// The number of rows, out of `n`, that wait for their chunk to be completed.
pub open spec fn waiting(n: nat) -> nat {
    if n == 0 || completes_chunk(n) {
        0
    } else {
        rows_in_chunk(n)
    }
}

/// The producing end of a merge.
pub struct MergeProducer {
    sheet_idx: usize,
    sheet_rows: usize,
    chunk: Vec<Vec<String>>,
    chunk_start_row: usize,
    rows: Ghost<Seq<Seq<Seq<char>>>>,
}

impl MergeProducer {
    /// The rows that came in so far.
    pub closed spec fn rows(&self) -> Seq<Seq<Seq<char>>> {
        self.rows@
    }

    /// The counters and the chunk that is being filled agree with the rows.
    pub closed spec fn valid(&self) -> bool {
        let n = self.rows().len();
        &&& self.sheet_idx == n / (MAX_ROWS_PER_SHEET as nat) + 1
        &&& self.sheet_rows == n % (MAX_ROWS_PER_SHEET as nat)
        &&& self.chunk.deep_view() == self.rows().skip(n - waiting(n))
        &&& self.chunk@.len() == waiting(n)
        &&& self.chunk_start_row == FIRST_DATA_ROW + self.sheet_rows - waiting(n)
    }

    /// A producer without rows.
    pub fn new() -> (p: Self)
        ensures
            p.valid(),
            p.rows() == Seq::<Seq<Seq<char>>>::empty(),
    {
        let p = MergeProducer {
            sheet_idx: 1,
            sheet_rows: 0,
            chunk: Vec::new(),
            chunk_start_row: FIRST_DATA_ROW,
            rows: Ghost(Seq::empty()),
        };
        proof {
            let none: Seq<Seq<Seq<char>>> = Seq::empty();
            assert(p.chunk.deep_view() == none.skip(0));
        }
        p
    }

    /// Takes the next row. When it completes a chunk, the chunk is handed out.
    pub fn push_row(&mut self, row: Vec<String>) -> (r: Option<RowChunkMessage>)
        requires
            old(self).valid(),
            old(self).rows().len() / (MAX_ROWS_PER_SHEET as nat) + 2 <= usize::MAX,
        ensures
            final(self).valid(),
            final(self).rows() == old(self).rows().push(row.deep_view()),
            completed_chunks(final(self).rows()) == completed_chunks(old(self).rows()) + chunks_in(r),
            ({
                let rows = final(self).rows();
                if completes_chunk(rows.len()) {
                    &&& r is Some
                    &&& (r->0)@ == chunk_ending(rows, rows_in_sheet(rows.len()) == MAX_ROWS_PER_SHEET)
                } else {
                    r is None
                }
            }),
    {
        let ghost before: Seq<Seq<Seq<char>>> = self.rows@;
        let ghost rows = before.push(row.deep_view());
        let ghost old_chunk = self.chunk.deep_view();
        let ghost n = rows.len();
        self.chunk.push(row);
        self.sheet_rows = self.sheet_rows + 1;
        self.rows = Ghost(rows);
        proof {
            assert(self.chunk.deep_view() == old_chunk.push(row.deep_view()));
            assert(rows_in_chunk(n) == waiting(before.len()) + 1);
            assert(old_chunk.push(row.deep_view()) == rows.skip(n - rows_in_chunk(n)));
            assert(self.sheet_rows == rows_in_sheet(n));
            assert(rows.drop_last() == before);
        }
        if self.chunk.len() == MERGE_CHUNK_ROWS || self.sheet_rows == MAX_ROWS_PER_SHEET {
            let is_sheet_end = self.sheet_rows == MAX_ROWS_PER_SHEET;
            let mut records: Vec<Vec<String>> = Vec::new();
            std::mem::swap(&mut records, &mut self.chunk);
            let size: usize = records.len();
            let message = RowChunkMessage {
                sheet_idx: self.sheet_idx,
                chunk_start_row: self.chunk_start_row,
                records,
                is_last_chunk_of_sheet: is_sheet_end,
            };
            if is_sheet_end {
                self.sheet_idx = self.sheet_idx + 1;
                self.sheet_rows = 0;
                self.chunk_start_row = FIRST_DATA_ROW;
            } else {
                self.chunk_start_row = self.chunk_start_row + size;
            }
            assert(self.chunk.deep_view() == rows.skip(n as int));
            assert(completed_chunks(rows) == completed_chunks(before) + chunks_in(Some(message)));
            Some(message)
        } else {
            assert(completed_chunks(rows) == completed_chunks(before) + chunks_in(None));
            None
        }
    }

    /// Ends the merge: hands out the rows that wait, if there are any, as the last of their sheet.
    pub fn finish(self) -> (r: Option<RowChunkMessage>)
        requires
            self.valid(),
        ensures
            completed_chunks(self.rows()) + chunks_in(r) == merge_chunks(self.rows()),
            if waiting(self.rows().len()) == 0 {
                r is None
            } else {
                r is Some && (r->0)@ == chunk_ending(self.rows(), true)
            },
    {
        if self.chunk.len() == 0 {
            None
        } else {
            Some(
                RowChunkMessage {
                    sheet_idx: self.sheet_idx,
                    chunk_start_row: self.chunk_start_row,
                    records: self.chunk,
                    is_last_chunk_of_sheet: true,
                },
            )
        }
    }
}

// ---------------------------------------------------------------------------
// Whole merges
// ---------------------------------------------------------------------------

/// The chunks that `push_row` hands out while rows come in.
pub open spec fn completed_chunks(rows: Seq<Seq<Seq<char>>>) -> Seq<MergeChunk>
    decreases rows.len(),
{
    if rows.len() == 0 {
        Seq::empty()
    } else {
        let front = completed_chunks(rows.drop_last());
        if completes_chunk(rows.len()) {
            front.push(chunk_ending(rows, rows_in_sheet(rows.len()) == MAX_ROWS_PER_SHEET))
        } else {
            front
        }
    }
}

/// All chunks of a merge, from first to last.
pub open spec fn merge_chunks(rows: Seq<Seq<Seq<char>>>) -> Seq<MergeChunk> {
    completed_chunks(rows) + if waiting(rows.len()) == 0 {
        Seq::empty()
    } else {
        seq![chunk_ending(rows, true)]
    }
}

/// Law: row `i` of a merge, counted from 0, stands in sheet `i / MAX_ROWS_PER_SHEET + 1`,
/// at row `i % MAX_ROWS_PER_SHEET + FIRST_DATA_ROW`: a chunk says so of its first row, and all its
/// rows are in one sheet.
pub proof fn chunk_stands_at_its_rows(rows: Seq<Seq<Seq<char>>>, last: bool)
    requires
        rows.len() > 0,
    ensures
        ({
            let c = chunk_ending(rows, last);
            let first = rows.len() - c.records.len();
            &&& 0 < c.records.len() <= MERGE_CHUNK_ROWS
            &&& c.records == rows.skip(first)
            &&& c.sheet == first / (MAX_ROWS_PER_SHEET as int) + 1
            &&& c.start == first % (MAX_ROWS_PER_SHEET as int) + FIRST_DATA_ROW
            &&& c.start + c.records.len() <= MAX_ROWS_PER_SHEET + FIRST_DATA_ROW
        }),
{
}

/// The chunks that were handed out hold the rows that do not wait.
pub proof fn completed_chunks_hold(rows: Seq<Seq<Seq<char>>>)
    ensures
        completed_chunks(rows).map_values(|c: MergeChunk| c.records).flatten() == rows.take(
            rows.len() - waiting(rows.len()),
        ),
    decreases rows.len(),
{
    let f = |c: MergeChunk| c.records;
    let chunks = completed_chunks(rows);
    if rows.len() == 0 {
        assert(chunks.map_values(f).flatten() == rows.take(0));
    } else {
        let front = rows.drop_last();
        let earlier = completed_chunks(front);
        completed_chunks_hold(front);
        if completes_chunk(rows.len()) {
            let c = chunk_ending(rows, rows_in_sheet(rows.len()) == MAX_ROWS_PER_SHEET);
            assert(chunks.map_values(f) == earlier.map_values(f).push(c.records));
            earlier.map_values(f).lemma_flatten_push(c.records);
            let first = rows.len() - rows_in_chunk(rows.len());
            assert(front.take(front.len() - waiting(front.len())) == rows.take(first));
            assert(rows.take(first) + rows.skip(first) == rows);
            assert(rows.take(rows.len() as int) == rows);
        } else {
            assert(front.take(front.len() - waiting(front.len())) == rows.take(
                rows.len() - waiting(rows.len()),
            ));
        }
    }
}

/// Law: the chunks of a merge hold all rows, in order, each once.
pub proof fn merge_keeps_every_row(rows: Seq<Seq<Seq<char>>>)
    ensures
        merge_chunks(rows).map_values(|c: MergeChunk| c.records).flatten() == rows,
{
    let f = |c: MergeChunk| c.records;
    let full = completed_chunks(rows);
    let k = waiting(rows.len());
    completed_chunks_hold(rows);
    if k == 0 {
        assert(merge_chunks(rows) == full);
        assert(rows.take(rows.len() as int) == rows);
    } else {
        let c = chunk_ending(rows, true);
        assert(merge_chunks(rows).map_values(f) == full.map_values(f).push(c.records));
        full.map_values(f).lemma_flatten_push(c.records);
        assert(rows.take(rows.len() - k) + rows.skip(rows.len() - k) == rows);
    }
}

} // verus!
