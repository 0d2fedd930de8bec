//! The writing end of a stream: chunks of rows come in, the actions that write them
//! to the archive go out.
//!
//! A chunk that would take a sheet over its limit starts the next one. The parts that
//! list the sheets are written last, when it is known how many there are.

use vstd::prelude::*;
use vstd::string::*;
use vstd::utf8::encode_utf8;
use crate::columns::ColType;
use crate::pipe::{pipe_rows_concat, PipeStreamMessage};
use crate::render::pipe_rows;
use crate::row_laws::pipe_sheet;
use crate::text::encode_concat;
use crate::workbook::{
    applied_all, content_types_xml, leading_parts, listing_parts, push_action, push_part, sheet_head,
    sheet_head_xml, sheet_part, sheet_part_name, workbook_rels_xml, workbook_xml, Archive, ZipAction,
    MAX_ROWS_PER_SHEET, RELS_XML, SHEET_CLOSE, STYLES_XML,
};

verus! {

broadcast use vstd::string::group_string_axioms;

/// A chunk: the number of its rows, and its bytes.
pub type ChunkData = (nat, Seq<u8>);

/// The number of rows in some chunks.
pub open spec fn rows_in(chunks: Seq<ChunkData>) -> nat
    decreases chunks.len(),
{
    if chunks.len() == 0 {
        0
    } else {
        rows_in(chunks.drop_last()) + chunks.last().0
    }
}

/// The bytes of some chunks, one after the other.
pub open spec fn data_in(chunks: Seq<ChunkData>) -> Seq<u8>
    decreases chunks.len(),
{
    if chunks.len() == 0 {
        Seq::empty()
    } else {
        data_in(chunks.drop_last()) + chunks.last().1
    }
}

/// How chunks are laid out over sheets: each goes to the last sheet, unless that would
/// take the sheet over its limit; then it goes to a new one.
pub open spec fn sheets_of(chunks: Seq<ChunkData>) -> Seq<Seq<ChunkData>>
    decreases chunks.len(),
{
    if chunks.len() == 0 {
        seq![Seq::empty()]
    } else {
        let sheets = sheets_of(chunks.drop_last());
        let chunk = chunks.last();
        if rows_in(sheets.last()) + chunk.0 > MAX_ROWS_PER_SHEET {
            sheets.push(seq![chunk])
        } else {
            sheets.drop_last().push(sheets.last().push(chunk))
        }
    }
}

/// The part that holds sheet `i`, counted from 0.
pub open spec fn sheet_with(
    head: Seq<u8>,
    sheets: Seq<Seq<ChunkData>>,
    i: int,
    closed: bool,
) -> (Seq<char>, Seq<u8>) {
    (
        sheet_part((i + 1) as nat),
        head + data_in(sheets[i]) + if closed {
            encode_utf8(SHEET_CLOSE@)
        } else {
            Seq::empty()
        },
    )
}

/// The bytes with which every sheet of a stream starts.
pub open spec fn stream_head(names: Seq<Seq<char>>) -> Seq<u8> {
    encode_utf8(sheet_head(Seq::empty(), names))
}

/// The archive while a stream is being written: all sheets but the last are closed.
pub open spec fn open_archive(names: Seq<Seq<char>>, chunks: Seq<ChunkData>) -> Archive {
    let sheets = sheets_of(chunks);
    leading_parts() + Seq::new(
        sheets.len(),
        |i: int| sheet_with(stream_head(names), sheets, i, i + 1 < sheets.len()),
    )
}

/// The archive when the stream is written: all sheets are closed, and the last parts list them.
pub open spec fn finished_archive(names: Seq<Seq<char>>, chunks: Seq<ChunkData>) -> Archive {
    let sheets = sheets_of(chunks);
    leading_parts() + Seq::new(
        sheets.len(),
        |i: int| sheet_with(stream_head(names), sheets, i, true),
    ) + listing_parts(sheets.len(), "\n"@)
}

/// There is always a sheet.
proof fn some_sheet(chunks: Seq<ChunkData>)
    ensures
        sheets_of(chunks).len() > 0,
    decreases chunks.len(),
{
    if chunks.len() > 0 {
        some_sheet(chunks.drop_last());
    }
}

/// The writing end of a stream.
pub struct PipeWriter {
    head: String,
    current_sheet: usize,
    current_sheet_rows: usize,
    total_rows: usize,
    names: Ghost<Seq<Seq<char>>>,
    chunks: Ghost<Seq<ChunkData>>,
}

impl PipeWriter {
    /// The names of the columns.
    pub closed spec fn names(&self) -> Seq<Seq<char>> {
        self.names@
    }

    /// The chunks that came in so far.
    pub closed spec fn chunks(&self) -> Seq<ChunkData> {
        self.chunks@
    }

    /// What has been written so far.
    pub open spec fn archive(&self) -> Archive {
        open_archive(self.names(), self.chunks())
    }

    /// The counters agree with the chunks.
    pub closed spec fn valid(&self) -> bool {
        let sheets = sheets_of(self.chunks());
        &&& self.head@ == sheet_head(Seq::empty(), self.names())
        &&& self.current_sheet == sheets.len()
        &&& self.current_sheet_rows == rows_in(sheets.last())
        &&& self.total_rows == rows_in(self.chunks())
        &&& self.current_sheet_rows <= self.total_rows
        &&& self.current_sheet + (if self.current_sheet_rows > 0 {
            1int
        } else {
            0int
        }) <= self.total_rows + 1
        &&& self.total_rows + 3 <= usize::MAX
    }

    /// Starts a workbook with the given columns.
    pub fn begin(names: &Vec<String>) -> (r: (PipeWriter, Vec<ZipAction>))
        ensures
            r.0.valid(),
            r.0.names() == names.deep_view(),
            r.0.chunks() == Seq::<ChunkData>::empty(),
            applied_all(Seq::empty(), r.1@) == r.0.archive(),
    {
        let head = sheet_head_xml("", names);
        proof {
            reveal_strlit("");
        }
        assert(""@ == Seq::<char>::empty());
        let ghost none: Archive = Seq::empty();
        let ghost v = names.deep_view();
        let mut actions: Vec<ZipAction> = Vec::new();
        push_part(&mut actions, "_rels/.rels", RELS_XML.to_owned());
        push_part(&mut actions, "xl/styles.xml", STYLES_XML.to_owned());
        assert(applied_all(none, actions@) == leading_parts());
        push_part(&mut actions, sheet_part_name(1).as_str(), head.clone());
        let w = PipeWriter {
            head,
            current_sheet: 1,
            current_sheet_rows: 0,
            total_rows: 0,
            names: Ghost(v),
            chunks: Ghost(Seq::empty()),
        };
        proof {
            let chunks: Seq<ChunkData> = Seq::empty();
            let sheets = sheets_of(chunks);
            assert(sheets.len() == 1);
            assert(sheets[0] == Seq::<ChunkData>::empty());
            assert(stream_head(v) + data_in(sheets[0]) + Seq::<u8>::empty() == stream_head(v));
            assert(open_archive(v, chunks) == leading_parts().push(
                (sheet_part(1), stream_head(v)),
            ));
        }
        (w, actions)
    }

    /// The number of rows that came in so far.
    pub fn rows(&self) -> (n: usize)
        requires
            self.valid(),
        ensures
            n == rows_in(self.chunks()),
    {
        self.total_rows
    }

    /// The number of sheets so far.
    pub fn sheets(&self) -> (n: usize)
        requires
            self.valid(),
        ensures
            n == sheets_of(self.chunks()).len(),
    {
        self.current_sheet
    }

    /// Takes the next message. The rows of a chunk are appended to the last sheet, or to a new
    /// one where they would take it over its limit. A further header is left out.
    pub fn write(&mut self, message: PipeStreamMessage) -> (actions: Vec<ZipAction>)
        requires
            old(self).valid(),
            message matches PipeStreamMessage::Chunk { rows_count, .. } ==> rows_in(
                old(self).chunks(),
            ) + rows_count + 3 <= usize::MAX,
        ensures
            final(self).valid(),
            final(self).names() == old(self).names(),
            final(self).chunks() == match message {
                PipeStreamMessage::Header(_) => old(self).chunks(),
                PipeStreamMessage::Chunk { rows_count, xml_data } => old(self).chunks().push(
                    (rows_count as nat, xml_data@),
                ),
            },
            applied_all(old(self).archive(), actions@) == final(self).archive(),
    {
        let mut actions: Vec<ZipAction> = Vec::new();
        let ghost chunks: Seq<ChunkData> = self.chunks@;
        let ghost names = self.names@;
        let ghost sheets = sheets_of(chunks);
        let ghost before = self.archive();
        assert(applied_all(before, actions@) == before);
        match message {
            PipeStreamMessage::Header(_) => {},
            PipeStreamMessage::Chunk { rows_count, xml_data } => {
                let ghost chunk: ChunkData = (rows_count as nat, xml_data@);
                let ghost more = chunks.push(chunk);
                let ghost after = open_archive(names, more);
                proof {
                    some_sheet(chunks);
                    assert(more.drop_last() == chunks);
                    rows_of_sheet_bounded(chunks);
                }
                if self.current_sheet_rows + rows_count > MAX_ROWS_PER_SHEET {
                    push_action(&mut actions, ZipAction::WriteAll(SHEET_CLOSE.to_owned().into_bytes()));
                    self.current_sheet = self.current_sheet + 1;
                    self.current_sheet_rows = 0;
                    push_part(&mut actions, sheet_part_name(self.current_sheet).as_str(), self.head.clone());
                    push_action(&mut actions, ZipAction::WriteAll(xml_data));
                    proof {
                        let one = seq![chunk];
                        assert(one.drop_last() == Seq::<ChunkData>::empty());
                        assert(rows_in(one.drop_last()) == 0);
                        assert(data_in(one.drop_last()) == Seq::<u8>::empty());
                        assert(data_in(one) == chunk.1);
                        assert(sheets_of(more) == sheets.push(one));
                        chunk_starts_sheet(names, chunks, chunk);
                        assert(applied_all(before, actions@) == after);
                    }
                } else {
                    push_action(&mut actions, ZipAction::WriteAll(xml_data));
                    proof {
                        chunk_joins_sheet(names, chunks, chunk);
                        assert(sheets.last().push(chunk).drop_last() == sheets.last());
                        assert(applied_all(before, actions@) == after);
                    }
                }
                self.total_rows = self.total_rows + rows_count;
                self.current_sheet_rows = self.current_sheet_rows + rows_count;
                self.chunks = Ghost(more);
            },
        }
        actions
    }

    /// Ends the workbook: closes the last sheet and writes the parts that list the sheets.
    pub fn finish(self) -> (actions: Vec<ZipAction>)
        requires
            self.valid(),
        ensures
            applied_all(self.archive(), actions@) == finished_archive(self.names(), self.chunks()),
    {
        let ghost chunks: Seq<ChunkData> = self.chunks@;
        let ghost sheets = sheets_of(chunks);
        let ghost head = stream_head(self.names@);
        let ghost before = self.archive();
        let mut actions: Vec<ZipAction> = Vec::new();
        assert(applied_all(before, actions@) == before);
        push_action(&mut actions, ZipAction::WriteAll(SHEET_CLOSE.to_owned().into_bytes()));
        let ghost all = Seq::new(sheets.len(), |i: int| sheet_with(head, sheets, i, true));
        proof {
            some_sheet(chunks);
            last_sheet_closes(self.names@, chunks);
            assert(applied_all(before, actions@) == leading_parts() + all);
        }
        let n = self.current_sheet;
        push_part(&mut actions, "[Content_Types].xml", content_types_xml(n, "\n"));
        push_part(&mut actions, "xl/workbook.xml", workbook_xml(n, "\n"));
        push_part(&mut actions, "xl/_rels/workbook.xml.rels", workbook_rels_xml(n, "\n"));
        assert(applied_all(before, actions@) == leading_parts() + all + listing_parts(sheets.len(), "\n"@));
        actions
    }
}

/// A sheet holds no more rows than all sheets do.
proof fn rows_of_sheet_bounded(chunks: Seq<ChunkData>)
    ensures
        sheets_of(chunks).len() > 0,
        rows_in(sheets_of(chunks).last()) <= rows_in(chunks),
    decreases chunks.len(),
{
    if chunks.len() > 0 {
        rows_of_sheet_bounded(chunks.drop_last());
        let sheets = sheets_of(chunks.drop_last());
        let one = seq![chunks.last()];
        assert(one.drop_last() == Seq::<ChunkData>::empty());
        assert(rows_in(one.drop_last()) == 0);
        assert(sheets.last().push(chunks.last()).drop_last() == sheets.last());
    }
}

/// The archive's last sheet as it stands, closed.
spec fn with_last_closed(names: Seq<Seq<char>>, chunks: Seq<ChunkData>) -> Archive {
    let sheets = sheets_of(chunks);
    leading_parts() + Seq::new(
        sheets.len(),
        |i: int| sheet_with(stream_head(names), sheets, i, true),
    )
}

/// Appending what closes a sheet closes the last one.
proof fn last_sheet_closes(names: Seq<Seq<char>>, chunks: Seq<ChunkData>)
    ensures
        ({
            let a = open_archive(names, chunks);
            a.drop_last().push((a.last().0, a.last().1 + encode_utf8(SHEET_CLOSE@)))
                == with_last_closed(names, chunks)
        }),
{
    some_sheet(chunks);
    let sheets = sheets_of(chunks);
    let head = stream_head(names);
    let a = open_archive(names, chunks);
    let b = with_last_closed(names, chunks);
    let k = sheets.len() - 1;
    let close = encode_utf8(SHEET_CLOSE@);
    assert(a.last() == sheet_with(head, sheets, k, false));
    assert(b.last() == sheet_with(head, sheets, k, true));
    assert(head + data_in(sheets[k]) + Seq::<u8>::empty() + close == head + data_in(sheets[k])
        + close);
    assert forall|i: int| 0 <= i < a.len() - 1 implies a[i] == b[i] by {
        if i >= leading_parts().len() {
            let j = i - leading_parts().len();
            assert(a[i] == sheet_with(head, sheets, j, true));
            assert(b[i] == sheet_with(head, sheets, j, true));
        }
    }
    assert(a.drop_last() == b.drop_last());
    assert(b == b.drop_last().push(b.last()));
}

/// A chunk that joins the last sheet is appended to it.
proof fn chunk_joins_sheet(names: Seq<Seq<char>>, chunks: Seq<ChunkData>, chunk: ChunkData)
    requires
        rows_in(sheets_of(chunks).last()) + chunk.0 <= MAX_ROWS_PER_SHEET,
    ensures
        ({
            let a = open_archive(names, chunks);
            a.drop_last().push((a.last().0, a.last().1 + chunk.1)) == open_archive(
                names,
                chunks.push(chunk),
            )
        }),
{
    some_sheet(chunks);
    let more = chunks.push(chunk);
    assert(more.drop_last() == chunks);
    let s = sheets_of(chunks);
    let t = sheets_of(more);
    let head = stream_head(names);
    let a = open_archive(names, chunks);
    let b = open_archive(names, more);
    let k = s.len() - 1;
    assert(t == s.drop_last().push(s.last().push(chunk)));
    assert(a.last() == sheet_with(head, s, k, false));
    assert(b.last() == sheet_with(head, t, k, false));
    assert(t[k] == s[k].push(chunk));
    assert(t[k].drop_last() == s[k]);
    assert(data_in(t[k]) == data_in(s[k]) + chunk.1);
    assert(head + data_in(s[k]) + Seq::<u8>::empty() + chunk.1 == head + (data_in(s[k]) + chunk.1)
        + Seq::<u8>::empty());
    assert forall|i: int| 0 <= i < a.len() - 1 implies a[i] == b[i] by {
        if i >= leading_parts().len() {
            let j = i - leading_parts().len();
            assert(s[j] == t[j]);
            assert(a[i] == sheet_with(head, s, j, true));
            assert(b[i] == sheet_with(head, t, j, true));
        }
    }
    assert(a.drop_last() == b.drop_last());
    assert(b == b.drop_last().push(b.last()));
}

/// A chunk that starts a sheet closes the one before it.
proof fn chunk_starts_sheet(names: Seq<Seq<char>>, chunks: Seq<ChunkData>, chunk: ChunkData)
    requires
        rows_in(sheets_of(chunks).last()) + chunk.0 > MAX_ROWS_PER_SHEET,
    ensures
        ({
            let a = open_archive(names, chunks);
            let n = sheets_of(chunks).len();
            let closed = a.drop_last().push((a.last().0, a.last().1 + encode_utf8(SHEET_CLOSE@)));
            let started = closed.push((sheet_part(n + 1), stream_head(names)));
            started.drop_last().push((started.last().0, started.last().1 + chunk.1))
                == open_archive(names, chunks.push(chunk))
        }),
{
    some_sheet(chunks);
    last_sheet_closes(names, chunks);
    let more = chunks.push(chunk);
    assert(more.drop_last() == chunks);
    let s = sheets_of(chunks);
    let one = seq![chunk];
    let t = sheets_of(more);
    assert(t == s.push(one));
    let head = stream_head(names);
    let c = with_last_closed(names, chunks);
    let b = open_archive(names, more);
    let k = s.len() as int;
    assert(one.drop_last() == Seq::<ChunkData>::empty());
    assert(data_in(one.drop_last()) == Seq::<u8>::empty());
    assert(data_in(one) == chunk.1);
    assert(b.last() == sheet_with(head, t, k, false));
    assert(head + data_in(one) + Seq::<u8>::empty() == head + chunk.1);
    assert forall|i: int| 0 <= i < c.len() implies c[i] == b[i] by {
        if i >= leading_parts().len() {
            let j = i - leading_parts().len();
            assert(s[j] == t[j]);
            assert(c[i] == sheet_with(head, s, j, true));
            assert(b[i] == sheet_with(head, t, j, true));
        }
    }
    assert(b.drop_last() == c);
    assert(b == b.drop_last().push(b.last()));
    let started = c.push((sheet_part(s.len() + 1), head));
    assert(started.drop_last() == c);
}

// ---------------------------------------------------------------------------
// Laws
// ---------------------------------------------------------------------------

/// Law: no sheet holds more rows than its limit, as long as no single chunk does.
pub proof fn sheets_stay_in_limit(chunks: Seq<ChunkData>)
    requires
        forall|i: int| 0 <= i < chunks.len() ==> (#[trigger] chunks[i]).0 <= MAX_ROWS_PER_SHEET,
    ensures
        forall|i: int|
            0 <= i < sheets_of(chunks).len() ==> rows_in(#[trigger] sheets_of(chunks)[i])
                <= MAX_ROWS_PER_SHEET,
    decreases chunks.len(),
{
    if chunks.len() > 0 {
        let front = chunks.drop_last();
        let s = sheets_of(front);
        let t = sheets_of(chunks);
        let chunk = chunks.last();
        assert forall|i: int| 0 <= i < front.len() implies (#[trigger] front[i]).0
            <= MAX_ROWS_PER_SHEET by {
            assert(front[i] == chunks[i]);
        }
        assert(chunks[chunks.len() - 1].0 <= MAX_ROWS_PER_SHEET);
        some_sheet(front);
        sheets_stay_in_limit(front);
        let one = seq![chunk];
        assert(one.drop_last() == Seq::<ChunkData>::empty());
        assert(rows_in(one.drop_last()) == 0);
        assert(s.last().push(chunk).drop_last() == s.last());
        assert forall|i: int| 0 <= i < t.len() implies rows_in(#[trigger] t[i])
            <= MAX_ROWS_PER_SHEET by {
            if i < s.len() - 1 {
                assert(t[i] == s[i]);
            } else if i == s.len() - 1 && rows_in(s.last()) + chunk.0 > MAX_ROWS_PER_SHEET {
                assert(t[i] == s[i]);
            }
        }
    }
}

/// Law: the sheets hold all chunks, in order, each once.
pub proof fn sheets_keep_chunks(chunks: Seq<ChunkData>)
    ensures
        sheets_of(chunks).flatten() == chunks,
    decreases chunks.len(),
{
    if chunks.len() == 0 {
        let none: Seq<ChunkData> = Seq::empty();
        let s: Seq<Seq<ChunkData>> = seq![none];
        assert(s.drop_first() == Seq::<Seq<ChunkData>>::empty());
        assert(s.drop_first().flatten() == none);
        assert(s.flatten() == none);
    } else {
        let front = chunks.drop_last();
        let chunk = chunks.last();
        let s = sheets_of(front);
        some_sheet(front);
        sheets_keep_chunks(front);
        assert(chunks == front.push(chunk));
        if rows_in(s.last()) + chunk.0 > MAX_ROWS_PER_SHEET {
            s.lemma_flatten_push(seq![chunk]);
        } else {
            let rest = s.drop_last();
            rest.lemma_flatten_push(s.last());
            rest.lemma_flatten_push(s.last().push(chunk));
            assert(s == rest.push(s.last()));
            assert(rest.flatten() + s.last().push(chunk) == (rest.flatten() + s.last()).push(chunk));
        }
    }
}

/// The chunks that hold the rows of some groups of records.
pub open spec fn chunks_of(groups: Seq<Seq<Seq<Seq<u8>>>>, types: Seq<ColType>) -> Seq<ChunkData> {
    groups.map_values(|g: Seq<Seq<Seq<u8>>>| (g.len(), encode_utf8(pipe_rows(g, types))))
}

/// The bytes of chunks are the rows of their records.
proof fn chunk_data_is_rows(groups: Seq<Seq<Seq<Seq<u8>>>>, types: Seq<ColType>)
    ensures
        data_in(chunks_of(groups, types)) == encode_utf8(pipe_rows(groups.flatten(), types)),
        rows_in(chunks_of(groups, types)) == groups.flatten().len(),
    decreases groups.len(),
{
    if groups.len() == 0 {
        let none: Seq<Seq<Seq<u8>>> = Seq::empty();
        assert(groups.flatten() == none);
        assert(pipe_rows(none, types) == Seq::<char>::empty());
    } else {
        let front = groups.drop_last();
        let g = groups.last();
        chunk_data_is_rows(front, types);
        assert(groups == front.push(g));
        front.lemma_flatten_push(g);
        assert(chunks_of(groups, types).drop_last() == chunks_of(front, types));
        pipe_rows_concat(front.flatten(), g, types);
        encode_concat(pipe_rows(front.flatten(), types), pipe_rows(g, types));
    }
}

/// Law: a sheet into which groups of records went, chunk by chunk, is the UTF-8 of the
/// streamed sheet of all these records, and holds one row for each.
pub proof fn sheet_is_text(
    names: Seq<Seq<char>>,
    groups: Seq<Seq<Seq<Seq<u8>>>>,
    types: Seq<ColType>,
)
    ensures
        stream_head(names) + data_in(chunks_of(groups, types)) + encode_utf8(SHEET_CLOSE@)
            == encode_utf8(pipe_sheet(names, groups.flatten(), types)),
        rows_in(chunks_of(groups, types)) == groups.flatten().len(),
{
    let head = sheet_head(Seq::empty(), names);
    let rows = pipe_rows(groups.flatten(), types);
    chunk_data_is_rows(groups, types);
    encode_concat(head, rows);
    encode_concat(head + rows, SHEET_CLOSE@);
}

/// How groups of records are laid out over sheets, chunk by chunk.
pub open spec fn sheet_groups(groups: Seq<Seq<Seq<Seq<u8>>>>) -> Seq<Seq<Seq<Seq<Seq<u8>>>>>
    decreases groups.len(),
{
    if groups.len() == 0 {
        seq![Seq::empty()]
    } else {
        let sheets = sheet_groups(groups.drop_last());
        let g = groups.last();
        if sheets.last().flatten().len() + g.len() > MAX_ROWS_PER_SHEET {
            sheets.push(seq![g])
        } else {
            sheets.drop_last().push(sheets.last().push(g))
        }
    }
}

/// Chunks are laid out over sheets as their records are.
proof fn sheets_follow_groups(groups: Seq<Seq<Seq<Seq<u8>>>>, types: Seq<ColType>)
    ensures
        sheet_groups(groups).len() > 0,
        sheets_of(chunks_of(groups, types)) == sheet_groups(groups).map_values(
            |s: Seq<Seq<Seq<Seq<u8>>>>| chunks_of(s, types),
        ),
        sheet_groups(groups).flatten() == groups,
    decreases groups.len(),
{
    let f = |s: Seq<Seq<Seq<Seq<u8>>>>| chunks_of(s, types);
    let sheets = sheet_groups(groups);
    if groups.len() == 0 {
        let none: Seq<Seq<Seq<Seq<u8>>>> = Seq::empty();
        assert(chunks_of(groups, types) == Seq::<ChunkData>::empty());
        assert(f(none) == Seq::<ChunkData>::empty());
        assert(sheets.map_values(f) == seq![f(none)]);
        assert(sheets.drop_first() == Seq::<Seq<Seq<Seq<Seq<u8>>>>>::empty());
        assert(sheets.drop_first().flatten() == none);
        assert(sheets.flatten() == none);
    } else {
        let front = groups.drop_last();
        let g = groups.last();
        let s = sheet_groups(front);
        let all = chunks_of(groups, types);
        let chunk: ChunkData = (g.len(), encode_utf8(pipe_rows(g, types)));
        sheets_follow_groups(front, types);
        assert(groups == front.push(g));
        assert(all.drop_last() == chunks_of(front, types));
        assert(all.last() == chunk);
        chunk_data_is_rows(s.last(), types);
        assert(s.map_values(f).last() == f(s.last()));
        if s.last().flatten().len() + g.len() > MAX_ROWS_PER_SHEET {
            assert(f(seq![g]) == seq![chunk]);
            assert(s.push(seq![g]).map_values(f) == s.map_values(f).push(f(seq![g])));
            s.lemma_flatten_push(seq![g]);
        } else {
            let rest = s.drop_last();
            let grown = s.last().push(g);
            assert(f(grown) == f(s.last()).push(chunk));
            assert(rest.push(grown).map_values(f) == s.map_values(f).drop_last().push(f(grown)));
            rest.lemma_flatten_push(s.last());
            rest.lemma_flatten_push(grown);
            assert(s == rest.push(s.last()));
            assert(rest.flatten() + grown == (rest.flatten() + s.last()).push(g));
        }
    }
}

/// Law: the workbook of a stream. Its sheets, from the first to the last, are the streamed
/// sheets of the stream's records, laid out group by group; every record is in one of them, in
/// order; and the last parts list exactly these sheets.
pub proof fn streamed_workbook_holds_records(
    names: Seq<Seq<char>>,
    groups: Seq<Seq<Seq<Seq<u8>>>>,
    types: Seq<ColType>,
)
    ensures
        ({
            let sheets = sheet_groups(groups);
            &&& finished_archive(names, chunks_of(groups, types)) == leading_parts() + Seq::new(
                sheets.len(),
                |i: int|
                    (
                        sheet_part((i + 1) as nat),
                        encode_utf8(pipe_sheet(names, sheets[i].flatten(), types)),
                    ),
            ) + listing_parts(sheets.len(), "\n"@)
            &&& sheets.flatten() == groups
        }),
{
    let sheets = sheet_groups(groups);
    let chunks = chunks_of(groups, types);
    let placed = sheets_of(chunks);
    let head = stream_head(names);
    sheets_follow_groups(groups, types);
    assert(placed.len() == sheets.len());
    let a = Seq::new(placed.len(), |i: int| sheet_with(head, placed, i, true));
    let b = Seq::new(
        sheets.len(),
        |i: int|
            (
                sheet_part((i + 1) as nat),
                encode_utf8(pipe_sheet(names, sheets[i].flatten(), types)),
            ),
    );
    assert forall|i: int| 0 <= i < a.len() implies a[i] == b[i] by {
        assert(placed[i] == chunks_of(sheets[i], types));
        sheet_is_text(names, sheets[i], types);
    }
    assert(a == b);
}

} // verus!
