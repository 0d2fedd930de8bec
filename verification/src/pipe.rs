//! The producing end of a stream: records come in one by one, chunks of rows go out.
//!
//! Records that repeat the header are dropped. Unless the types of the columns are
//! declared, the first records are held back until they show what the types are.

use vstd::prelude::*;
use vstd::string::*;
use vstd::utf8::encode_utf8;
use crate::columns::{classify_byte_columns, sampled_types, texts_of, ColType};
use crate::render::{fits, pipe_row, pipe_rows, push_pipe_row};

verus! {

broadcast use vstd::string::group_string_axioms;

/// How many records are looked at to find the types of the columns.
pub const SAMPLE_RECORDS: usize = 300;

/// How many rows a chunk holds; only the last one may hold fewer.
pub const CHUNK_ROWS: usize = 25_000;

/// What the producing end sends to the writing end.
pub enum PipeStreamMessage {
    /// The names of the columns.
    Header(Vec<String>),
    /// Some rows, as UTF-8.
    Chunk { rows_count: usize, xml_data: Vec<u8> },
}

/// The message is a chunk of `rows` rows with the given text.
pub open spec fn is_chunk(m: PipeStreamMessage, rows: nat, text: Seq<char>) -> bool {
    m matches PipeStreamMessage::Chunk { rows_count, xml_data } && rows_count == rows && xml_data@
        == encode_utf8(text)
}

/// What is handed out, if anything: the number of its rows, and its bytes.
pub open spec fn message_data(r: Option<PipeStreamMessage>) -> Seq<(nat, Seq<u8>)> {
    match r {
        Some(PipeStreamMessage::Chunk { rows_count, xml_data }) => seq![
            (rows_count as nat, xml_data@),
        ],
        _ => Seq::empty(),
    }
}

/// The types of `n` columns: as declared, or as the first records show them.
pub open spec fn stream_types(
    declared: Option<Seq<ColType>>,
    kept: Seq<Seq<Seq<u8>>>,
    n: nat,
) -> Seq<ColType> {
    match declared {
        Some(types) => types,
        None => sampled_types(
            texts_of(
                if kept.len() < SAMPLE_RECORDS {
                    kept
                } else {
                    kept.take(SAMPLE_RECORDS as int)
                },
            ),
            n,
        ),
    }
}

/// The names of the columns as bytes.
pub open spec fn header_bytes(names: Seq<Seq<char>>) -> Seq<Seq<u8>> {
    names.map_values(|name: Seq<char>| encode_utf8(name))
}

/// The producing end of a stream.
pub struct PipeProducer {
    header: Vec<Vec<u8>>,
    col_types: Vec<ColType>,
    classified: bool,
    sample: Vec<Vec<Vec<u8>>>,
    buf: String,
    row_count: usize,
    came: Ghost<Seq<Seq<Seq<u8>>>>,
    declared: Ghost<Option<Seq<ColType>>>,
}

impl PipeProducer {
    /// The header, field by field.
    pub closed spec fn header(&self) -> Seq<Seq<u8>> {
        self.header.deep_view()
    }

    /// The records that came in so far.
    pub closed spec fn came(&self) -> Seq<Seq<Seq<u8>>> {
        self.came@
    }

    /// The records that came in so far, without those that repeat the header.
    pub open spec fn kept(&self) -> Seq<Seq<Seq<u8>>> {
        without_headers(self.header(), self.came())
    }

    /// The types of the columns, where they are declared.
    pub closed spec fn declared(&self) -> Option<Seq<ColType>> {
        self.declared@
    }

    /// The types of the columns as they stand after the records so far.
    pub open spec fn types(&self) -> Seq<ColType> {
        stream_types(self.declared(), self.kept(), self.header().len())
    }

    /// What is held back: the sample until the types are known, and then the rows of the
    /// chunk that is being filled.
    pub closed spec fn valid(&self) -> bool {
        let n = self.header@.len();
        let kept = self.kept();
        &&& self.header().len() == n
        &&& forall|i: int| 0 <= i < kept.len() ==> fits(#[trigger] kept[i], n)
        &&& self.declared@ matches Some(types) ==> types.len() == n && self.classified
        &&& if self.classified {
            &&& self.sample@.len() == 0
            &&& self.declared@ is None ==> kept.len() >= SAMPLE_RECORDS
            &&& self.col_types@ == self.types()
            &&& self.row_count == kept.len() % (CHUNK_ROWS as nat)
            &&& self.buf@ == pipe_rows(kept.skip(kept.len() - self.row_count), self.col_types@)
        } else {
            &&& self.sample.deep_view() == kept
            &&& kept.len() < SAMPLE_RECORDS
            &&& self.row_count == 0
            &&& self.buf@ == Seq::<char>::empty()
        }
    }

    /// A producer for a stream with the given header. With declared types nothing is held
    /// back to find them.
    pub fn new(names: &Vec<String>, declared: Option<Vec<ColType>>) -> (p: Self)
        requires
            declared matches Some(types) ==> types@.len() == names@.len(),
        ensures
            p.valid(),
            p.header() == header_bytes(names.deep_view()),
            p.came() == Seq::<Seq<Seq<u8>>>::empty(),
            p.declared() == match declared {
                Some(types) => Some(types@),
                None => None,
            },
    {
        let mut header: Vec<Vec<u8>> = Vec::new();
        let ghost expected = header_bytes(names.deep_view());
        for i in 0..names.len()
            invariant
                expected == header_bytes(names.deep_view()),
                header@.len() == i,
                forall|j: int| 0 <= j < i ==> (#[trigger] header@[j])@ == expected[j],
        {
            assert(names.deep_view()[i as int] == names@[i as int]@);
            header.push(names[i].clone().into_bytes());
        }
        assert(header.deep_view() == expected) by {
            assert forall|j: int| 0 <= j < expected.len() implies header.deep_view()[j]
                == expected[j] by {
                assert(header@[j].deep_view() == header@[j]@);
            }
        }
        let ghost none: Seq<Seq<Seq<u8>>> = Seq::empty();
        let p = match declared {
            Some(types) => PipeProducer {
                header,
                col_types: types,
                classified: true,
                sample: Vec::new(),
                buf: String::new(),
                row_count: 0,
                came: Ghost(none),
                declared: Ghost(Some(types@)),
            },
            None => PipeProducer {
                header,
                col_types: Vec::new(),
                classified: false,
                sample: Vec::new(),
                buf: String::new(),
                row_count: 0,
                came: Ghost(none),
                declared: Ghost(None),
            },
        };
        assert(p.sample.deep_view() == none);
        assert(pipe_rows(none.skip(0), p.col_types@) == Seq::<char>::empty());
        p
    }

    /// The number of columns.
    pub fn columns(&self) -> (n: usize)
        requires
            self.valid(),
        ensures
            n == self.header().len(),
    {
        self.header.len()
    }

    /// Whether a record repeats the header.
    fn repeats_header(&self, record: &Vec<Vec<u8>>) -> (r: bool)
        requires
            self.valid(),
        ensures
            r == (record.deep_view() == self.header()),
    {
        let ghost a = record.deep_view();
        let ghost b = self.header();
        if record.len() != self.header.len() {
            assert(a.len() != b.len());
            return false;
        }
        for i in 0..record.len()
            invariant
                a == record.deep_view(),
                b == self.header.deep_view(),
                record@.len() == self.header@.len(),
                forall|j: int| 0 <= j < i ==> a[j] == b[j],
        {
            assert(a[i as int] == record@[i as int]@) by {
                assert(record@[i as int].deep_view() == record@[i as int]@);
            }
            assert(b[i as int] == self.header@[i as int]@) by {
                assert(self.header@[i as int].deep_view() == self.header@[i as int]@);
            }
            if !same_bytes(&record[i], &self.header[i]) {
                return false;
            }
        }
        assert(a == b);
        true
    }

    /// Finds the types of the columns from the sample and renders it.
    fn classify(&mut self)
        requires
            old(self).header().len() == old(self).header@.len(),
            !old(self).classified,
            old(self).declared@ is None,
            old(self).sample.deep_view() == old(self).kept(),
            old(self).kept().len() <= SAMPLE_RECORDS,
            old(self).row_count == 0,
            old(self).buf@ == Seq::<char>::empty(),
            forall|i: int|
                0 <= i < old(self).kept().len() ==> fits(
                    #[trigger] old(self).kept()[i],
                    old(self).header@.len(),
                ),
        ensures
            final(self).header == old(self).header,
            final(self).came == old(self).came,
            final(self).declared == old(self).declared,
            final(self).classified,
            final(self).sample@.len() == 0,
            final(self).col_types@ == old(self).types(),
            final(self).row_count == old(self).kept().len(),
            final(self).buf@ == pipe_rows(old(self).kept(), old(self).types()),
    {
        let ghost kept = self.kept();
        let ghost types = self.types();
        let n = self.header.len();
        assert(kept.len() == SAMPLE_RECORDS ==> kept.take(SAMPLE_RECORDS as int) == kept);
        self.col_types = classify_byte_columns(&self.sample, n);
        assert(self.col_types@ == types);
        let mut buf = String::new();
        assert(pipe_rows(kept.take(0), types) == Seq::<char>::empty());
        assert(self.sample@.len() == kept.len());
        let count: usize = self.sample.len();
        for i in 0..count
            invariant
                count == self.sample@.len(),
                kept == self.sample.deep_view(),
                self.col_types@ == types,
                types.len() == n,
                forall|i: int| 0 <= i < kept.len() ==> fits(#[trigger] kept[i], n as nat),
                buf@ == pipe_rows(kept.take(i as int), types),
        {
            assert(kept[i as int] == self.sample@[i as int].deep_view());
            push_pipe_row(&mut buf, &self.sample[i], &self.col_types);
            proof {
                pipe_rows_push(kept.take(i as int), kept[i as int], types);
                assert(kept.take(i + 1) == kept.take(i as int).push(kept[i as int]));
            }
        }
        assert(kept.take(kept.len() as int) == kept);
        self.buf = buf;
        self.row_count = count;
        self.sample = Vec::new();
        self.classified = true;
    }

    /// Takes the next record. One that repeats the header is dropped; each other becomes a
    /// row. When a chunk is full, it is handed out.
    pub fn push_record(&mut self, record: Vec<Vec<u8>>) -> (r: Option<PipeStreamMessage>)
        requires
            old(self).valid(),
            fits(record.deep_view(), old(self).header().len()),
        ensures
            final(self).valid(),
            final(self).header() == old(self).header(),
            final(self).declared() == old(self).declared(),
            final(self).came() == old(self).came().push(record.deep_view()),
            final(self).kept() == final(self).came().filter(
                |r: Seq<Seq<u8>>| r != final(self).header(),
            ),
            handed_out(final(self).header(), final(self).declared(), final(self).came())
                == handed_out(old(self).header(), old(self).declared(), old(self).came())
                + message_data(r),
            ({
                let kept = final(self).kept();
                if record.deep_view() != old(self).header() && kept.len() % (CHUNK_ROWS as nat)
                    == 0 {
                    &&& r is Some
                    &&& is_chunk(
                        r->0,
                        CHUNK_ROWS as nat,
                        pipe_rows(kept.skip(kept.len() - CHUNK_ROWS), final(self).types()),
                    )
                } else {
                    r is None
                }
            }),
    {
        let ghost before = self.kept();
        let ghost earlier: Seq<Seq<Seq<u8>>> = self.came@;
        let ghost came = earlier.push(record.deep_view());
        assert(came.drop_last() =~= earlier);
        let ghost h = self.header();
        let ghost d = self.declared();
        proof {
            all_but_headers_are_kept(h, came);
        }
        if self.repeats_header(&record) {
            self.came = Ghost(came);
            assert(self.kept() == before);
            assert(handed_out(h, d, came) == handed_out(h, d, earlier) + message_data(None));
            return None;
        }
        let ghost fields = record.deep_view();
        let ghost n = self.header@.len();
        let ghost kept = before.push(fields);
        assert(self.header().len() == n);
        assert forall|i: int| 0 <= i < kept.len() implies fits(#[trigger] kept[i], n) by {
            if i < before.len() {
                assert(kept[i] == before[i]);
            }
        }
        if !self.classified {
            self.sample.push(record);
            self.came = Ghost(came);
            assert(self.kept() == kept);
            assert(self.sample.deep_view() == kept);
            if self.sample.len() >= SAMPLE_RECORDS {
                self.classify();
                assert(kept.skip(kept.len() - self.row_count) == kept);
            }
            assert(handed_out(h, d, came) == handed_out(h, d, earlier) + message_data(None));
            return None;
        }
        let ghost old_rows = before.skip(before.len() - self.row_count);
        let ghost rows = kept.skip(kept.len() - (self.row_count + 1));
        let ghost types = self.types();
        self.came = Ghost(came);
        assert(self.kept() == kept);
        assert(self.types() == types) by {
            if self.declared@ is None {
                assert(kept.take(SAMPLE_RECORDS as int) == before.take(SAMPLE_RECORDS as int));
            }
        }
        let mut buf = String::new();
        std::mem::swap(&mut buf, &mut self.buf);
        push_pipe_row(&mut buf, &record, &self.col_types);
        proof {
            pipe_rows_push(old_rows, fields, types);
            assert(rows == old_rows.push(fields));
        }
        self.row_count = self.row_count + 1;
        if self.row_count >= CHUNK_ROWS {
            let message = PipeStreamMessage::Chunk {
                rows_count: self.row_count,
                xml_data: buf.into_bytes(),
            };
            self.row_count = 0;
            assert(pipe_rows(kept.skip(kept.len() as int), types) == Seq::<char>::empty());
            proof {
                let text = pipe_rows(kept.skip(kept.len() - CHUNK_ROWS), types);
                assert(full_chunks(h, d, came) == full_chunks(h, d, earlier).push(text));
                assert(message_data(Some(message)) == seq![(CHUNK_ROWS as nat, encode_utf8(text))]);
                assert(handed_out(h, d, came) == handed_out(h, d, earlier) + message_data(
                    Some(message),
                ));
            }
            Some(message)
        } else {
            self.buf = buf;
            assert(handed_out(h, d, came) == handed_out(h, d, earlier) + message_data(None));
            None
        }
    }

    /// Ends the stream: hands out the rows that are left, if there are any.
    pub fn finish(self) -> (r: Option<PipeStreamMessage>)
        requires
            self.valid(),
        ensures
            handed_out(self.header(), self.declared(), self.came()) + message_data(r)
                == stream_data(self.header(), self.declared(), self.came()),
            ({
                let kept = self.kept();
                let left = kept.len() % (CHUNK_ROWS as nat);
                if left == 0 {
                    r is None
                } else {
                    &&& r is Some
                    &&& is_chunk(r->0, left, pipe_rows(kept.skip(kept.len() - left), self.types()))
                }
            }),
    {
        let mut p = self;
        let ghost kept = p.kept();
        if !p.classified && p.sample.len() > 0 {
            p.classify();
            assert(p.row_count == kept.len());
            assert(kept.skip(kept.len() - p.row_count) == kept);
        }
        let ghost out = handed_out(self.header(), self.declared(), self.came());
        let ghost all = stream_data(self.header(), self.declared(), self.came());
        if p.row_count > 0 {
            let ghost text = p.buf@;
            let ghost rows = p.row_count as nat;
            let message = PipeStreamMessage::Chunk {
                rows_count: p.row_count,
                xml_data: p.buf.into_bytes(),
            };
            assert(message_data(Some(message)) == seq![(rows, encode_utf8(text))]);
            assert(all == out + message_data(Some(message)));
            Some(message)
        } else {
            assert(all == out + message_data(None));
            None
        }
    }
}

/// One more record is one more row.
proof fn pipe_rows_push(records: Seq<Seq<Seq<u8>>>, record: Seq<Seq<u8>>, types: Seq<ColType>)
    ensures
        pipe_rows(records.push(record), types) == pipe_rows(records, types) + pipe_row(record, types),
{
    let f = |r: Seq<Seq<u8>>| pipe_row(r, types);
    assert(records.push(record).map_values(f) == records.map_values(f).push(f(record)));
    records.map_values(f).lemma_flatten_push(f(record));
}

/// Whether two fields hold the same bytes.
fn same_bytes(a: &Vec<u8>, b: &Vec<u8>) -> (r: bool)
    ensures
        r == (a@ == b@),
{
    if a.len() != b.len() {
        return false;
    }
    for i in 0..a.len()
        invariant
            a@.len() == b@.len(),
            forall|j: int| 0 <= j < i ==> a@[j] == b@[j],
    {
        if a[i] != b[i] {
            return false;
        }
    }
    assert(a@ == b@);
    true
}

// ---------------------------------------------------------------------------
// Whole streams
// ---------------------------------------------------------------------------

/// The records of a stream that do not repeat its header.
pub open spec fn without_headers(header: Seq<Seq<u8>>, records: Seq<Seq<Seq<u8>>>) -> Seq<
    Seq<Seq<u8>>,
>
    decreases records.len(),
{
    if records.len() == 0 {
        Seq::empty()
    } else {
        let front = without_headers(header, records.drop_last());
        if records.last() == header {
            front
        } else {
            front.push(records.last())
        }
    }
}

/// The texts of the chunks that `push_record` hands out while a stream comes in.
pub open spec fn full_chunks(
    header: Seq<Seq<u8>>,
    declared: Option<Seq<ColType>>,
    records: Seq<Seq<Seq<u8>>>,
) -> Seq<Seq<char>>
    decreases records.len(),
{
    if records.len() == 0 {
        Seq::empty()
    } else {
        let front = full_chunks(header, declared, records.drop_last());
        let kept = without_headers(header, records);
        if records.last() != header && kept.len() % (CHUNK_ROWS as nat) == 0 {
            front.push(
                pipe_rows(
                    kept.skip(kept.len() - CHUNK_ROWS),
                    stream_types(declared, kept, header.len()),
                ),
            )
        } else {
            front
        }
    }
}

/// The text of the rows that `finish` hands out at the end of a stream.
pub open spec fn last_rows(
    header: Seq<Seq<u8>>,
    declared: Option<Seq<ColType>>,
    records: Seq<Seq<Seq<u8>>>,
) -> Seq<char> {
    let kept = without_headers(header, records);
    let left = kept.len() % (CHUNK_ROWS as nat);
    pipe_rows(kept.skip(kept.len() - left), stream_types(declared, kept, header.len()))
}

/// The rows of two groups of records are the rows of both.
pub proof fn pipe_rows_concat(
    a: Seq<Seq<Seq<u8>>>,
    b: Seq<Seq<Seq<u8>>>,
    types: Seq<ColType>,
)
    ensures
        pipe_rows(a + b, types) == pipe_rows(a, types) + pipe_rows(b, types),
{
    let f = |r: Seq<Seq<u8>>| pipe_row(r, types);
    assert((a + b).map_values(f) == a.map_values(f) + b.map_values(f));
    vstd::seq_lib::lemma_flatten_concat(a.map_values(f), b.map_values(f));
}

/// The records of each chunk that `push_record` hands out while a stream comes in.
pub open spec fn full_groups(header: Seq<Seq<u8>>, records: Seq<Seq<Seq<u8>>>) -> Seq<
    Seq<Seq<Seq<u8>>>,
>
    decreases records.len(),
{
    if records.len() == 0 {
        Seq::empty()
    } else {
        let front = full_groups(header, records.drop_last());
        let kept = without_headers(header, records);
        if records.last() != header && kept.len() % (CHUNK_ROWS as nat) == 0 {
            front.push(kept.skip(kept.len() - CHUNK_ROWS))
        } else {
            front
        }
    }
}

/// The records whose rows `finish` hands out at the end of a stream.
pub open spec fn last_group(header: Seq<Seq<u8>>, records: Seq<Seq<Seq<u8>>>) -> Seq<Seq<Seq<u8>>> {
    let kept = without_headers(header, records);
    kept.skip(kept.len() - kept.len() % (CHUNK_ROWS as nat))
}

/// All chunks of a stream, from first to last, with the number of rows and the text of each.
pub open spec fn stream_chunks(
    header: Seq<Seq<u8>>,
    declared: Option<Seq<ColType>>,
    records: Seq<Seq<Seq<u8>>>,
) -> Seq<(nat, Seq<char>)> {
    let left = without_headers(header, records).len() % (CHUNK_ROWS as nat);
    full_chunks(header, declared, records).map_values(|text: Seq<char>| (CHUNK_ROWS as nat, text))
        + if left == 0 {
        Seq::empty()
    } else {
        seq![(left, last_rows(header, declared, records))]
    }
}

/// What `push_record` hands out while a stream comes in: the rows and bytes of each chunk.
pub open spec fn handed_out(
    header: Seq<Seq<u8>>,
    declared: Option<Seq<ColType>>,
    records: Seq<Seq<Seq<u8>>>,
) -> Seq<(nat, Seq<u8>)> {
    full_chunks(header, declared, records).map_values(
        |text: Seq<char>| (CHUNK_ROWS as nat, encode_utf8(text)),
    )
}

/// All that is handed out for a stream, from first to last: the rows and bytes of each chunk.
pub open spec fn stream_data(
    header: Seq<Seq<u8>>,
    declared: Option<Seq<ColType>>,
    records: Seq<Seq<Seq<u8>>>,
) -> Seq<(nat, Seq<u8>)> {
    stream_chunks(header, declared, records).map_values(
        |c: (nat, Seq<char>)| (c.0, encode_utf8(c.1)),
    )
}

/// Law: every record that came in stays, in order, unless it equals the header.
pub proof fn all_but_headers_are_kept(header: Seq<Seq<u8>>, records: Seq<Seq<Seq<u8>>>)
    ensures
        without_headers(header, records) == records.filter(|r: Seq<Seq<u8>>| r != header),
        without_headers(header, records).len() == records.len() - records.filter(
            |r: Seq<Seq<u8>>| r == header,
        ).len(),
    decreases records.len(),
{
    reveal(Seq::filter);
    if records.len() > 0 {
        all_but_headers_are_kept(header, records.drop_last());
    }
}

/// The records of each chunk of a stream, from first to last.
pub open spec fn stream_groups(header: Seq<Seq<u8>>, records: Seq<Seq<Seq<u8>>>) -> Seq<
    Seq<Seq<Seq<u8>>>,
> {
    let left = without_headers(header, records).len() % (CHUNK_ROWS as nat);
    full_groups(header, records) + if left == 0 {
        Seq::empty()
    } else {
        seq![last_group(header, records)]
    }
}

/// The groups that were handed out hold the records of all complete chunks, and the chunks
/// their rows.
proof fn full_groups_hold(
    header: Seq<Seq<u8>>,
    declared: Option<Seq<ColType>>,
    records: Seq<Seq<Seq<u8>>>,
)
    ensures
        ({
            let kept = without_headers(header, records);
            let types = stream_types(declared, kept, header.len());
            let done = kept.len() - kept.len() % (CHUNK_ROWS as nat);
            let groups = full_groups(header, records);
            &&& groups.len() * CHUNK_ROWS == done
            &&& groups.flatten() == kept.take(done)
            &&& forall|i: int| 0 <= i < groups.len() ==> (#[trigger] groups[i]).len() == CHUNK_ROWS
            &&& full_chunks(header, declared, records) == groups.map_values(
                |g: Seq<Seq<Seq<u8>>>| pipe_rows(g, types),
            )
        }),
    decreases records.len(),
{
    let kept = without_headers(header, records);
    let types = stream_types(declared, kept, header.len());
    let groups = full_groups(header, records);
    let done = kept.len() - kept.len() % (CHUNK_ROWS as nat);
    if records.len() == 0 {
        assert(groups.flatten() == kept.take(0));
    } else {
        let earlier = without_headers(header, records.drop_last());
        let earlier_types = stream_types(declared, earlier, header.len());
        let front = full_groups(header, records.drop_last());
        full_groups_hold(header, declared, records.drop_last());
        if records.last() != header {
            let earlier_done = earlier.len() - earlier.len() % (CHUNK_ROWS as nat);
            assert(kept == earlier.push(records.last()));
            if earlier_done > 0 {
                assert(kept.take(SAMPLE_RECORDS as int) == earlier.take(SAMPLE_RECORDS as int));
                assert(earlier_types == types);
            }
            let f = |g: Seq<Seq<Seq<u8>>>| pipe_rows(g, types);
            let f0 = |g: Seq<Seq<Seq<u8>>>| pipe_rows(g, earlier_types);
            assert(front.map_values(f) == front.map_values(f0));
            assert(kept.take(earlier_done) == earlier.take(earlier_done));
            if kept.len() % (CHUNK_ROWS as nat) == 0 {
                let piece = kept.skip(kept.len() - CHUNK_ROWS);
                assert(earlier_done == kept.len() - CHUNK_ROWS);
                assert(kept.take(done) == kept.take(earlier_done) + piece);
                front.lemma_flatten_push(piece);
                assert(front.push(piece).map_values(f) == front.map_values(f).push(f(piece)));
            } else {
                assert(done == earlier_done);
            }
        }
    }
}

/// Law: the chunks of a stream hold the row of every record that does not repeat the
/// header, in order, each once, and nothing else; each says how many rows it holds; and each
/// but the last holds the full number.
pub proof fn stream_keeps_every_row(
    header: Seq<Seq<u8>>,
    declared: Option<Seq<ColType>>,
    records: Seq<Seq<Seq<u8>>>,
)
    ensures
        ({
            let kept = without_headers(header, records);
            let types = stream_types(declared, kept, header.len());
            let groups = stream_groups(header, records);
            &&& groups.flatten() == kept
            &&& stream_chunks(header, declared, records) == groups.map_values(
                |g: Seq<Seq<Seq<u8>>>| (g.len(), pipe_rows(g, types)),
            )
            &&& forall|i: int|
                0 <= i < groups.len() ==> 0 < (#[trigger] groups[i]).len() <= CHUNK_ROWS && (i
                    < groups.len() - 1 ==> groups[i].len() == CHUNK_ROWS)
        }),
{
    let kept = without_headers(header, records);
    let types = stream_types(declared, kept, header.len());
    let groups = stream_groups(header, records);
    let full = full_groups(header, records);
    let left = kept.len() % (CHUNK_ROWS as nat);
    let done = kept.len() - left;
    full_groups_hold(header, declared, records);
    assert(kept == kept.take(done) + kept.skip(done));
    let f = |g: Seq<Seq<Seq<u8>>>| (g.len(), pipe_rows(g, types));
    if left > 0 {
        let last = last_group(header, records);
        full.lemma_flatten_push(last);
        assert(groups == full.push(last));
    } else {
        assert(groups == full);
        assert(kept.take(done) == kept);
    }
    assert(stream_chunks(header, declared, records) == groups.map_values(f));
}

} // verus!
