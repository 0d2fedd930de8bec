//! Comparing a workbook, cell by cell, with the records that it was made of.

use vstd::prelude::*;
use crate::number::{is_number, reads_as_number};
use crate::text::{
    chars_of, decode_field, occurs_at, same_text, stands_at, text_of, trim, trim_text,
};
use crate::xml::{rows_from, split_rows};

verus! {

broadcast use vstd::string::group_string_axioms;

// ---------------------------------------------------------------------------
// The sheets of an archive
// ---------------------------------------------------------------------------

/// How the name of a part that holds a sheet starts.
pub const SHEET_PART_START: &'static str = "xl/worksheets/sheet";

/// How the name of a part that holds a sheet ends.
pub const SHEET_PART_END: &'static str = ".xml";

/// A part of this name holds a sheet.
pub open spec fn is_sheet_part(name: Seq<char>) -> bool {
    &&& occurs_at(name, SHEET_PART_START@, 0)
    &&& occurs_at(name, SHEET_PART_END@, name.len() - SHEET_PART_END@.len())
}

/// The names of the parts that hold sheets.
pub open spec fn sheet_parts(names: Seq<Seq<char>>) -> Seq<Seq<char>> {
    names.filter(|name: Seq<char>| is_sheet_part(name))
}

/// `a` does not come after `b`: they are compared character by character, and a text comes before
/// those that it starts.
pub open spec fn text_le(a: Seq<char>, b: Seq<char>) -> bool
    decreases a.len(),
{
    a.len() == 0 || (b.len() > 0 && (a.first() < b.first() || (a.first() == b.first() && text_le(
        a.drop_first(),
        b.drop_first(),
    ))))
}

/// Texts that stand in order.
pub open spec fn in_text_order(texts: Seq<Seq<char>>) -> bool {
    forall|i: int, j: int|
        0 <= i < j < texts.len() ==> text_le(#[trigger] texts[i], #[trigger] texts[j])
}

/// Of two texts one does not come after the other.
pub proof fn text_le_total(a: Seq<char>, b: Seq<char>)
    ensures
        text_le(a, b) || text_le(b, a),
    decreases a.len(),
{
    if a.len() > 0 && b.len() > 0 {
        text_le_total(a.drop_first(), b.drop_first());
    }
}

/// The order of texts is transitive.
pub proof fn text_le_transitive(a: Seq<char>, b: Seq<char>, c: Seq<char>)
    requires
        text_le(a, b),
        text_le(b, c),
    ensures
        text_le(a, c),
    decreases a.len(),
{
    if a.len() > 0 && a.first() == b.first() && b.first() == c.first() {
        text_le_transitive(a.drop_first(), b.drop_first(), c.drop_first());
    }
}

/// Two texts of which neither comes after the other are the same.
pub proof fn text_le_antisymmetric(a: Seq<char>, b: Seq<char>)
    requires
        text_le(a, b),
        text_le(b, a),
    ensures
        a == b,
    decreases a.len(),
{
    if a.len() > 0 && b.len() > 0 {
        text_le_antisymmetric(a.drop_first(), b.drop_first());
        assert(a == seq![a.first()] + a.drop_first());
        assert(b == seq![b.first()] + b.drop_first());
    }
    assert(a == b);
}

/// Whether `a` does not come after `b`.
fn comes_first(a: &Vec<char>, b: &Vec<char>) -> (r: bool)
    ensures
        r == text_le(a@, b@),
{
    let mut i: usize = 0;
    assert(a@.skip(0) == a@);
    assert(b@.skip(0) == b@);
    while i < a.len() && i < b.len() && a[i] == b[i]
        invariant
            i <= a@.len(),
            i <= b@.len(),
            text_le(a@, b@) == text_le(a@.skip(i as int), b@.skip(i as int)),
        decreases a@.len() - i,
    {
        assert(a@.skip(i as int).drop_first() == a@.skip(i + 1));
        assert(b@.skip(i as int).drop_first() == b@.skip(i + 1));
        i = i + 1;
    }
    i >= a.len() || (i < b.len() && a[i] < b[i])
}

/// Whether a part of this name holds a sheet.
pub fn holds_sheet(name: &String) -> (r: bool)
    ensures
        r == is_sheet_part(name@),
{
    let chars = chars_of(name.as_str());
    let start = chars_of(SHEET_PART_START);
    let end = chars_of(SHEET_PART_END);
    stands_at(&chars, &start, 0) && chars.len() >= end.len() && stands_at(
        &chars,
        &end,
        chars.len() - end.len(),
    )
}

/// Puts a name where it belongs among names that stand in order.
fn insert_in_order(sorted: &mut Vec<String>, name: String)
    requires
        in_text_order(old(sorted).deep_view()),
    ensures
        in_text_order(final(sorted).deep_view()),
        final(sorted).deep_view().to_multiset() == old(sorted).deep_view().to_multiset().insert(name@),
{
    let ghost before = sorted.deep_view();
    let chars = chars_of(name.as_str());
    let mut at: usize = sorted.len();
    while at > 0 && !comes_first(&chars_of(sorted[at - 1].as_str()), &chars)
        invariant
            at <= sorted@.len(),
            before == sorted.deep_view(),
            chars@ == name@,
            forall|i: int| at <= i < before.len() ==> text_le(name@, #[trigger] before[i]),
        decreases at,
    {
        proof {
            assert(before[at - 1] == sorted@[at - 1]@);
            text_le_total(before[at - 1], name@);
        }
        at = at - 1;
    }
    assert forall|i: int| 0 <= i < at implies text_le(#[trigger] before[i], name@) by {
        assert(before[at - 1] == sorted@[at - 1]@);
        if i < at - 1 {
            text_le_transitive(before[i], before[at - 1], name@);
        }
    }
    let ghost text = name@;
    sorted.insert(at, name);
    proof {
        let after = sorted.deep_view();
        assert(after == before.insert(at as int, text));
        vstd::seq_lib::to_multiset_insert(before, at as int, text);
    }
}

/// The names of the parts that hold sheets, in order: sheet 10 comes before sheet 2.
pub fn select_worksheets(names: &Vec<String>) -> (sheets: Vec<String>)
    ensures
        in_text_order(sheets.deep_view()),
        forall|i: int, j: int|
            0 <= i < j < sheets@.len() ==> text_le(
                (#[trigger] sheets@[i])@,
                (#[trigger] sheets@[j])@,
            ),
        sheets.deep_view().to_multiset() == sheet_parts(names.deep_view()).to_multiset(),
        sheets.deep_view().to_multiset() == names.deep_view().filter(
            |name: Seq<char>| is_sheet_part(name),
        ).to_multiset(),
{
    let ghost all = names.deep_view();
    let ghost pred = |name: Seq<char>| is_sheet_part(name);
    let mut sheets: Vec<String> = Vec::new();
    assert(sheets.deep_view() == Seq::<Seq<char>>::empty());
    assert(all.take(0).filter(pred) == Seq::<Seq<char>>::empty()) by {
        reveal(Seq::filter);
    }
    for i in 0..names.len()
        invariant
            all == names.deep_view(),
            pred == (|name: Seq<char>| is_sheet_part(name)),
            in_text_order(sheets.deep_view()),
            sheets.deep_view().to_multiset() == all.take(i as int).filter(pred).to_multiset(),
    {
        proof {
            reveal(Seq::filter);
            let more = all.take(i + 1);
            assert(more.drop_last() == all.take(i as int));
            assert(more.last() == names@[i as int]@);
            let kept = all.take(i as int).filter(pred);
            vstd::seq_lib::to_multiset_build(kept, more.last());
        }
        if holds_sheet(&names[i]) {
            insert_in_order(&mut sheets, names[i].clone());
        }
    }
    assert(all.take(all.len() as int) == all);
    assert forall|i: int, j: int| 0 <= i < j < sheets@.len() implies text_le(
        (#[trigger] sheets@[i])@,
        (#[trigger] sheets@[j])@,
    ) by {
        assert(sheets.deep_view()[i] == sheets@[i]@);
        assert(sheets.deep_view()[j] == sheets@[j]@);
    }
    sheets
}

// ---------------------------------------------------------------------------
// The rows of a sheet
// ---------------------------------------------------------------------------

/// The first row of a sheet, which is its header, and the rows of data behind it.
pub fn read_sheet(sheet: &str) -> (r: (Option<String>, Vec<String>))
    ensures
        ({
            let rows = rows_from(sheet@, 0);
            if rows.len() == 0 {
                r.0 is None && r.1@.len() == 0
            } else {
                &&& r.0 is Some
                &&& (r.0->0)@ == rows[0]
                &&& r.1.deep_view() == rows.skip(1)
            }
        }),
{
    let mut rows = split_rows(sheet);
    let ghost all = rows.deep_view();
    if rows.len() == 0 {
        (None, rows)
    } else {
        let data = rows.split_off(1);
        assert(data.deep_view() == all.skip(1));
        assert(all[0] == rows@[0]@);
        let header = rows.pop();
        (header, data)
    }
}

// ---------------------------------------------------------------------------
// The record of a row
// ---------------------------------------------------------------------------

/// What happened on the way to the record of a row.
#[derive(Clone, Copy, PartialEq, Eq, Debug, Structural)]
pub enum FetchEvent {
    /// A row of data was found in the workbook.
    RowFound,
    /// The file that was asked for is open.
    FileOpened,
    /// The open file gave a record.
    RecordRead,
    /// The open file has no further record.
    FileEnded,
}

/// What is to be done next.
#[derive(Clone, Copy, PartialEq, Eq, Debug, Structural)]
pub enum FetchAction {
    /// Open the file of this index.
    OpenFile(usize),
    /// Read a record from the open file.
    ReadRecord,
    /// Compare the row with the record.
    CompareRow,
    /// The row has no record: count a mismatch, and compare the row with nothing.
    NoRecord,
}

/// How far the files have been read.
#[derive(Clone, Copy, PartialEq, Eq, Debug, Structural)]
pub struct RecordCursor {
    /// The number of files.
    pub files: usize,
    /// The file to open next.
    pub next_file: usize,
    /// The file before that one is open.
    pub open: bool,
}

/// What to do while no file is open.
pub open spec fn without_file(c: RecordCursor) -> FetchAction {
    if c.next_file < c.files {
        FetchAction::OpenFile(c.next_file)
    } else {
        FetchAction::NoRecord
    }
}

/// The cursor after an event, and what is to be done then.
pub open spec fn stepped(c: RecordCursor, event: FetchEvent) -> (RecordCursor, FetchAction) {
    match event {
        FetchEvent::RowFound => if c.open {
            (c, FetchAction::ReadRecord)
        } else {
            (c, without_file(c))
        },
        FetchEvent::FileOpened => (
            RecordCursor { files: c.files, next_file: (c.next_file + 1) as usize, open: true },
            FetchAction::ReadRecord,
        ),
        FetchEvent::RecordRead => (c, FetchAction::CompareRow),
        FetchEvent::FileEnded => {
            let closed = RecordCursor { files: c.files, next_file: c.next_file, open: false };
            (closed, without_file(closed))
        },
    }
}

impl RecordCursor {
    /// The open file, if there is one, is one of the files.
    pub open spec fn valid(self) -> bool {
        &&& self.next_file <= self.files
        &&& self.open ==> self.next_file > 0
    }

    /// The event can come.
    pub open spec fn expects(self, event: FetchEvent) -> bool {
        match event {
            FetchEvent::RowFound => true,
            FetchEvent::FileOpened => !self.open && self.next_file < self.files,
            FetchEvent::RecordRead => self.open,
            FetchEvent::FileEnded => self.open,
        }
    }

    /// A cursor in front of the first file.
    pub fn new(files: usize) -> (c: Self)
        ensures
            c == (RecordCursor { files, next_file: 0, open: false }),
            c.valid(),
    {
        RecordCursor { files, next_file: 0, open: false }
    }

    /// Takes an event, and says what is to be done.
    pub fn step(&mut self, event: FetchEvent) -> (action: FetchAction)
        requires
            old(self).valid(),
            old(self).expects(event),
        ensures
            final(self).valid(),
            (*final(self), action) == stepped(*old(self), event),
    {
        match event {
            FetchEvent::RowFound => {
                if self.open {
                    return FetchAction::ReadRecord;
                }
            },
            FetchEvent::FileOpened => {
                self.next_file = self.next_file + 1;
                self.open = true;
                return FetchAction::ReadRecord;
            },
            FetchEvent::RecordRead => {
                return FetchAction::CompareRow;
            },
            FetchEvent::FileEnded => {
                self.open = false;
            },
        }
        if self.next_file < self.files {
            FetchAction::OpenFile(self.next_file)
        } else {
            FetchAction::NoRecord
        }
    }
}

/// A place in the files: the file that was opened last, and how many of its records were read.
pub struct Place {
    pub file: int,
    pub pos: nat,
}

/// The actions of a cursor carried out on files of these contents, from a place on: the cursor
/// and the place when the row can be compared, and the record of the row.
pub open spec fn fetched(
    c: RecordCursor,
    contents: Seq<Seq<Seq<Seq<u8>>>>,
    at: Place,
    event: FetchEvent,
) -> (RecordCursor, Place, Option<Seq<Seq<u8>>>)
    decreases
            c.files - c.next_file,
            (match event {
                FetchEvent::RowFound => 2int,
                FetchEvent::FileEnded => 1int,
                _ => 0int,
            }),
    when c.valid() && c.expects(event) && event != FetchEvent::RecordRead
{
    let (d, action) = stepped(c, event);
    match action {
        FetchAction::OpenFile(i) => fetched(
            d,
            contents,
            Place { file: i as int, pos: 0 },
            FetchEvent::FileOpened,
        ),
        FetchAction::ReadRecord => {
            let file = contents[at.file];
            if at.pos < file.len() {
                let (e, then) = stepped(d, FetchEvent::RecordRead);
                (
                    e,
                    Place { file: at.file, pos: at.pos + 1 },
                    if then == FetchAction::CompareRow {
                        Some(file[at.pos as int])
                    } else {
                        None
                    },
                )
            } else {
                fetched(d, contents, at, FetchEvent::FileEnded)
            }
        },
        FetchAction::CompareRow => (d, at, Some(Seq::empty())),
        FetchAction::NoRecord => (d, at, None),
    }
}

/// The records that are left: those of the open file behind the place, then those of the files
/// that have not been opened.
pub open spec fn records_left(
    c: RecordCursor,
    contents: Seq<Seq<Seq<Seq<u8>>>>,
    at: Place,
) -> Seq<Seq<Seq<u8>>> {
    let unopened = contents.skip(c.next_file as int).flatten();
    if c.open {
        contents[at.file].skip(at.pos as int) + unopened
    } else {
        unopened
    }
}

/// The place is one in the files, and in the open one where one is open.
pub open spec fn is_place(c: RecordCursor, contents: Seq<Seq<Seq<Seq<u8>>>>, at: Place) -> bool {
    &&& c.valid()
    &&& contents.len() == c.files
    &&& c.open ==> at.file == c.next_file - 1 && at.pos <= contents[at.file].len()
}

/// Takes the first of the records that are left.
pub open spec fn takes_first(
    left: Seq<Seq<Seq<u8>>>,
    contents: Seq<Seq<Seq<Seq<u8>>>>,
    fetch: (RecordCursor, Place, Option<Seq<Seq<u8>>>),
) -> bool {
    &&& is_place(fetch.0, contents, fetch.1)
    &&& if left.len() == 0 {
        fetch.2 is None && records_left(fetch.0, contents, fetch.1).len() == 0
    } else {
        fetch.2 == Some(left[0]) && records_left(fetch.0, contents, fetch.1) == left.skip(1)
    }
}

/// A file that is opened, or has ended, leads to the first record that is left.
proof fn next_file_leads_to_first(
    c: RecordCursor,
    contents: Seq<Seq<Seq<Seq<u8>>>>,
    at: Place,
    event: FetchEvent,
)
    requires
        is_place(c, contents, at),
        c.expects(event),
        event == FetchEvent::FileOpened ==> at.pos == 0 && at.file == c.next_file,
        event == FetchEvent::FileOpened || event == FetchEvent::FileEnded,
    ensures
        takes_first(
            contents.skip(c.next_file as int).flatten(),
            contents,
            fetched(c, contents, at, event),
        ),
    decreases
            c.files - c.next_file,
            (match event {
                FetchEvent::FileEnded => 1int,
                _ => 0int,
            }),
{
    let next = c.next_file as int;
    let left = contents.skip(next).flatten();
    let (d, action) = stepped(c, event);
    if event == FetchEvent::FileEnded {
        if next < c.files {
            next_file_leads_to_first(
                d,
                contents,
                Place { file: next, pos: 0 },
                FetchEvent::FileOpened,
            );
        } else {
            assert(contents.skip(next) == Seq::<Seq<Seq<Seq<u8>>>>::empty());
            assert(left == Seq::<Seq<Seq<u8>>>::empty());
        }
    } else {
        let file = contents[next];
        let behind = contents.skip(next + 1).flatten();
        assert(contents.skip(next).drop_first() == contents.skip(next + 1));
        assert(left == file + behind);
        if file.len() > 0 {
            assert(left.skip(1) == file.skip(1) + behind);
        } else {
            assert(left == behind);
            next_file_leads_to_first(d, contents, at, FetchEvent::FileEnded);
        }
    }
}

/// Law: a row is compared with the first of the records that are left, which is then
/// no longer left; and with nothing where no record is left.
pub proof fn row_takes_next_record(c: RecordCursor, contents: Seq<Seq<Seq<Seq<u8>>>>, at: Place)
    requires
        is_place(c, contents, at),
    ensures
        takes_first(
            records_left(c, contents, at),
            contents,
            fetched(c, contents, at, FetchEvent::RowFound),
        ),
{
    let left = records_left(c, contents, at);
    let next = c.next_file as int;
    let unopened = contents.skip(next).flatten();
    if c.open {
        let file = contents[next - 1];
        if at.pos < file.len() {
            assert(left[0] == file[at.pos as int]);
            assert(left.skip(1) == file.skip((at.pos + 1) as int) + unopened);
        } else {
            assert(file.skip(at.pos as int) == Seq::<Seq<Seq<u8>>>::empty());
            assert(left == unopened);
            next_file_leads_to_first(c, contents, at, FetchEvent::FileEnded);
        }
    } else if next < c.files {
        next_file_leads_to_first(
            c,
            contents,
            Place { file: next, pos: 0 },
            FetchEvent::FileOpened,
        );
    } else {
        assert(contents.skip(next) == Seq::<Seq<Seq<Seq<u8>>>>::empty());
        assert(left == Seq::<Seq<Seq<u8>>>::empty());
    }
}

/// The cursor and the place after `n` rows, from a new cursor on.
pub open spec fn place_after(contents: Seq<Seq<Seq<Seq<u8>>>>, n: nat) -> (RecordCursor, Place)
    decreases n,
{
    if n == 0 {
        (
            RecordCursor { files: contents.len() as usize, next_file: 0, open: false },
            Place { file: 0, pos: 0 },
        )
    } else {
        let (c, at) = place_after(contents, (n - 1) as nat);
        let (d, next, _) = fetched(c, contents, at, FetchEvent::RowFound);
        (d, next)
    }
}

/// After `n` rows the records behind the first `n` are left.
proof fn left_after(contents: Seq<Seq<Seq<Seq<u8>>>>, n: nat)
    requires
        contents.len() <= usize::MAX,
    ensures
        ({
            let (c, at) = place_after(contents, n);
            let all = contents.flatten();
            &&& is_place(c, contents, at)
            &&& records_left(c, contents, at) == if n <= all.len() {
                all.skip(n as int)
            } else {
                Seq::empty()
            }
        }),
    decreases n,
{
    let all = contents.flatten();
    if n == 0 {
        assert(contents.skip(0) == contents);
        assert(all.skip(0) == all);
    } else {
        let m = (n - 1) as nat;
        let (c, at) = place_after(contents, m);
        left_after(contents, m);
        row_takes_next_record(c, contents, at);
        let left = records_left(c, contents, at);
        let (d, next) = place_after(contents, n);
        if m < all.len() {
            assert(left.skip(1) == all.skip(n as int));
        } else {
            assert(records_left(d, contents, next) == Seq::<Seq<Seq<u8>>>::empty());
            if n <= all.len() {
                assert(all.skip(n as int) == Seq::<Seq<Seq<u8>>>::empty());
            }
        }
    }
}

/// Law: row `k` of a workbook is compared with record `k` of the files, read one after
/// the other; the rows behind the last record are compared with nothing.
pub proof fn rows_meet_records(contents: Seq<Seq<Seq<Seq<u8>>>>, k: nat)
    requires
        contents.len() <= usize::MAX,
    ensures
        ({
            let (c, at) = place_after(contents, k);
            let all = contents.flatten();
            fetched(c, contents, at, FetchEvent::RowFound).2 == if k < all.len() {
                Some(all[k as int])
            } else {
                None
            }
        }),
{
    let (c, at) = place_after(contents, k);
    left_after(contents, k);
    row_takes_next_record(c, contents, at);
}

// ---------------------------------------------------------------------------
// Comparing a row with its record
// ---------------------------------------------------------------------------

/// A cell of a row and the field that belongs to it, both without the white space around them.
pub struct CellPair {
    pub xlsx: String,
    pub csv: String,
    /// The texts differ and both are numbers: they match where the numbers are close.
    pub by_number: bool,
}

/// The field that belongs to cell `c`; nothing where the record has no such field.
pub open spec fn field_text(record: Seq<Seq<u8>>, c: int) -> Seq<char> {
    if 0 <= c < record.len() {
        trim(text_of(record[c]))
    } else {
        Seq::empty()
    }
}

/// Two texts that differ and are both numbers.
pub open spec fn differ_as_numbers(a: Seq<char>, b: Seq<char>) -> bool {
    a != b && is_number(a) && is_number(b)
}

/// The pair belongs to cell `c` of the row and to the record.
pub open spec fn is_pair(
    pair: CellPair,
    cells: Seq<Seq<char>>,
    record: Seq<Seq<u8>>,
    c: int,
) -> bool {
    &&& pair.xlsx@ == trim(cells[c])
    &&& pair.csv@ == field_text(record, c)
    &&& pair.by_number == differ_as_numbers(pair.xlsx@, pair.csv@)
}

/// The field that belongs to cell `c`.
fn field_of(record: &Vec<Vec<u8>>, c: usize) -> (text: String)
    ensures
        text@ == field_text(record.deep_view(), c as int),
{
    if c < record.len() {
        let field = record[c].as_slice();
        assert(record.deep_view()[c as int] == field@);
        trim_text(decode_field(field))
    } else {
        String::new()
    }
}

/// The cells of a row, each with the field that belongs to it.
pub fn pair_cells(cells: &Vec<String>, record: &Vec<Vec<u8>>) -> (pairs: Vec<CellPair>)
    ensures
        pairs@.len() == cells@.len(),
        forall|c: int|
            0 <= c < cells@.len() ==> is_pair(
                #[trigger] pairs@[c],
                cells.deep_view(),
                record.deep_view(),
                c,
            ),
        forall|c: int|
            0 <= c < cells@.len() ==> {
                let pair = #[trigger] pairs@[c];
                &&& pair.xlsx@ == trim(cells@[c]@)
                &&& pair.csv@ == if c < record@.len() {
                    trim(text_of(record@[c]@))
                } else {
                    Seq::empty()
                }
                &&& pair.by_number <==> pair.xlsx@ != pair.csv@ && is_number(pair.xlsx@)
                    && is_number(pair.csv@)
            },
{
    let mut pairs: Vec<CellPair> = Vec::new();
    for c in 0..cells.len()
        invariant
            pairs@.len() == c,
            forall|k: int|
                0 <= k < c ==> is_pair(
                    #[trigger] pairs@[k],
                    cells.deep_view(),
                    record.deep_view(),
                    k,
                ),
    {
        let xlsx = trim_text(cells[c].as_str());
        let csv = field_of(record, c);
        assert(cells.deep_view()[c as int] == cells@[c as int]@);
        let by_number = !same_text(xlsx.as_str(), csv.as_str()) && reads_as_number(
            &chars_of(xlsx.as_str()),
        ) && reads_as_number(&chars_of(csv.as_str()));
        pairs.push(CellPair { xlsx, csv, by_number });
    }
    assert forall|c: int| 0 <= c < cells@.len() implies {
        let pair = #[trigger] pairs@[c];
        &&& pair.xlsx@ == trim(cells@[c]@)
        &&& pair.csv@ == if c < record@.len() {
            trim(text_of(record@[c]@))
        } else {
            Seq::empty()
        }
        &&& pair.by_number <==> pair.xlsx@ != pair.csv@ && is_number(pair.xlsx@) && is_number(
            pair.csv@,
        )
    } by {
        assert(is_pair(pairs@[c], cells.deep_view(), record.deep_view(), c));
        assert(cells.deep_view()[c] == cells@[c]@);
        assert(record.deep_view().len() == record@.len());
        if c < record@.len() {
            assert(record.deep_view()[c] == record@[c].deep_view());
            assert(record@[c].deep_view() == record@[c]@);
        }
    }
    pairs
}

/// The pair matches: the texts are the same, or both are numbers, and the numbers are close.
pub open spec fn pair_matches(pair: CellPair, close: bool) -> bool {
    pair.xlsx@ == pair.csv@ || (pair.by_number && close)
}

/// The places of the pairs that do not match.
pub open spec fn mismatches_of(pairs: Seq<CellPair>, close: Seq<bool>) -> Seq<int>
    decreases pairs.len(),
{
    if pairs.len() == 0 {
        Seq::empty()
    } else {
        let front = mismatches_of(pairs.drop_last(), close.drop_last());
        if pair_matches(pairs.last(), close.last()) {
            front
        } else {
            front.push(pairs.len() - 1)
        }
    }
}

/// Law: the mismatches of a row are exactly its pairs whose texts differ, save those whose
/// texts are both numbers that are close, in order.
pub proof fn mismatches_are_differences(pairs: Seq<CellPair>, close: Seq<bool>)
    requires
        close.len() == pairs.len(),
    ensures
        mismatches_of(pairs, close) == Seq::new(pairs.len(), |c: int| c).filter(
            |c: int| pairs[c].xlsx@ != pairs[c].csv@ && !(pairs[c].by_number && close[c]),
        ),
        forall|c: int|
            mismatches_of(pairs, close).contains(c) <==> {
                &&& 0 <= c < pairs.len()
                &&& (#[trigger] pairs[c]).xlsx@ != pairs[c].csv@
                &&& !(pairs[c].by_number && close[c])
            },
        mismatches_of(pairs, close).len() == 0 <==> forall|c: int|
            0 <= c < pairs.len() ==> (#[trigger] pairs[c]).xlsx@ == pairs[c].csv@ || (
            pairs[c].by_number && close[c]),
{
    let bad = mismatches_of(pairs, close);
    let all = Seq::new(pairs.len(), |c: int| c);
    let wrong = |c: int| pairs[c].xlsx@ != pairs[c].csv@ && !(pairs[c].by_number && close[c]);
    mismatches_filtered(pairs, close, pairs.len() as int);
    assert(pairs.take(pairs.len() as int) == pairs);
    assert(close.take(close.len() as int) == close);
    assert(all == Seq::new(pairs.len() as int as nat, |c: int| c));
    assert(bad == all.filter(wrong));
    assert forall|c: int| bad.contains(c) <==> {
        &&& 0 <= c < pairs.len()
        &&& (#[trigger] pairs[c]).xlsx@ != pairs[c].csv@
        &&& !(pairs[c].by_number && close[c])
    } by {
        if bad.contains(c) {
            let k = choose|k: int| 0 <= k < bad.len() && bad[k] == c;
            all.lemma_filter_pred(wrong, k);
            all.lemma_filter_contains_rev(wrong, c);
            let i = choose|i: int| 0 <= i < all.len() && all[i] == c;
            assert(i == c);
            assert(wrong(c));
        } else if 0 <= c < pairs.len() && wrong(c) {
            assert(all[c] == c);
            all.lemma_filter_contains(wrong, c);
        }
    }
    if bad.len() > 0 {
        assert(bad.contains(bad[0]));
        let c = bad[0];
        assert(pairs[c].xlsx@ != pairs[c].csv@);
    } else {
        assert forall|c: int| 0 <= c < pairs.len() implies (#[trigger] pairs[c]).xlsx@
            == pairs[c].csv@ || (pairs[c].by_number && close[c]) by {
            assert(!bad.contains(c));
        }
    }
}

/// The mismatches among the first `n` pairs.
proof fn mismatches_filtered(pairs: Seq<CellPair>, close: Seq<bool>, n: int)
    requires
        close.len() == pairs.len(),
        0 <= n <= pairs.len(),
    ensures
        mismatches_of(pairs.take(n), close.take(n)) == Seq::new(n as nat, |c: int| c).filter(
            |c: int| pairs[c].xlsx@ != pairs[c].csv@ && !(pairs[c].by_number && close[c]),
        ),
    decreases n,
{
    reveal(Seq::filter);
    if n > 0 {
        mismatches_filtered(pairs, close, n - 1);
        assert(pairs.take(n).drop_last() == pairs.take(n - 1));
        assert(close.take(n).drop_last() == close.take(n - 1));
        assert(Seq::new(n as nat, |c: int| c).drop_last() == Seq::new((n - 1) as nat, |c: int| c));
        assert(pairs.take(n).last() == pairs[n - 1]);
        assert(close.take(n).last() == close[n - 1]);
    }
}

/// How many mismatches are reported one by one.
pub const REPORTED_MISMATCHES: usize = 10;

/// A mismatch that is reported.
pub struct Mismatch {
    /// The row of data, counted from 1 over all sheets.
    pub row: usize,
    /// The cell, counted from 1.
    pub col: usize,
    pub xlsx: String,
    pub csv: String,
}

/// The report is about the pair at place `c` of the row.
pub open spec fn reports(m: Mismatch, pairs: Seq<CellPair>, row: int, c: int) -> bool {
    &&& m.row == row
    &&& m.col == c + 1
    &&& m.xlsx@ == pairs[c].xlsx@
    &&& m.csv@ == pairs[c].csv@
}

/// The number of reports that are due when `n` mismatches follow `before` earlier ones.
pub open spec fn reports_due(before: int, n: int) -> int {
    if before >= REPORTED_MISMATCHES {
        0
    } else if before + n > REPORTED_MISMATCHES {
        REPORTED_MISMATCHES - before
    } else {
        n
    }
}

/// What has been counted so far.
#[derive(Clone, Copy, PartialEq, Eq, Debug, Structural)]
pub struct Tally {
    pub xlsx_rows: usize,
    pub csv_rows: usize,
    pub cells: usize,
    pub mismatches: usize,
}

impl Tally {
    /// Nothing counted.
    pub fn new() -> (t: Self)
        ensures
            t == (Tally { xlsx_rows: 0, csv_rows: 0, cells: 0, mismatches: 0 }),
    {
        Tally { xlsx_rows: 0, csv_rows: 0, cells: 0, mismatches: 0 }
    }

    /// Counts a row of the workbook.
    pub fn count_row(&mut self)
        requires
            old(self).xlsx_rows < usize::MAX,
        ensures
            *final(self) == (Tally { xlsx_rows: (old(self).xlsx_rows + 1) as usize, ..*old(self) }),
    {
        self.xlsx_rows = self.xlsx_rows + 1;
    }

    /// Counts the record of a row; a row without a record is a mismatch.
    pub fn count_record(&mut self, found: bool)
        requires
            found ==> old(self).csv_rows < usize::MAX,
            !found ==> old(self).mismatches < usize::MAX,
        ensures
            *final(self) == if found {
                Tally { csv_rows: (old(self).csv_rows + 1) as usize, ..*old(self) }
            } else {
                Tally { mismatches: (old(self).mismatches + 1) as usize, ..*old(self) }
            },
    {
        if found {
            self.csv_rows = self.csv_rows + 1;
        } else {
            self.mismatches = self.mismatches + 1;
        }
    }

    /// Compares a row with its record: counts the cells and the mismatches, and returns the
    /// mismatches to report, of which there are no more than `REPORTED_MISMATCHES` in all.
    /// `close` says of each pair whether the numbers in it, if both texts are numbers, are close.
    pub fn compare_row(&mut self, pairs: &Vec<CellPair>, close: &Vec<bool>) -> (r: Vec<Mismatch>)
        requires
            close@.len() == pairs@.len(),
            old(self).cells + pairs@.len() <= usize::MAX,
            old(self).mismatches + pairs@.len() <= usize::MAX,
        ensures
            final(self).mismatches - old(self).mismatches == Seq::new(
                pairs@.len(),
                |c: int| c,
            ).filter(
                |c: int|
                    pairs@[c].xlsx@ != pairs@[c].csv@ && !(pairs@[c].by_number && close@[c]),
            ).len(),
            final(self).mismatches == old(self).mismatches <==> forall|c: int|
                0 <= c < pairs@.len() ==> (#[trigger] pairs@[c]).xlsx@ == pairs@[c].csv@ || (
                pairs@[c].by_number && close@[c]),
            forall|k: int|
                0 <= k < r@.len() ==> {
                    let m = #[trigger] r@[k];
                    &&& m.row == old(self).xlsx_rows
                    &&& 1 <= m.col <= pairs@.len()
                    &&& m.xlsx@ == pairs@[m.col - 1].xlsx@
                    &&& m.csv@ == pairs@[m.col - 1].csv@
                    &&& m.xlsx@ != m.csv@
                    &&& !(pairs@[m.col - 1].by_number && close@[m.col - 1])
                },
            ({
                let bad = mismatches_of(pairs@, close@);
                &&& *final(self) == (Tally {
                    cells: (old(self).cells + pairs@.len()) as usize,
                    mismatches: (old(self).mismatches + bad.len()) as usize,
                    ..*old(self)
                })
                &&& r@.len() == reports_due(old(self).mismatches as int, bad.len() as int)
                &&& forall|k: int|
                    0 <= k < r@.len() ==> reports(
                        #[trigger] r@[k],
                        pairs@,
                        old(self).xlsx_rows as int,
                        bad[k],
                    )
            }),
    {
        let ghost start = *self;
        let ghost row = self.xlsx_rows as int;
        let ghost mut bad: Seq<int> = Seq::empty();
        let mut found: Vec<Mismatch> = Vec::new();
        for c in 0..pairs.len()
            invariant
                close@.len() == pairs@.len(),
                start.cells + pairs@.len() <= usize::MAX,
                start.mismatches + pairs@.len() <= usize::MAX,
                self.xlsx_rows == row,
                row == start.xlsx_rows,
                self.csv_rows == start.csv_rows,
                self.cells == start.cells + c,
                bad == mismatches_of(pairs@.take(c as int), close@.take(c as int)),
                bad.len() <= c,
                self.mismatches == start.mismatches + bad.len(),
                found@.len() == reports_due(start.mismatches as int, bad.len() as int),
                found@.len() <= bad.len(),
                forall|k: int|
                    0 <= k < found@.len() ==> reports(#[trigger] found@[k], pairs@, row, bad[k]),
        {
            proof {
                assert(pairs@.take(c + 1).drop_last() == pairs@.take(c as int));
                assert(close@.take(c + 1).drop_last() == close@.take(c as int));
                assert(pairs@.take(c + 1).last() == pairs@[c as int]);
                assert(close@.take(c + 1).last() == close@[c as int]);
            }
            self.cells = self.cells + 1;
            let pair = &pairs[c];
            let matched = same_text(pair.xlsx.as_str(), pair.csv.as_str()) || (pair.by_number
                && close[c]);
            proof {
                if !matched {
                    bad = bad.push(c as int);
                }
            }
            if !matched {
                self.mismatches = self.mismatches + 1;
                if self.mismatches <= REPORTED_MISMATCHES {
                    found.push(
                        Mismatch {
                            row: self.xlsx_rows,
                            col: c + 1,
                            xlsx: pair.xlsx.clone(),
                            csv: pair.csv.clone(),
                        },
                    );
                }
            }
        }
        assert(pairs@.take(pairs@.len() as int) == pairs@);
        assert(close@.take(close@.len() as int) == close@);
        proof {
            mismatches_are_differences(pairs@, close@);
            assert forall|k: int| 0 <= k < found@.len() implies {
                let m = #[trigger] found@[k];
                &&& m.row == row
                &&& 1 <= m.col <= pairs@.len()
                &&& m.xlsx@ == pairs@[m.col - 1].xlsx@
                &&& m.csv@ == pairs@[m.col - 1].csv@
                &&& m.xlsx@ != m.csv@
                &&& !(pairs@[m.col - 1].by_number && close@[m.col - 1])
            } by {
                assert(reports(found@[k], pairs@, row, bad[k]));
                assert(bad.contains(bad[k]));
                assert(pairs@[bad[k]].xlsx@ != pairs@[bad[k]].csv@);
            }
        }
        found
    }

    /// Whether the workbook holds what the records hold.
    pub fn passed(&self) -> (r: bool)
        ensures
            r == (self.mismatches == 0 && self.xlsx_rows == self.csv_rows),
    {
        self.mismatches == 0 && self.xlsx_rows == self.csv_rows
    }
}

} // verus!
