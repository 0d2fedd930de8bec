//! The parts of a workbook other than the rows of data.

use vstd::prelude::*;
use vstd::string::*;
use vstd::utf8::encode_utf8;
use crate::columns::{col_letters, col_name, col_names};
use crate::render::{cell_ref, inline_cell, row_xml};
use crate::text::{decimal, push_decimal};
use crate::xml::{escape_xml, escaped};

verus! {

broadcast use vstd::string::group_string_axioms;

/// The most rows of data that a sheet holds.
pub const MAX_ROWS_PER_SHEET: usize = 1_048_575;

/// What stands in a sheet before its header row.
pub const SHEET_OPEN: &'static str = "<?xml version=\"1.0\" encoding=\"UTF-8\" standalone=\"yes\"?>\n<worksheet xmlns=\"http://schemas.openxmlformats.org/spreadsheetml/2006/main\"><sheetData>";

/// What stands in a sheet behind its last row.
pub const SHEET_CLOSE: &'static str = "</sheetData></worksheet>";

// ---------------------------------------------------------------------------
// Headers
// ---------------------------------------------------------------------------

/// The header cell of column `c`.
pub open spec fn header_cell(name: Seq<char>, c: nat) -> Seq<char> {
    inline_cell(cell_ref(col_name(c), 1), escaped(name))
}

/// The header row.
pub open spec fn header_row(attrs: Seq<char>, names: Seq<Seq<char>>) -> Seq<char> {
    row_xml(attrs, Seq::new(names.len(), |c: int| header_cell(names[c], c as nat)))
}

/// A sheet up to and with its header row.
pub open spec fn sheet_head(attrs: Seq<char>, names: Seq<Seq<char>>) -> Seq<char> {
    SHEET_OPEN@ + header_row(attrs, names)
}

/// Writes a sheet up to and with its header row, which has the given attributes.
pub fn sheet_head_xml(attrs: &str, names: &Vec<String>) -> (xml: String)
    ensures
        xml@ == sheet_head(attrs@, names.deep_view()),
{
    let ghost v = names.deep_view();
    let ghost cells = Seq::new(v.len(), |c: int| header_cell(v[c], c as nat));
    let letters = col_letters(names.len());
    assert(letters.deep_view().len() == letters@.len());
    let mut out = String::new();
    out.append(SHEET_OPEN);
    out.append("<row");
    out.append(attrs);
    out.append(">");
    let ghost opened = out@;
    assert(opened == SHEET_OPEN@ + ("<row"@ + attrs@ + ">"@));
    assert(cells.take(0).flatten() == Seq::<char>::empty());
    for c in 0..names.len()
        invariant
            v == names.deep_view(),
            cells == Seq::new(v.len(), |c: int| header_cell(v[c], c as nat)),
            letters.deep_view() == col_names(names@.len()),
            letters@.len() == names@.len(),
            out@ == opened + cells.take(c as int).flatten(),
    {
        let ghost before = out@;
        assert(letters.deep_view()[c as int] == letters@[c as int]@);
        assert(letters@[c as int]@ == col_name(c as nat));
        assert(v[c as int] == names@[c as int]@);
        out.append("<c");
        out.append(" r=\"");
        out.append(letters[c].as_str());
        push_decimal(&mut out, 1);
        out.append("\"");
        out.append(" t=\"inlineStr\"><is><t>");
        escape_xml(names[c].as_str(), &mut out);
        out.append("</t></is></c>");
        proof {
            assert(out@ == before + cells[c as int]);
            assert(cells.take(c + 1) == cells.take(c as int).push(cells[c as int]));
            cells.take(c as int).lemma_flatten_push(cells[c as int]);
        }
    }
    assert(cells.take(cells.len() as int) == cells);
    out.append("</row>");
    assert(out@ == SHEET_OPEN@ + header_row(attrs@, v));
    out
}

// ---------------------------------------------------------------------------
// Fixed parts
// ---------------------------------------------------------------------------

/// The relationships of the package.
pub const RELS_XML: &'static str = "<?xml version=\"1.0\" encoding=\"UTF-8\" standalone=\"yes\"?><Relationships xmlns=\"http://schemas.openxmlformats.org/package/2006/relationships\"><Relationship Id=\"rId1\" Type=\"http://schemas.openxmlformats.org/officeDocument/2006/relationships/officeDocument\" Target=\"xl/workbook.xml\"/></Relationships>";

/// The styles of the workbook.
pub const STYLES_XML: &'static str = "<?xml version=\"1.0\" encoding=\"UTF-8\" standalone=\"yes\"?><styleSheet xmlns=\"http://schemas.openxmlformats.org/spreadsheetml/2006/main\"><fonts count=\"1\"><font><sz val=\"11\"/><color theme=\"1\"/><name val=\"Calibri\"/><family val=\"2\"/></font></fonts><fills count=\"2\"><fill><patternFill patternType=\"none\"/></fill><fill><patternFill patternType=\"gray125\"/></fill></fills><borders count=\"1\"><border><left/><right/><top/><bottom/><diagonal/></border></borders><cellStyleXfs count=\"1\"><xf numFmtId=\"0\" fontId=\"0\" fillId=\"0\" borderId=\"0\"/></cellStyleXfs><cellXfs count=\"1\"><xf numFmtId=\"0\" fontId=\"0\" fillId=\"0\" borderId=\"0\" xfId=\"0\"/></cellXfs></styleSheet>";

// ---------------------------------------------------------------------------
// Parts that list the sheets
// ---------------------------------------------------------------------------

/// The declaration with which a listing part starts.
pub const XML_DECLARATION: &'static str = "<?xml version=\"1.0\" encoding=\"UTF-8\" standalone=\"yes\"?>";

/// What stands in the list of content types before the sheets; `eol` ends each element.
pub open spec fn content_types_open(eol: Seq<char>) -> Seq<char> {
    XML_DECLARATION@ + eol
        + "<Types xmlns=\"http://schemas.openxmlformats.org/package/2006/content-types\">"@ + eol
        + "<Default Extension=\"rels\" ContentType=\"application/vnd.openxmlformats-package.relationships+xml\"/>"@
        + eol + "<Default Extension=\"xml\" ContentType=\"application/xml\"/>"@ + eol
        + "<Override PartName=\"/xl/workbook.xml\" ContentType=\"application/vnd.openxmlformats-officedocument.spreadsheetml.sheet.main+xml\"/>"@
        + eol
        + "<Override PartName=\"/xl/styles.xml\" ContentType=\"application/vnd.openxmlformats-officedocument.spreadsheetml.styles+xml\"/>"@
        + eol
}

/// What stands in the workbook before the sheets.
pub open spec fn workbook_open(eol: Seq<char>) -> Seq<char> {
    XML_DECLARATION@ + eol
        + "<workbook xmlns=\"http://schemas.openxmlformats.org/spreadsheetml/2006/main\" xmlns:r=\"http://schemas.openxmlformats.org/officeDocument/2006/relationships\">"@
        + eol + "<sheets>"@ + eol
}

/// What stands in the workbook's relationships before the sheets.
pub open spec fn workbook_rels_open(eol: Seq<char>) -> Seq<char> {
    XML_DECLARATION@ + eol
        + "<Relationships xmlns=\"http://schemas.openxmlformats.org/package/2006/relationships\">"@
        + eol
}

/// The content type of sheet `s`.
pub open spec fn content_type_entry(s: nat, eol: Seq<char>) -> Seq<char> {
    "<Override PartName=\"/xl/worksheets/sheet"@ + decimal(s)
        + ".xml\" ContentType=\"application/vnd.openxmlformats-officedocument.spreadsheetml.worksheet+xml\"/>"@
        + eol
}

/// The content types of a workbook with sheets 1 to `n`.
pub open spec fn content_types(n: nat, eol: Seq<char>) -> Seq<char> {
    content_types_open(eol) + Seq::new(n, |i: int| content_type_entry((i + 1) as nat, eol)).flatten()
        + "</Types>"@
}

/// The workbook's entry for sheet `s`.
pub open spec fn sheet_entry(s: nat, eol: Seq<char>) -> Seq<char> {
    "<sheet name=\"Sheet "@ + decimal(s) + "\" sheetId=\""@ + decimal(s) + "\" r:id=\"rId"@
        + decimal(s) + "\"/>"@ + eol
}

/// A workbook with sheets 1 to `n`.
pub open spec fn workbook(n: nat, eol: Seq<char>) -> Seq<char> {
    workbook_open(eol) + Seq::new(n, |i: int| sheet_entry((i + 1) as nat, eol)).flatten()
        + "</sheets>"@ + eol + "</workbook>"@
}

/// The relationship of the workbook to sheet `s`.
pub open spec fn sheet_rel(s: nat, eol: Seq<char>) -> Seq<char> {
    "<Relationship Id=\"rId"@ + decimal(s)
        + "\" Type=\"http://schemas.openxmlformats.org/officeDocument/2006/relationships/worksheet\" Target=\"worksheets/sheet"@
        + decimal(s) + ".xml\"/>"@ + eol
}

/// The relationship of the workbook to its styles.
pub open spec fn styles_rel(id: nat, eol: Seq<char>) -> Seq<char> {
    "<Relationship Id=\"rId"@ + decimal(id)
        + "\" Type=\"http://schemas.openxmlformats.org/officeDocument/2006/relationships/styles\" Target=\"styles.xml\"/>"@
        + eol
}

/// The relationships of a workbook with sheets 1 to `n`.
pub open spec fn workbook_rels(n: nat, eol: Seq<char>) -> Seq<char> {
    workbook_rels_open(eol) + Seq::new(n, |i: int| sheet_rel((i + 1) as nat, eol)).flatten()
        + styles_rel(n + 1, eol) + "</Relationships>"@
}

/// The name of the part that holds sheet `s`.
pub open spec fn sheet_part(s: nat) -> Seq<char> {
    "xl/worksheets/sheet"@ + decimal(s) + ".xml"@
}

/// One more entry.
proof fn entries_step(f: spec_fn(int) -> Seq<char>, i: nat)
    ensures
        Seq::new(i + 1, f).flatten() == Seq::new(i, f).flatten() + f(i as int),
{
    assert(Seq::new(i + 1, f) == Seq::new(i, f).push(f(i as int)));
    Seq::new(i, f).lemma_flatten_push(f(i as int));
}

/// Writes the content types of a workbook with sheets 1 to `n`; `eol` ends each element.
pub fn content_types_xml(n: usize, eol: &str) -> (xml: String)
    ensures
        xml@ == content_types(n as nat, eol@),
{
    let ghost f = |i: int| content_type_entry((i + 1) as nat, eol@);
    let mut out = String::new();
    out.append(XML_DECLARATION);
    out.append(eol);
    out.append("<Types xmlns=\"http://schemas.openxmlformats.org/package/2006/content-types\">");
    out.append(eol);
    out.append("<Default Extension=\"rels\" ContentType=\"application/vnd.openxmlformats-package.relationships+xml\"/>");
    out.append(eol);
    out.append("<Default Extension=\"xml\" ContentType=\"application/xml\"/>");
    out.append(eol);
    out.append("<Override PartName=\"/xl/workbook.xml\" ContentType=\"application/vnd.openxmlformats-officedocument.spreadsheetml.sheet.main+xml\"/>");
    out.append(eol);
    out.append("<Override PartName=\"/xl/styles.xml\" ContentType=\"application/vnd.openxmlformats-officedocument.spreadsheetml.styles+xml\"/>");
    out.append(eol);
    assert(out@ == content_types_open(eol@));
    assert(Seq::new(0, f).flatten() == Seq::<char>::empty());
    for i in 0..n
        invariant
            f == |i: int| content_type_entry((i + 1) as nat, eol@),
            out@ == content_types_open(eol@) + Seq::new(i as nat, f).flatten(),
    {
        let ghost before = out@;
        out.append("<Override PartName=\"/xl/worksheets/sheet");
        push_decimal(&mut out, i + 1);
        out.append(".xml\" ContentType=\"application/vnd.openxmlformats-officedocument.spreadsheetml.worksheet+xml\"/>");
        out.append(eol);
        assert(out@ == before + f(i as int));
        proof {
            entries_step(f, i as nat);
        }
    }
    out.append("</Types>");
    out
}

/// Writes a workbook with sheets 1 to `n`; `eol` ends each element.
pub fn workbook_xml(n: usize, eol: &str) -> (xml: String)
    ensures
        xml@ == workbook(n as nat, eol@),
{
    let ghost f = |i: int| sheet_entry((i + 1) as nat, eol@);
    let mut out = String::new();
    out.append(XML_DECLARATION);
    out.append(eol);
    out.append("<workbook xmlns=\"http://schemas.openxmlformats.org/spreadsheetml/2006/main\" xmlns:r=\"http://schemas.openxmlformats.org/officeDocument/2006/relationships\">");
    out.append(eol);
    out.append("<sheets>");
    out.append(eol);
    assert(out@ == workbook_open(eol@));
    assert(Seq::new(0, f).flatten() == Seq::<char>::empty());
    for i in 0..n
        invariant
            f == |i: int| sheet_entry((i + 1) as nat, eol@),
            out@ == workbook_open(eol@) + Seq::new(i as nat, f).flatten(),
    {
        let ghost before = out@;
        out.append("<sheet name=\"Sheet ");
        push_decimal(&mut out, i + 1);
        out.append("\" sheetId=\"");
        push_decimal(&mut out, i + 1);
        out.append("\" r:id=\"rId");
        push_decimal(&mut out, i + 1);
        out.append("\"/>");
        out.append(eol);
        assert(out@ == before + f(i as int));
        proof {
            entries_step(f, i as nat);
        }
    }
    out.append("</sheets>");
    out.append(eol);
    out.append("</workbook>");
    out
}

/// Writes the relationships of a workbook with sheets 1 to `n`; `eol` ends each element.
pub fn workbook_rels_xml(n: usize, eol: &str) -> (xml: String)
    requires
        n < usize::MAX,
    ensures
        xml@ == workbook_rels(n as nat, eol@),
{
    let ghost f = |i: int| sheet_rel((i + 1) as nat, eol@);
    let mut out = String::new();
    out.append(XML_DECLARATION);
    out.append(eol);
    out.append("<Relationships xmlns=\"http://schemas.openxmlformats.org/package/2006/relationships\">");
    out.append(eol);
    assert(out@ == workbook_rels_open(eol@));
    assert(Seq::new(0, f).flatten() == Seq::<char>::empty());
    for i in 0..n
        invariant
            f == |i: int| sheet_rel((i + 1) as nat, eol@),
            out@ == workbook_rels_open(eol@) + Seq::new(i as nat, f).flatten(),
    {
        let ghost before = out@;
        out.append("<Relationship Id=\"rId");
        push_decimal(&mut out, i + 1);
        out.append("\" Type=\"http://schemas.openxmlformats.org/officeDocument/2006/relationships/worksheet\" Target=\"worksheets/sheet");
        push_decimal(&mut out, i + 1);
        out.append(".xml\"/>");
        out.append(eol);
        assert(out@ == before + f(i as int));
        proof {
            entries_step(f, i as nat);
        }
    }
    let ghost before = out@;
    out.append("<Relationship Id=\"rId");
    push_decimal(&mut out, n + 1);
    out.append("\" Type=\"http://schemas.openxmlformats.org/officeDocument/2006/relationships/styles\" Target=\"styles.xml\"/>");
    out.append(eol);
    assert(out@ == before + styles_rel((n + 1) as nat, eol@));
    out.append("</Relationships>");
    out
}

/// The name of the part that holds sheet `s`.
pub fn sheet_part_name(s: usize) -> (name: String)
    ensures
        name@ == sheet_part(s as nat),
{
    let mut out = String::new();
    out.append("xl/worksheets/sheet");
    push_decimal(&mut out, s);
    out.append(".xml");
    out
}

// ---------------------------------------------------------------------------
// Archives
// ---------------------------------------------------------------------------

/// What is to be done to the archive that is being written.
pub enum ZipAction {
    /// Start a new part with this name.
    StartFile(String),
    /// Append these bytes to the part that was started last.
    WriteAll(Vec<u8>),
}

/// An archive: the name and the bytes of each part, in the order in which they were started.
pub type Archive = Seq<(Seq<char>, Seq<u8>)>;

/// The parts that come before the sheets.
pub open spec fn leading_parts() -> Archive {
    seq![
        ("_rels/.rels"@, encode_utf8(RELS_XML@)),
        ("xl/styles.xml"@, encode_utf8(STYLES_XML@)),
    ]
}

/// The parts that list `n` sheets; `eol` ends each element.
pub open spec fn listing_parts(n: nat, eol: Seq<char>) -> Archive {
    seq![
        ("[Content_Types].xml"@, encode_utf8(content_types(n, eol))),
        ("xl/workbook.xml"@, encode_utf8(workbook(n, eol))),
        ("xl/_rels/workbook.xml.rels"@, encode_utf8(workbook_rels(n, eol))),
    ]
}

/// The archive after one action.
pub open spec fn applied(archive: Archive, action: ZipAction) -> Archive {
    match action {
        ZipAction::StartFile(name) => archive.push((name@, Seq::empty())),
        ZipAction::WriteAll(data) => archive.drop_last().push(
            (archive.last().0, archive.last().1 + data@),
        ),
    }
}

/// The archive after some actions.
pub open spec fn applied_all(archive: Archive, actions: Seq<ZipAction>) -> Archive
    decreases actions.len(),
{
    if actions.len() == 0 {
        archive
    } else {
        applied(applied_all(archive, actions.drop_last()), actions.last())
    }
}

/// Adds an action to a list.
pub fn push_action(actions: &mut Vec<ZipAction>, action: ZipAction)
    ensures
        final(actions)@ == old(actions)@.push(action),
        forall|a: Archive| #[trigger]
            applied_all(a, final(actions)@) == applied(applied_all(a, old(actions)@), action),
{
    let ghost before = actions@;
    actions.push(action);
    assert(actions@.drop_last() == before);
}

/// Adds a whole part to a list of actions.
pub fn push_part(actions: &mut Vec<ZipAction>, name: &str, text: String)
    ensures
        forall|a: Archive| #[trigger]
            applied_all(a, final(actions)@) == applied_all(a, old(actions)@).push(
                (name@, encode_utf8(text@)),
            ),
{
    let ghost before = actions@;
    let ghost data = encode_utf8(text@);
    push_action(actions, ZipAction::StartFile(name.to_owned()));
    let ghost started = actions@;
    push_action(actions, ZipAction::WriteAll(text.into_bytes()));
    assert forall|a: Archive| #[trigger] applied_all(a, actions@) == applied_all(a, before).push(
        (name@, data),
    ) by {
        let s = applied_all(a, started);
        assert(s == applied_all(a, before).push((name@, Seq::empty())));
        assert(s.drop_last() == applied_all(a, before));
        assert(Seq::<u8>::empty() + data == data);
    }
}

} // verus!
