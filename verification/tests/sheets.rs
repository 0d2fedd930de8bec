use fast_csv::columns::ColType;
use fast_csv::render::{fits_columns, push_pipe_row, render_chunk_parallel};
use fast_csv::workbook::{
    content_types_xml, push_action, push_part, sheet_head_xml, sheet_part_name, workbook_rels_xml,
    workbook_xml, ZipAction,
};
use fast_csv::xml::{cells_in_order, escape_xml, escape_xml_bytes, extract_xml_cells, split_rows};

fn strings(items: &[&str]) -> Vec<String> {
    items.iter().map(|s| s.to_string()).collect()
}

fn record(fields: &[&[u8]]) -> Vec<Vec<u8>> {
    fields.iter().map(|f| f.to_vec()).collect()
}

fn streamed(fields: &[&[u8]], types: &[ColType]) -> String {
    let mut out = String::new();
    push_pipe_row(&mut out, &record(fields), &types.to_vec());
    out
}

fn escape(s: &str) -> String {
    let mut out = String::new();
    escape_xml(s, &mut out);
    out
}

fn merged(rows: &[Vec<String>], types: &[ColType], start: usize) -> String {
    let letters = fast_csv::columns::col_letters(types.len());
    String::from_utf8(render_chunk_parallel(rows, &letters, types, start)).unwrap()
}

#[test]
fn reserved_characters_are_escaped() {
    assert_eq!(escape("a & b < c > d \"e\" 'f'"), "a &amp; b &lt; c &gt; d &quot;e&quot; 'f'");
    assert_eq!(escape("&amp;"), "&amp;amp;");
    assert_eq!(escape("häß €"), "häß €");
    let mut out = String::from("x=");
    escape_xml_bytes(b"<\xc3\xa4>", &mut out);
    assert_eq!(out, "x=&lt;ä&gt;");
    escape_xml_bytes(b"\xff<", &mut out);
    assert_eq!(out, "x=&lt;ä&gt;");
}

#[test]
fn control_characters_are_left_out() {
    let all: String = (0u8..0x20).map(|b| b as char).collect();
    assert_eq!(escape(&all), "\t\n\r");
    assert_eq!(escape("a\u{0}b\u{1f}c\u{7f}d"), "abc\u{7f}d");
}

#[test]
fn a_streamed_row_has_a_cell_for_each_field() {
    let n = ColType::Numeric;
    let t = ColType::Text;
    assert_eq!(
        streamed(&[b"1.5", b"", b"a<b", b"7"], &[n, n, t, t]),
        "<row><c><v>1.5</v></c><c/><c t=\"inlineStr\"><is><t>a&lt;b</t></is></c>\
         <c t=\"inlineStr\"><is><t>7</t></is></c></row>"
    );
    assert_eq!(streamed(&[], &[]), "<row></row>");
    assert_eq!(streamed(&[b" 12 "], &[n]), "<row><c><v> 12 </v></c></row>");
    assert_eq!(
        streamed(&[b"\xff"], &[t]),
        "<row><c t=\"inlineStr\"><is><t></t></is></c></row>"
    );
}

#[test]
fn what_is_no_finite_number_is_text() {
    for word in ["NaN", "inf", "-Infinity", "1e999", "abc", " ", "1,5"] {
        assert_eq!(
            streamed(&[word.as_bytes()], &[ColType::Numeric]),
            format!("<row><c t=\"inlineStr\"><is><t>{}</t></is></c></row>", word)
        );
    }
    assert_eq!(
        merged(&[strings(&["NaN"])], &[ColType::Numeric], 2),
        "<row r=\"2\"><c r=\"A2\" t=\"inlineStr\"><is><t>NaN</t></is></c></row>"
    );
}

#[test]
fn records_fit_their_columns() {
    assert!(fits_columns(&record(&[b"a", b"b"]), 2));
    assert!(fits_columns(&record(&[b"a", b"b", b"", b""]), 2));
    assert!(!fits_columns(&record(&[b"a", b"b", b"", b"c"]), 2));
    assert!(fits_columns(&record(&[]), 0));
    assert_eq!(
        streamed(&[b"a", b""], &[ColType::Text]),
        "<row><c t=\"inlineStr\"><is><t>a</t></is></c><c/></row>"
    );
}

#[test]
fn a_merged_row_has_references() {
    let n = ColType::Numeric;
    let t = ColType::Text;
    assert_eq!(
        merged(&[strings(&[" 1.5 ", "  ", " a&b "]), strings(&["2", "x", ""])], &[n, t, t], 9),
        "<row r=\"9\"><c r=\"A9\"><v>1.5</v></c><c r=\"C9\" t=\"inlineStr\"><is><t>a&amp;b</t></is></c></row>\
         <row r=\"10\"><c r=\"A10\"><v>2</v></c><c r=\"B10\" t=\"inlineStr\"><is><t>x</t></is></c></row>"
    );
    assert_eq!(merged(&[], &[n], 2), "");
}

#[test]
fn rows_of_many_pieces_stay_in_order() {
    let rows: Vec<Vec<String>> = (0..25_001).map(|i| vec![format!("{}", i * 3)]).collect();
    let mut expected = String::new();
    for i in 0..25_001 {
        expected.push_str(&format!("<row r=\"{}\"><c r=\"A{}\"><v>{}</v></c></row>", i + 2, i + 2, i * 3));
    }
    assert_eq!(merged(&rows, &[ColType::Numeric], 2), expected);
    let rows: Vec<Vec<String>> = (0..10_000).map(|i| vec![format!("r{}", i)]).collect();
    let xml = merged(&rows, &[ColType::Text], 40_002);
    assert!(xml.starts_with("<row r=\"40002\"><c r=\"A40002\" t=\"inlineStr\"><is><t>r0</t>"));
    assert!(xml.ends_with("<t>r9999</t></is></c></row>"));
    assert_eq!(xml.matches("<row ").count(), 10_000);
}

#[test]
fn a_sheet_starts_with_its_header() {
    assert_eq!(
        sheet_head_xml("", &strings(&["id", "a & b"])),
        "<?xml version=\"1.0\" encoding=\"UTF-8\" standalone=\"yes\"?>\n<worksheet xmlns=\"http://schemas.openxmlformats.org/spreadsheetml/2006/main\"><sheetData><row><c r=\"A1\" t=\"inlineStr\"><is><t>id</t></is></c><c r=\"B1\" t=\"inlineStr\"><is><t>a &amp; b</t></is></c></row>"
    );
    assert!(sheet_head_xml(" r=\"1\"", &strings(&["x"])).ends_with(
        "<sheetData><row r=\"1\"><c r=\"A1\" t=\"inlineStr\"><is><t>x</t></is></c></row>"
    ));
    assert!(sheet_head_xml("", &Vec::new()).ends_with("<sheetData><row></row>"));
}

#[test]
fn the_listing_parts_name_each_sheet() {
    assert_eq!(
        content_types_xml(2, "\n"),
        "<?xml version=\"1.0\" encoding=\"UTF-8\" standalone=\"yes\"?>\n<Types xmlns=\"http://schemas.openxmlformats.org/package/2006/content-types\">\n<Default Extension=\"rels\" ContentType=\"application/vnd.openxmlformats-package.relationships+xml\"/>\n<Default Extension=\"xml\" ContentType=\"application/xml\"/>\n<Override PartName=\"/xl/workbook.xml\" ContentType=\"application/vnd.openxmlformats-officedocument.spreadsheetml.sheet.main+xml\"/>\n<Override PartName=\"/xl/styles.xml\" ContentType=\"application/vnd.openxmlformats-officedocument.spreadsheetml.styles+xml\"/>\n<Override PartName=\"/xl/worksheets/sheet1.xml\" ContentType=\"application/vnd.openxmlformats-officedocument.spreadsheetml.worksheet+xml\"/>\n<Override PartName=\"/xl/worksheets/sheet2.xml\" ContentType=\"application/vnd.openxmlformats-officedocument.spreadsheetml.worksheet+xml\"/>\n</Types>"
    );
    assert_eq!(
        workbook_xml(2, "\n"),
        "<?xml version=\"1.0\" encoding=\"UTF-8\" standalone=\"yes\"?>\n<workbook xmlns=\"http://schemas.openxmlformats.org/spreadsheetml/2006/main\" xmlns:r=\"http://schemas.openxmlformats.org/officeDocument/2006/relationships\">\n<sheets>\n<sheet name=\"Sheet 1\" sheetId=\"1\" r:id=\"rId1\"/>\n<sheet name=\"Sheet 2\" sheetId=\"2\" r:id=\"rId2\"/>\n</sheets>\n</workbook>"
    );
    assert_eq!(
        workbook_rels_xml(1, "\n"),
        "<?xml version=\"1.0\" encoding=\"UTF-8\" standalone=\"yes\"?>\n<Relationships xmlns=\"http://schemas.openxmlformats.org/package/2006/relationships\">\n<Relationship Id=\"rId1\" Type=\"http://schemas.openxmlformats.org/officeDocument/2006/relationships/worksheet\" Target=\"worksheets/sheet1.xml\"/>\n<Relationship Id=\"rId2\" Type=\"http://schemas.openxmlformats.org/officeDocument/2006/relationships/styles\" Target=\"styles.xml\"/>\n</Relationships>"
    );
    assert_eq!(sheet_part_name(12), "xl/worksheets/sheet12.xml");
}

#[test]
fn actions_are_listed_in_order() {
    let mut actions: Vec<ZipAction> = Vec::new();
    push_part(&mut actions, "a.xml", "ä".to_string());
    push_action(&mut actions, ZipAction::WriteAll(vec![1, 2]));
    assert_eq!(actions.len(), 3);
    assert!(matches!(&actions[0], ZipAction::StartFile(name) if name == "a.xml"));
    assert!(matches!(&actions[1], ZipAction::WriteAll(data) if *data == vec![0xc3, 0xa4]));
    assert!(matches!(&actions[2], ZipAction::WriteAll(data) if *data == vec![1, 2]));
}

#[test]
fn cells_are_read_back() {
    let row = "<row><c><v>1.5</v></c><c/><c t=\"inlineStr\"><is><t>a&lt;b &amp;amp; &quot;c&quot;</t></is></c></row>";
    assert!(cells_in_order(row));
    assert_eq!(extract_xml_cells(row), strings(&["1.5", "", "a<b &amp; \"c\""]));
    assert_eq!(extract_xml_cells("<row></row>"), Vec::<String>::new());
}

#[test]
fn odd_cells_are_read_as_they_stand() {
    assert_eq!(extract_xml_cells("<c><x/></c><c><v>1</v></c>"), strings(&["", "1"]));
    assert_eq!(extract_xml_cells("<c r=\"A1\"/><c></c>"), strings(&["", ""]));
    assert_eq!(extract_xml_cells("<c t=\"inlineStr\"><v>1</v></c>"), strings(&[""]));
    assert_eq!(extract_xml_cells("<c><v>1"), Vec::<String>::new());
    assert_eq!(extract_xml_cells("<c><v>1&lt;2</v></c>"), strings(&["1&lt;2"]));
    assert_eq!(extract_xml_cells("<cols></c>"), strings(&[""]));
}

#[test]
fn a_cell_that_closes_before_it_opens_is_told() {
    assert!(!cells_in_order("<c></v><v></c>"));
    assert!(!cells_in_order("<c><v></c><c t=\"inlineStr\"></t><t></c>"));
    assert!(cells_in_order("<c><v></v></c>"));
    assert!(cells_in_order("<c></v></c>"));
}

#[test]
fn an_ampersand_entity_is_replaced_first() {
    assert_eq!(
        extract_xml_cells("<c t=\"inlineStr\"><is><t>&amp;lt;</t></is></c>"),
        strings(&["<"])
    );
}

#[test]
fn rows_are_split() {
    assert_eq!(
        split_rows("<sheetData><row><c/></row><row></row><row r=\"1\"></row></sheetData>"),
        strings(&["<row><c/></row>", "<row></row>"])
    );
    assert_eq!(split_rows("<row><c/>"), Vec::<String>::new());
    assert_eq!(split_rows(""), Vec::<String>::new());
}

#[test]
fn a_sheet_holds_no_character_that_xml_forbids() {
    let mut sheet = sheet_head_xml("", &strings(&["a\u{0}\u{8}b\tc"]));
    assert!(sheet.contains("<t>ab\tc</t>"));
    sheet.push_str(&streamed(&[b"1\x0b", b"x\x1fy"], &[ColType::Numeric, ColType::Text]));
    assert!(sheet.ends_with("<row><c><v>1</v></c><c t=\"inlineStr\"><is><t>xy</t></is></c></row>"));
    sheet.push_str(&merged(&[strings(&["\u{2}k\u{3}"])], &[ColType::Text], 2));
    assert!(sheet.ends_with("<is><t>k</t></is></c></row>"));
    assert!(sheet.chars().all(|c| c >= ' ' || c == '\t' || c == '\n' || c == '\r'));
}
