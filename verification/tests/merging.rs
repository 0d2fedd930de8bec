use fast_csv::columns::ColType;
use fast_csv::merge::{MergeProducer, RowChunkMessage, MERGE_CHUNK_ROWS};
use fast_csv::merge_writer::MergeWriter;
use fast_csv::workbook::{
    content_types_xml, sheet_head_xml, workbook_rels_xml, workbook_xml, ZipAction,
    MAX_ROWS_PER_SHEET, RELS_XML, SHEET_CLOSE, STYLES_XML,
};

fn strings(items: &[&str]) -> Vec<String> {
    items.iter().map(|s| s.to_string()).collect()
}

fn produce(n: usize) -> Vec<RowChunkMessage> {
    let mut p = MergeProducer::new();
    let mut out = Vec::new();
    for i in 0..n {
        if let Some(m) = p.push_row(vec![i.to_string()]) {
            out.push(m);
        }
    }
    if let Some(m) = p.finish() {
        out.push(m);
    }
    out
}

fn shape(messages: &[RowChunkMessage]) -> Vec<(usize, usize, usize, bool)> {
    messages
        .iter()
        .map(|m| (m.sheet_idx, m.chunk_start_row, m.records.len(), m.is_last_chunk_of_sheet))
        .collect()
}

fn apply(archive: &mut Vec<(String, Vec<u8>)>, actions: Vec<ZipAction>) {
    for action in actions {
        match action {
            ZipAction::StartFile(name) => archive.push((name, Vec::new())),
            ZipAction::WriteAll(data) => archive.last_mut().unwrap().1.extend(data),
        }
    }
}

fn write(messages: Vec<RowChunkMessage>) -> (Vec<(String, String)>, usize, usize) {
    let mut archive: Vec<(String, Vec<u8>)> = Vec::new();
    let (mut w, actions) = MergeWriter::begin(&strings(&["n"]), vec![ColType::Numeric]);
    apply(&mut archive, actions);
    for m in messages {
        let actions = w.write(m);
        apply(&mut archive, actions);
    }
    let rows = w.rows();
    let sheets = w.sheets();
    apply(&mut archive, w.finish());
    let texts =
        archive.into_iter().map(|(name, data)| (name, String::from_utf8(data).unwrap())).collect();
    (texts, rows, sheets)
}

fn row(number: usize, value: usize) -> String {
    format!("<row r=\"{}\"><c r=\"A{}\"><v>{}</v></c></row>", number, number, value)
}

#[test]
fn rows_come_in_chunks() {
    assert_eq!(shape(&produce(0)), Vec::new());
    assert_eq!(shape(&produce(1)), vec![(1, 2, 1, true)]);
    assert_eq!(shape(&produce(MERGE_CHUNK_ROWS)), vec![(1, 2, 40_000, false)]);
    assert_eq!(
        shape(&produce(MERGE_CHUNK_ROWS * 2 + 3)),
        vec![(1, 2, 40_000, false), (1, 40_002, 40_000, false), (1, 80_002, 3, true)]
    );
    let out = produce(MERGE_CHUNK_ROWS + 1);
    assert_eq!(out[0].records[39_999], strings(&["39999"]));
    assert_eq!(out[1].records[0], strings(&["40000"]));
}

#[test]
fn a_full_sheet_ends_its_chunk() {
    let out = shape(&produce(MAX_ROWS_PER_SHEET + 1));
    assert_eq!(out.len(), 28);
    assert_eq!(out[25], (1, 1_000_002, 40_000, false));
    assert_eq!(out[26], (1, 1_040_002, 8_575, true));
    assert_eq!(out[27], (2, 2, 1, true));
    let out = shape(&produce(MAX_ROWS_PER_SHEET));
    assert_eq!(out.len(), 27);
    assert_eq!(out[26].3, true);
}

#[test]
fn a_merged_workbook() {
    let head = sheet_head_xml(" r=\"1\"", &strings(&["n"]));
    let (parts, rows, sheets) = write(produce(2));
    assert_eq!((rows, sheets), (2, 1));
    assert_eq!(
        parts,
        vec![
            ("_rels/.rels".to_string(), RELS_XML.to_string()),
            ("xl/styles.xml".to_string(), STYLES_XML.to_string()),
            (
                "xl/worksheets/sheet1.xml".to_string(),
                format!("{}{}{}{}", head, row(2, 0), row(3, 1), SHEET_CLOSE)
            ),
            ("[Content_Types].xml".to_string(), content_types_xml(1, "")),
            ("xl/workbook.xml".to_string(), workbook_xml(1, "")),
            ("xl/_rels/workbook.xml.rels".to_string(), workbook_rels_xml(1, "")),
        ]
    );
}

#[test]
fn a_merge_without_rows_has_a_sheet() {
    let (parts, rows, sheets) = write(produce(0));
    assert_eq!((rows, sheets), (0, 0));
    assert_eq!(parts.len(), 6);
    assert_eq!(parts[2].0, "xl/worksheets/sheet1.xml");
    assert_eq!(parts[2].1, format!("{}{}", sheet_head_xml(" r=\"1\"", &strings(&["n"])), SHEET_CLOSE));
    assert_eq!(parts[4].1, workbook_xml(1, ""));
}

#[test]
fn a_merge_of_whole_chunks_is_closed() {
    let (parts, rows, sheets) = write(produce(MERGE_CHUNK_ROWS));
    assert_eq!((rows, sheets), (MERGE_CHUNK_ROWS, 1));
    assert!(parts[2].1.ends_with(&format!("{}{}", row(40_001, 39_999), SHEET_CLOSE)));
    assert_eq!(parts[2].1.matches(SHEET_CLOSE).count(), 1);
}

#[test]
fn chunks_fill_sheet_after_sheet() {
    let one = |sheet_idx: usize, chunk_start_row: usize, value: &str, last: bool| RowChunkMessage {
        sheet_idx,
        chunk_start_row,
        records: vec![strings(&[value])],
        is_last_chunk_of_sheet: last,
    };
    let head = sheet_head_xml(" r=\"1\"", &strings(&["n"]));
    let (parts, rows, sheets) =
        write(vec![one(1, 2, "5", false), one(1, 3, "6", true), one(2, 2, "7", false)]);
    assert_eq!((rows, sheets), (3, 2));
    assert_eq!(parts.len(), 7);
    assert_eq!(parts[2].1, format!("{}{}{}{}", head, row(2, 5), row(3, 6), SHEET_CLOSE));
    assert_eq!(parts[3].0, "xl/worksheets/sheet2.xml");
    assert_eq!(parts[3].1, format!("{}{}{}", head, row(2, 7), SHEET_CLOSE));
    assert_eq!(parts[4].1, content_types_xml(2, ""));
    assert_eq!(parts[6].1, workbook_rels_xml(2, ""));
}

#[test]
fn a_merged_workbook_lists_its_sheets_on_one_line() {
    let one = |sheet_idx: usize| RowChunkMessage {
        sheet_idx,
        chunk_start_row: 2,
        records: vec![strings(&["1"])],
        is_last_chunk_of_sheet: true,
    };
    let (parts, _, _) = write(vec![one(1), one(2)]);
    assert_eq!(parts[4].0, "[Content_Types].xml");
    assert_eq!(
        parts[4].1,
        "<?xml version=\"1.0\" encoding=\"UTF-8\" standalone=\"yes\"?><Types xmlns=\"http://schemas.openxmlformats.org/package/2006/content-types\"><Default Extension=\"rels\" ContentType=\"application/vnd.openxmlformats-package.relationships+xml\"/><Default Extension=\"xml\" ContentType=\"application/xml\"/><Override PartName=\"/xl/workbook.xml\" ContentType=\"application/vnd.openxmlformats-officedocument.spreadsheetml.sheet.main+xml\"/><Override PartName=\"/xl/styles.xml\" ContentType=\"application/vnd.openxmlformats-officedocument.spreadsheetml.styles+xml\"/><Override PartName=\"/xl/worksheets/sheet1.xml\" ContentType=\"application/vnd.openxmlformats-officedocument.spreadsheetml.worksheet+xml\"/><Override PartName=\"/xl/worksheets/sheet2.xml\" ContentType=\"application/vnd.openxmlformats-officedocument.spreadsheetml.worksheet+xml\"/></Types>"
    );
    assert_eq!(
        parts[5].1,
        "<?xml version=\"1.0\" encoding=\"UTF-8\" standalone=\"yes\"?><workbook xmlns=\"http://schemas.openxmlformats.org/spreadsheetml/2006/main\" xmlns:r=\"http://schemas.openxmlformats.org/officeDocument/2006/relationships\"><sheets><sheet name=\"Sheet 1\" sheetId=\"1\" r:id=\"rId1\"/><sheet name=\"Sheet 2\" sheetId=\"2\" r:id=\"rId2\"/></sheets></workbook>"
    );
    assert_eq!(
        parts[6].1,
        "<?xml version=\"1.0\" encoding=\"UTF-8\" standalone=\"yes\"?><Relationships xmlns=\"http://schemas.openxmlformats.org/package/2006/relationships\"><Relationship Id=\"rId1\" Type=\"http://schemas.openxmlformats.org/officeDocument/2006/relationships/worksheet\" Target=\"worksheets/sheet1.xml\"/><Relationship Id=\"rId2\" Type=\"http://schemas.openxmlformats.org/officeDocument/2006/relationships/worksheet\" Target=\"worksheets/sheet2.xml\"/><Relationship Id=\"rId3\" Type=\"http://schemas.openxmlformats.org/officeDocument/2006/relationships/styles\" Target=\"styles.xml\"/></Relationships>"
    );
}
