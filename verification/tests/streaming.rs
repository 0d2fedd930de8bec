use fast_csv::columns::{parse_types, ColType};
use fast_csv::pipe::{PipeProducer, PipeStreamMessage, CHUNK_ROWS, SAMPLE_RECORDS};
use fast_csv::pipe_writer::PipeWriter;
use fast_csv::workbook::{
    content_types_xml, sheet_head_xml, workbook_rels_xml, workbook_xml, ZipAction,
    MAX_ROWS_PER_SHEET, RELS_XML, SHEET_CLOSE, STYLES_XML,
};

fn strings(items: &[&str]) -> Vec<String> {
    items.iter().map(|s| s.to_string()).collect()
}

fn record(fields: &[&str]) -> Vec<Vec<u8>> {
    fields.iter().map(|f| f.as_bytes().to_vec()).collect()
}

fn chunk(m: PipeStreamMessage) -> (usize, String) {
    match m {
        PipeStreamMessage::Chunk { rows_count, xml_data } => {
            (rows_count, String::from_utf8(xml_data).unwrap())
        }
        PipeStreamMessage::Header(_) => panic!("a header"),
    }
}

fn stream(
    names: &[&str],
    declared: Option<Vec<ColType>>,
    records: Vec<Vec<Vec<u8>>>,
) -> Vec<(usize, String)> {
    let mut p = PipeProducer::new(&strings(names), declared);
    let mut out = Vec::new();
    for r in records {
        if let Some(m) = p.push_record(r) {
            out.push(chunk(m));
        }
    }
    if let Some(m) = p.finish() {
        out.push(chunk(m));
    }
    out
}

fn apply(archive: &mut Vec<(String, Vec<u8>)>, actions: Vec<ZipAction>) {
    for action in actions {
        match action {
            ZipAction::StartFile(name) => archive.push((name, Vec::new())),
            ZipAction::WriteAll(data) => archive.last_mut().unwrap().1.extend(data),
        }
    }
}

fn write(names: &[&str], chunks: Vec<(usize, Vec<u8>)>) -> (Vec<(String, String)>, usize, usize) {
    let mut archive: Vec<(String, Vec<u8>)> = Vec::new();
    let (mut w, actions) = PipeWriter::begin(&strings(names));
    apply(&mut archive, actions);
    for (rows_count, xml_data) in chunks {
        let actions = w.write(PipeStreamMessage::Chunk { rows_count, xml_data });
        apply(&mut archive, actions);
    }
    let rows = w.rows();
    let sheets = w.sheets();
    apply(&mut archive, w.finish());
    let texts =
        archive.into_iter().map(|(name, data)| (name, String::from_utf8(data).unwrap())).collect();
    (texts, rows, sheets)
}

#[test]
fn a_short_stream_is_one_chunk() {
    let out = stream(&["id", "name"], None, vec![record(&["1", "a"]), record(&["2", "b&c"])]);
    assert_eq!(
        out,
        vec![(
            2,
            "<row><c><v>1</v></c><c t=\"inlineStr\"><is><t>a</t></is></c></row>\
             <row><c><v>2</v></c><c t=\"inlineStr\"><is><t>b&amp;c</t></is></c></row>"
                .to_string()
        )]
    );
}

#[test]
fn an_empty_stream_has_no_chunk() {
    assert_eq!(stream(&["id"], None, Vec::new()), Vec::new());
    assert_eq!(stream(&["id"], None, vec![record(&["id"]), record(&["id"])]), Vec::new());
    assert_eq!(PipeProducer::new(&strings(&["a", "b"]), None).columns(), 2);
}

#[test]
fn repeated_headers_are_dropped() {
    let out = stream(
        &["id", "name"],
        None,
        vec![record(&["1", "a"]), record(&["id", "name"]), record(&["id"]), record(&["id", "Name"])],
    );
    assert_eq!(out.len(), 1);
    assert_eq!(out[0].0, 3);
    assert_eq!(out[0].1.matches("<row>").count(), 3);
    assert!(out[0].1.contains("<t>Name</t>"));
    assert!(!out[0].1.contains("<t>name</t>"));
}

#[test]
fn the_types_come_from_the_first_records() {
    let mut records: Vec<Vec<Vec<u8>>> = (0..SAMPLE_RECORDS).map(|i| record(&[&i.to_string()])).collect();
    records.push(record(&["late"]));
    records.push(record(&["17"]));
    let out = stream(&["n"], None, records);
    assert_eq!(out.len(), 1);
    assert_eq!(out[0].0, SAMPLE_RECORDS + 2);
    assert!(out[0].1.starts_with("<row><c><v>0</v></c></row>"));
    assert!(out[0].1.ends_with(
        "<row><c t=\"inlineStr\"><is><t>late</t></is></c></row><row><c><v>17</v></c></row>"
    ));
    let mut records: Vec<Vec<Vec<u8>>> = (1..SAMPLE_RECORDS).map(|i| record(&[&i.to_string()])).collect();
    records.push(record(&["late"]));
    let out = stream(&["n"], None, records);
    assert!(out[0].1.starts_with("<row><c t=\"inlineStr\"><is><t>1</t></is></c></row>"));
}

#[test]
fn declared_types_need_no_sample() {
    let types = parse_types("T,N", 2);
    let out = stream(&["a", "b"], Some(types), vec![record(&["1", "2"]), record(&["x", "y"])]);
    assert_eq!(
        out,
        vec![(
            2,
            "<row><c t=\"inlineStr\"><is><t>1</t></is></c><c><v>2</v></c></row>\
             <row><c t=\"inlineStr\"><is><t>x</t></is></c><c t=\"inlineStr\"><is><t>y</t></is></c></row>"
                .to_string()
        )]
    );
}

#[test]
fn full_chunks_are_handed_out() {
    let records: Vec<Vec<Vec<u8>>> = (0..CHUNK_ROWS * 2 + 1).map(|i| record(&[&i.to_string()])).collect();
    let out = stream(&["n"], None, records);
    assert_eq!(out.iter().map(|c| c.0).collect::<Vec<usize>>(), vec![25_000, 25_000, 1]);
    assert!(out[0].1.ends_with("<row><c><v>24999</v></c></row>"));
    assert!(out[1].1.starts_with("<row><c><v>25000</v></c></row>"));
    assert_eq!(out[2].1, "<row><c><v>50000</v></c></row>");
    let records: Vec<Vec<Vec<u8>>> = (0..CHUNK_ROWS).map(|i| record(&[&i.to_string()])).collect();
    assert_eq!(stream(&["n"], None, records).len(), 1);
}

#[test]
fn a_workbook_of_one_sheet() {
    let head = sheet_head_xml("", &strings(&["id"]));
    let (parts, rows, sheets) = write(&["id"], vec![(2, b"<row>1</row><row>2</row>".to_vec()), (1, b"<row>3</row>".to_vec())]);
    assert_eq!((rows, sheets), (3, 1));
    assert_eq!(
        parts,
        vec![
            ("_rels/.rels".to_string(), RELS_XML.to_string()),
            ("xl/styles.xml".to_string(), STYLES_XML.to_string()),
            (
                "xl/worksheets/sheet1.xml".to_string(),
                format!("{}<row>1</row><row>2</row><row>3</row>{}", head, SHEET_CLOSE)
            ),
            ("[Content_Types].xml".to_string(), content_types_xml(1, "\n")),
            ("xl/workbook.xml".to_string(), workbook_xml(1, "\n")),
            ("xl/_rels/workbook.xml.rels".to_string(), workbook_rels_xml(1, "\n")),
        ]
    );
}

#[test]
fn a_workbook_without_rows() {
    let (parts, rows, sheets) = write(&["id"], Vec::new());
    assert_eq!((rows, sheets), (0, 1));
    assert_eq!(parts.len(), 6);
    assert_eq!(parts[2].1, format!("{}{}", sheet_head_xml("", &strings(&["id"])), SHEET_CLOSE));
}

#[test]
fn a_chunk_over_the_limit_starts_a_sheet() {
    let head = sheet_head_xml("", &strings(&["id"]));
    let (parts, rows, sheets) = write(
        &["id"],
        vec![
            (MAX_ROWS_PER_SHEET - 1, b"a".to_vec()),
            (1, b"b".to_vec()),
            (1, b"c".to_vec()),
            (MAX_ROWS_PER_SHEET, b"d".to_vec()),
        ],
    );
    assert_eq!(rows, 2 * MAX_ROWS_PER_SHEET + 1);
    assert_eq!(sheets, 3);
    assert_eq!(parts.len(), 8);
    assert_eq!(parts[2].0, "xl/worksheets/sheet1.xml");
    assert_eq!(parts[2].1, format!("{}ab{}", head, SHEET_CLOSE));
    assert_eq!(parts[3].0, "xl/worksheets/sheet2.xml");
    assert_eq!(parts[3].1, format!("{}c{}", head, SHEET_CLOSE));
    assert_eq!(parts[4].0, "xl/worksheets/sheet3.xml");
    assert_eq!(parts[4].1, format!("{}d{}", head, SHEET_CLOSE));
    assert_eq!(parts[5].1, content_types_xml(3, "\n"));
    assert_eq!(parts[6].1, workbook_xml(3, "\n"));
    assert_eq!(parts[7].1, workbook_rels_xml(3, "\n"));
}

#[test]
fn a_further_header_is_left_out() {
    let (mut w, _) = PipeWriter::begin(&strings(&["id"]));
    assert!(w.write(PipeStreamMessage::Header(strings(&["other"]))).is_empty());
    assert_eq!(w.rows(), 0);
}
