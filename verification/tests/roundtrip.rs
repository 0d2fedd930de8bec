use fast_csv::columns::ColType;
use fast_csv::pipe::{PipeProducer, PipeStreamMessage};
use fast_csv::pipe_writer::PipeWriter;
use fast_csv::roundtrip::{
    holds_sheet, pair_cells, read_sheet, select_worksheets, CellPair, FetchAction, FetchEvent,
    RecordCursor, Tally,
};
use fast_csv::workbook::ZipAction;
use fast_csv::xml::{cells_in_order, extract_xml_cells};

fn strings(items: &[&str]) -> Vec<String> {
    items.iter().map(|s| s.to_string()).collect()
}

fn record(fields: &[&str]) -> Vec<Vec<u8>> {
    fields.iter().map(|f| f.as_bytes().to_vec()).collect()
}

fn nearness(pairs: &[CellPair]) -> Vec<bool> {
    pairs
        .iter()
        .map(|p| match (p.xlsx.parse::<f64>(), p.csv.parse::<f64>()) {
            (Ok(a), Ok(b)) => (a - b).abs() < 1e-6,
            _ => false,
        })
        .collect()
}

fn sheet_of(names: &[&str], records: &[Vec<Vec<u8>>]) -> String {
    let names = strings(names);
    let mut data: Vec<u8> = Vec::new();
    let (mut w, _) = PipeWriter::begin(&names);
    let mut p = PipeProducer::new(&names, None);
    for r in records {
        assert!(p.push_record(r.clone()).is_none());
    }
    let mut out = fast_csv::workbook::sheet_head_xml("", &names).into_bytes();
    if let Some(m) = p.finish() {
        for action in w.write(m) {
            if let ZipAction::WriteAll(bytes) = action {
                data.extend(bytes);
            }
        }
    }
    out.extend(data);
    out.extend(fast_csv::workbook::SHEET_CLOSE.as_bytes());
    String::from_utf8(out).unwrap()
}

fn check(names: &[&str], records: &[Vec<Vec<u8>>]) -> Tally {
    let sheet = sheet_of(names, records);
    let (header, rows) = read_sheet(&sheet);
    assert_eq!(extract_xml_cells(&header.unwrap()).len(), names.len());
    let mut tally = Tally::new();
    for (k, row) in rows.iter().enumerate() {
        tally.count_row();
        tally.count_record(true);
        assert!(cells_in_order(row));
        let pairs = pair_cells(&extract_xml_cells(row), &records[k]);
        let close = nearness(&pairs);
        tally.compare_row(&pairs, &close);
    }
    tally
}

#[test]
fn sheets_are_told_by_their_names() {
    assert!(holds_sheet(&"xl/worksheets/sheet1.xml".to_string()));
    assert!(holds_sheet(&"xl/worksheets/sheet.xml".to_string()));
    assert!(!holds_sheet(&"xl/worksheets/sheet1.xml.rels".to_string()));
    assert!(!holds_sheet(&"xl/workbook.xml".to_string()));
    assert!(!holds_sheet(&"a/xl/worksheets/sheet1.xml".to_string()));
    assert!(!holds_sheet(&"".to_string()));
}

#[test]
fn sheets_are_read_in_the_order_of_their_names() {
    let names = strings(&[
        "_rels/.rels",
        "xl/worksheets/sheet2.xml",
        "xl/worksheets/sheet10.xml",
        "xl/worksheets/sheet1.xml",
        "xl/workbook.xml",
        "xl/worksheets/sheet1.xml",
    ]);
    assert_eq!(
        select_worksheets(&names),
        strings(&[
            "xl/worksheets/sheet1.xml",
            "xl/worksheets/sheet1.xml",
            "xl/worksheets/sheet10.xml",
            "xl/worksheets/sheet2.xml",
        ])
    );
    assert_eq!(select_worksheets(&Vec::new()), Vec::<String>::new());
}

#[test]
fn nine_sheets_are_read_from_first_to_last() {
    let names: Vec<String> = (1..=9).rev().map(|i| format!("xl/worksheets/sheet{}.xml", i)).collect();
    let expected: Vec<String> = (1..=9).map(|i| format!("xl/worksheets/sheet{}.xml", i)).collect();
    assert_eq!(select_worksheets(&names), expected);
}

#[test]
fn names_are_ordered_as_std_orders_them() {
    let mut names = strings(&[
        "xl/worksheets/sheetä.xml",
        "xl/worksheets/sheet\u{ffff}.xml",
        "xl/worksheets/sheet\u{10000}.xml",
        "xl/worksheets/sheetA.xml",
        "xl/worksheets/sheet.xml",
        "xl/worksheets/sheeta.xml",
    ]);
    let sorted = select_worksheets(&names);
    names.sort();
    assert_eq!(sorted, names);
}

#[test]
fn the_first_row_is_the_header() {
    let (header, data) = read_sheet("<row><c/></row><row>a</row><row>b</row>");
    assert_eq!(header, Some("<row><c/></row>".to_string()));
    assert_eq!(data, strings(&["<row>a</row>", "<row>b</row>"]));
    let (header, data) = read_sheet("<row r=\"1\"></row>");
    assert_eq!(header, None);
    assert!(data.is_empty());
}

#[test]
fn files_are_read_one_after_the_other() {
    let files: Vec<Vec<u32>> = vec![vec![], vec![10, 11], vec![], vec![12]];
    let mut c = RecordCursor::new(files.len());
    let mut at = 0usize;
    let mut pos = 0usize;
    let mut seen = Vec::new();
    for _ in 0..5 {
        let mut action = c.step(FetchEvent::RowFound);
        loop {
            match action {
                FetchAction::OpenFile(i) => {
                    at = i;
                    pos = 0;
                    action = c.step(FetchEvent::FileOpened);
                }
                FetchAction::ReadRecord => {
                    if pos < files[at].len() {
                        seen.push(Some(files[at][pos]));
                        pos += 1;
                        action = c.step(FetchEvent::RecordRead);
                    } else {
                        action = c.step(FetchEvent::FileEnded);
                    }
                }
                FetchAction::CompareRow => break,
                FetchAction::NoRecord => {
                    seen.push(None);
                    break;
                }
            }
        }
    }
    assert_eq!(seen, vec![Some(10), Some(11), Some(12), None, None]);
    assert_eq!(c, RecordCursor { files: 4, next_file: 4, open: false });
}

#[test]
fn without_files_there_is_no_record() {
    let mut c = RecordCursor::new(0);
    assert_eq!(c.step(FetchEvent::RowFound), FetchAction::NoRecord);
}

#[test]
fn cells_are_paired_with_fields() {
    let pairs = pair_cells(&strings(&[" a ", "1.0", "x", "2"]), &record(&["a", " 1 ", "y"]));
    assert_eq!(pairs.len(), 4);
    assert_eq!((pairs[0].xlsx.as_str(), pairs[0].csv.as_str(), pairs[0].by_number), ("a", "a", false));
    assert_eq!((pairs[1].xlsx.as_str(), pairs[1].csv.as_str(), pairs[1].by_number), ("1.0", "1", true));
    assert_eq!((pairs[2].xlsx.as_str(), pairs[2].csv.as_str(), pairs[2].by_number), ("x", "y", false));
    assert_eq!((pairs[3].xlsx.as_str(), pairs[3].csv.as_str(), pairs[3].by_number), ("2", "", false));
    let pairs = pair_cells(&strings(&[""]), &vec![vec![0xff]]);
    assert_eq!((pairs[0].xlsx.as_str(), pairs[0].csv.as_str()), ("", ""));
}

#[test]
fn rows_are_tallied() {
    let mut t = Tally::new();
    t.count_row();
    t.count_record(true);
    let pairs = pair_cells(&strings(&["1.0", "a", "5"]), &record(&["1", "b", "7"]));
    let found = t.compare_row(&pairs, &vec![true, true, false]);
    assert_eq!(found.len(), 2);
    assert_eq!((found[0].row, found[0].col), (1, 2));
    assert_eq!((found[0].xlsx.as_str(), found[0].csv.as_str()), ("a", "b"));
    assert_eq!((found[1].row, found[1].col), (1, 3));
    assert_eq!(t, Tally { xlsx_rows: 1, csv_rows: 1, cells: 3, mismatches: 2 });
    assert!(!t.passed());
    t.count_row();
    t.count_record(false);
    assert_eq!(t, Tally { xlsx_rows: 2, csv_rows: 1, cells: 3, mismatches: 3 });
}

#[test]
fn only_the_first_mismatches_are_reported() {
    let mut t = Tally::new();
    let mut reported = 0;
    for _ in 0..4 {
        t.count_row();
        t.count_record(true);
        let pairs = pair_cells(&strings(&["a", "b", "c"]), &Vec::new());
        reported += t.compare_row(&pairs, &vec![false, false, false]).len();
    }
    assert_eq!(t.mismatches, 12);
    assert_eq!(reported, 10);
    assert_eq!(t.cells, 12);
}

#[test]
fn missing_rows_do_not_pass() {
    assert!(Tally::new().passed());
    assert!(!Tally { xlsx_rows: 1, csv_rows: 2, cells: 0, mismatches: 0 }.passed());
    assert!(!Tally { xlsx_rows: 2, csv_rows: 2, cells: 0, mismatches: 1 }.passed());
    assert!(Tally { xlsx_rows: 2, csv_rows: 2, cells: 9, mismatches: 0 }.passed());
}

#[test]
fn a_streamed_sheet_matches_its_records() {
    let records = vec![
        record(&["1", "plain", " spaced "]),
        record(&["2.50", "a < b & \"c\" > d", ""]),
        record(&["NaN", "&amp; stays", "häß €\t"]),
        record(&["-1e5", "row </row> <c> <v>1</v>", "end\u{b}"]),
    ];
    let t = check(&["n", "t", "u"], &records);
    assert_eq!(t, Tally { xlsx_rows: 4, csv_rows: 4, cells: 12, mismatches: 0 });
    assert!(t.passed());
}

#[test]
fn what_looks_like_an_entity_does_not_survive() {
    let t = check(&["t"], &[record(&["&lt;"]), record(&["x &quot; y"]), record(&["&gt"])]);
    assert_eq!(t.mismatches, 2);
}

#[test]
fn inner_control_characters_do_not_survive() {
    let t = check(&["t"], &[record(&["a\u{1}b"]), record(&["\u{b}ab\u{c}"])]);
    assert_eq!(t.mismatches, 1);
}

#[test]
fn a_sheet_of_a_stream_holds_its_columns() {
    let mut p = PipeProducer::new(&strings(&["a"]), Some(vec![ColType::Text]));
    assert!(p.push_record(record(&["x"])).is_none());
    match p.finish() {
        Some(PipeStreamMessage::Chunk { rows_count, xml_data }) => {
            assert_eq!(rows_count, 1);
            assert_eq!(
                String::from_utf8(xml_data).unwrap(),
                "<row><c t=\"inlineStr\"><is><t>x</t></is></c></row>"
            );
        }
        _ => panic!("no chunk"),
    }
}
