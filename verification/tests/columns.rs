use fast_csv::columns::{
    align_row, classify_byte_columns, classify_columns_from_sample, col_letters, collect_headers,
    get_col_letter, header_map, parse_types, position, ColType,
};

fn strings(items: &[&str]) -> Vec<String> {
    items.iter().map(|s| s.to_string()).collect()
}

fn table(rows: &[&[&str]]) -> Vec<Vec<String>> {
    rows.iter().map(|r| strings(r)).collect()
}

fn byte_table(rows: &[&[&[u8]]]) -> Vec<Vec<Vec<u8>>> {
    rows.iter().map(|r| r.iter().map(|f| f.to_vec()).collect()).collect()
}

#[test]
fn columns_have_letters() {
    for (i, name) in [
        (0, "A"), (1, "B"), (25, "Z"), (26, "AA"), (27, "AB"), (51, "AZ"), (52, "BA"), (701, "ZZ"),
        (702, "AAA"), (703, "AAB"), (16_383, "XFD"), (18_277, "ZZZ"), (18_278, "AAAA"),
    ] {
        assert_eq!(get_col_letter(i), name);
    }
    assert_eq!(col_letters(3), strings(&["A", "B", "C"]));
    assert_eq!(col_letters(0), Vec::<String>::new());
}

#[test]
fn letters_give_the_column_back() {
    for i in 0..20_000usize {
        let mut n: usize = 0;
        for c in get_col_letter(i).chars() {
            n = n * 26 + (c as usize - 'A' as usize + 1);
        }
        assert_eq!(n, i + 1);
    }
    assert!(!get_col_letter(usize::MAX).is_empty());
}

#[test]
fn sampled_columns_are_numeric_or_text() {
    let rows = table(&[
        &["1", "a", "", " 2.5 ", "nan", "1"],
        &["-3e2", "1", "  ", "", "inf", "x"],
        &["+4", "2"],
    ]);
    let headers = strings(&["n", "t", "empty", "spaced", "words", "late", "missing"]);
    assert_eq!(
        classify_columns_from_sample(&rows, &headers),
        vec![
            ColType::Numeric, ColType::Text, ColType::Text, ColType::Numeric, ColType::Numeric,
            ColType::Text, ColType::Text,
        ]
    );
    assert_eq!(classify_columns_from_sample(&Vec::new(), &strings(&["a"])), vec![ColType::Text]);
}

#[test]
fn byte_columns_are_numeric_or_text() {
    let rows = byte_table(&[
        &[b"1", b"\xff", b"", b" 7 ", b"1"],
        &[b"2.0", b"3", b"", b"", b"one"],
    ]);
    assert_eq!(
        classify_byte_columns(&rows, 6),
        vec![
            ColType::Numeric, ColType::Numeric, ColType::Text, ColType::Numeric, ColType::Text,
            ColType::Text,
        ]
    );
}

#[test]
fn types_are_declared() {
    let n = ColType::Numeric;
    let t = ColType::Text;
    assert_eq!(parse_types("N,T,N,T", 4), vec![n, t, n, t]);
    assert_eq!(parse_types("N,N", 4), vec![n, n, t, t]);
    assert_eq!(parse_types("N,N,N", 2), vec![n, n]);
    assert_eq!(parse_types("", 2), vec![t, t]);
    assert_eq!(parse_types("n,X,,N", 4), vec![t, t, t, n]);
    assert_eq!(parse_types("N", 0), Vec::<ColType>::new());
}

#[test]
fn headers_of_all_files_are_collected() {
    let files = table(&[&["id", "name"], &["name", "city", "id"], &[], &["zip", "zip"]]);
    assert_eq!(collect_headers(&files), strings(&["id", "name", "city", "zip"]));
    assert_eq!(position(&strings(&["a", "b", "a"]), &"a".to_string()), Some(0));
    assert_eq!(position(&strings(&["a", "b"]), &"c".to_string()), None);
}

#[test]
fn records_are_aligned() {
    let headers = strings(&["id", "name", "city"]);
    let map = header_map(&strings(&["city", "id"]), &headers);
    assert_eq!(map, vec![2, 0]);
    assert_eq!(align_row(&strings(&["Rome", "7"]), &map, 3), strings(&["7", "", "Rome"]));
    assert_eq!(align_row(&strings(&["Rome"]), &map, 3), strings(&["", "", "Rome"]));
    assert_eq!(align_row(&strings(&["Rome", "7", "more"]), &map, 3), strings(&["7", "", "Rome"]));
    assert_eq!(align_row(&Vec::new(), &map, 3), strings(&["", "", ""]));
}

#[test]
fn of_repeated_headers_the_last_field_stays() {
    let headers = collect_headers(&table(&[&["a", "a"]]));
    let map = header_map(&strings(&["a", "a"]), &headers);
    assert_eq!(map, vec![0, 0]);
    assert_eq!(align_row(&strings(&["x", "y"]), &map, 1), strings(&["y"]));
}

#[test]
fn the_headers_of_each_file_are_found_again() {
    let files = table(&[&["b", "a"], &["c", "a"], &["a", "b", "c"]]);
    let headers = collect_headers(&files);
    for file in &files {
        let map = header_map(file, &headers);
        let row = align_row(file, &map, headers.len());
        for (i, name) in headers.iter().enumerate() {
            if file.contains(name) {
                assert_eq!(row[i], *name);
            } else {
                assert_eq!(row[i], "");
            }
        }
    }
}
