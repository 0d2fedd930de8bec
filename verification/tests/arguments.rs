use fast_csv::args::{merge_options, pipe_options, verify_options};

fn strings(items: &[&str]) -> Vec<String> {
    items.iter().map(|s| s.to_string()).collect()
}

fn samples() -> Vec<String> {
    (1..=3).map(|i| format!("output/sample_20260812_180359_Part_{}.csv", i)).collect()
}

fn pipe(args: &[&str]) -> (bool, Option<String>, String) {
    let o = pipe_options(&strings(args));
    (o.store, o.types, o.output)
}

#[test]
fn merging_names_its_files() {
    assert_eq!(
        merge_options(&strings(&["p", "-o", "out.xlsx", "a.csv", "b.csv"])),
        (strings(&["a.csv", "b.csv"]), "out.xlsx".to_string())
    );
    assert_eq!(merge_options(&strings(&["p", "-o", "out.xlsx"])), (Vec::new(), "out.xlsx".to_string()));
    assert_eq!(
        merge_options(&strings(&["p", "a.csv", "-o", "x"])),
        (strings(&["a.csv", "-o", "x"]), "output_fast.xlsx".to_string())
    );
    assert_eq!(
        merge_options(&strings(&["p", "-o"])),
        (strings(&["-o"]), "output_fast.xlsx".to_string())
    );
    assert_eq!(merge_options(&strings(&["p"])), (samples(), "output/merged_report.xlsx".to_string()));
}

#[test]
fn comparing_names_its_files() {
    assert_eq!(
        verify_options(&strings(&["p", "w.xlsx", "a.csv", "b.csv"])),
        ("w.xlsx".to_string(), strings(&["a.csv", "b.csv"]))
    );
    assert_eq!(verify_options(&strings(&["p", "w.xlsx"])), ("w.xlsx".to_string(), samples()));
    assert_eq!(
        verify_options(&strings(&["p"])),
        ("output/merged_report.xlsx".to_string(), samples())
    );
}

#[test]
fn streaming_names_its_output() {
    assert_eq!(pipe(&["p", "-o", "out.xlsx"]), (false, None, "out.xlsx".to_string()));
    assert_eq!(pipe(&["p", "out.xlsx"]), (false, None, "out.xlsx".to_string()));
    assert_eq!(pipe(&["p"]), (false, None, "output/piped_output.xlsx".to_string()));
    assert_eq!(pipe(&["p", "-o"]), (false, None, "output/piped_output.xlsx".to_string()));
    assert_eq!(pipe(&["p", "-x", "y"]), (false, None, "output/piped_output.xlsx".to_string()));
    assert_eq!(pipe(&["p", ""]), (false, None, "".to_string()));
    assert_eq!(pipe(&[]), (false, None, "output/piped_output.xlsx".to_string()));
}

#[test]
fn storing_is_asked_for_anywhere() {
    assert_eq!(pipe(&["p", "--store", "-o", "x"]), (true, None, "x".to_string()));
    assert_eq!(pipe(&["p", "-o", "--store", "x"]), (true, None, "x".to_string()));
    assert_eq!(pipe(&["--store"]), (true, None, "output/piped_output.xlsx".to_string()));
}

#[test]
fn types_are_declared_anywhere() {
    let codes = Some("N,T".to_string());
    assert_eq!(pipe(&["p", "-o", "x", "--types", "N,T"]), (false, codes.clone(), "x".to_string()));
    assert_eq!(pipe(&["p", "--types", "N,T", "-o", "x"]), (false, codes.clone(), "x".to_string()));
    assert_eq!(pipe(&["p", "x", "--types", "--store", "N,T"]), (true, codes, "x".to_string()));
    assert_eq!(pipe(&["p", "x", "--types"]), (false, None, "x".to_string()));
}
