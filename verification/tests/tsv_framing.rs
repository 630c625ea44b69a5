use data_table::tsv::{compose, parse};

fn table(rows: &[&[&str]]) -> Vec<Vec<String>> {
    rows.iter()
        .map(|r| r.iter().map(|s| s.to_string()).collect())
        .collect()
}

#[test]
fn compose_plain_cells() {
    let rows = table(&[&["a", "b"], &["c", "d"]]);
    assert_eq!(compose(&rows), "a\tb\nc\td\n");
}

#[test]
fn compose_escapes_delimiters_losslessly() {
    let rows = table(&[&["ta\tb", "nl\nx"], &["back\\slash", "cr\rz"]]);
    let text = compose(&rows);
    assert_eq!(text, "ta\\tb\tnl\\nx\nback\\\\slash\tcr\\rz\n");
    assert_eq!(parse(&text), rows);
}

#[test]
fn parse_inverts_compose_on_arbitrary_cells() {
    let rows = table(&[
        &["", "plain", "wei\trd\\"],
        &["multi\nline", "", ""],
        &["1", "2", "3"],
    ]);
    assert_eq!(parse(&compose(&rows)), rows);
}

#[test]
fn parse_empty_text_is_no_rows() {
    assert_eq!(parse(""), table(&[]));
}

#[test]
fn parse_handles_missing_trailing_newline() {
    assert_eq!(parse("a\tb"), table(&[&["a", "b"]]));
    assert_eq!(parse("a\tb\n"), table(&[&["a", "b"]]));
}

#[test]
fn parse_single_newline_is_one_empty_cell_row() {
    assert_eq!(parse("\n"), table(&[&[""]]));
}

#[test]
fn parse_unescapes_codes() {
    assert_eq!(parse("x\\ty\n"), table(&[&["x\ty"]]));
    assert_eq!(parse("x\\ny\n"), table(&[&["x\ny"]]));
    assert_eq!(parse("x\\\\y\n"), table(&[&["x\\y"]]));
}
