use drift::csv::parse;

#[test]
fn plain_rows() {
    let t = parse("a,b\n1,2\n3,4\n").unwrap();
    assert_eq!(t.header, ["a", "b"]);
    assert_eq!(t.rows, [["1", "2"], ["3", "4"]]);
}

#[test]
fn quoted_commas_and_newlines_stay_in_the_field() {
    let t = parse("a,b\n\"x,y\",\"line\nbreak\"\n").unwrap();
    assert_eq!(t.rows[0], ["x,y", "line\nbreak"]);
}

#[test]
fn doubled_quote_is_one_quote() {
    let t = parse("a\n\"he said \"\"hi\"\"\"\n").unwrap();
    assert_eq!(t.rows[0][0], r#"he said "hi""#);
}

#[test]
fn crlf_is_one_line_break() {
    let t = parse("a,b\r\n1,2\r\n").unwrap();
    assert_eq!(t.rows.len(), 1);
    assert_eq!(t.rows[0], ["1", "2"]);
}

#[test]
fn no_trailing_newline_still_yields_the_last_row() {
    let t = parse("a,b\n1,2").unwrap();
    assert_eq!(t.rows, [["1", "2"]]);
}

#[test]
fn ragged_rows_read_short_fields_as_empty() {
    let t = parse("a,b,c\n1,2\n").unwrap();
    assert_eq!(t.field(&t.rows[0], 2), "");
}

#[test]
fn unterminated_quote_is_an_error_not_a_panic() {
    assert!(parse("a\n\"oops\n").unwrap_err().contains("unterminated"));
}

#[test]
fn empty_input_is_an_error() {
    assert!(parse("").is_err());
}

#[test]
fn a_leading_bom_is_dropped_so_the_first_column_is_named() {
    // Excel-style export: a UTF-8 BOM ahead of the header. Without dropping
    // it the first column reads as "\u{feff}id" and no key matches.
    let t = parse("\u{feff}id,v\n1,a\n").unwrap();
    assert_eq!(t.header, ["id", "v"]);
    assert_eq!(t.column("id"), Some(0));
}

#[test]
fn only_one_leading_bom_is_dropped() {
    // A second BOM is data, not a marker, and stays on the field.
    let t = parse("\u{feff}\u{feff}id\n1\n").unwrap();
    assert_eq!(t.header, ["\u{feff}id"]);
}

#[test]
fn a_bare_cr_is_a_line_break() {
    // Old-Mac line endings: a lone \r with no following \n still ends a row.
    let t = parse("a,b\r1,2\r").unwrap();
    assert_eq!(t.rows, [["1", "2"]]);
}

#[test]
fn a_quoted_field_may_be_empty() {
    let t = parse("a,b\n\"\",x\n").unwrap();
    assert_eq!(t.rows[0], ["", "x"]);
}

#[test]
fn a_quoted_field_may_hold_a_comma_only() {
    let t = parse("a\n\",\"\n").unwrap();
    assert_eq!(t.rows[0], [","]);
}

#[test]
fn trailing_blank_lines_are_not_rows() {
    let t = parse("a\n1\n\n\n").unwrap();
    assert_eq!(t.rows, [["1"]]);
}

#[test]
fn a_header_only_file_has_no_rows() {
    let t = parse("a,b\n").unwrap();
    assert_eq!(t.header, ["a", "b"]);
    assert!(t.rows.is_empty());
}
