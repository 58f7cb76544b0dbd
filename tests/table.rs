use tabview::{ParseError, Row, Table};

fn sample() -> &'static str {
    "header 1    header 2    header 3\n\
     a           bbbbbbbbb…  ccc     \n\
     dddddddddd              f       \n"
}

fn cells(row: &Row) -> Vec<&str> {
    row.cells.iter().map(|c| c.as_str()).collect()
}

#[test]
fn parse_table_from_string() {
    let string = "\n\
        header 1    header 2    header 3\n\
        a           bbbbbbbbb…  ccc     \n\
        dddddddddd              f       \n\
    ";
    let table = Table::from(string);

    assert_eq!(table.header.cells, vec!["header 1", "header 2", "header 3"]);
    assert_eq!(table.rows[0].cells, vec!["a", "bbbbbbbbb…", "ccc"]);
    assert_eq!(table.rows[1].cells, vec!["dddddddddd", "", "f"]);
}

#[test]
fn parse_scenario_table() {
    let table = Table::parse(sample()).unwrap();
    assert_eq!(cells(&table.header), vec!["header 1", "header 2", "header 3"]);
    assert_eq!(table.rows.len(), 2);
    assert_eq!(cells(&table.rows[0]), vec!["a", "bbbbbbbbb…", "ccc"]);
    assert_eq!(cells(&table.rows[1]), vec!["dddddddddd", "", "f"]);
}

#[test]
fn leading_blank_line_is_ignored() {
    let plain = Table::parse(sample()).unwrap();
    let padded_input = format!("\n{}", sample());
    let padded = Table::parse(&padded_input).unwrap();
    assert_eq!(plain.header.cells, padded.header.cells);
    assert_eq!(plain.rows.len(), padded.rows.len());
    for (a, b) in plain.rows.iter().zip(padded.rows.iter()) {
        assert_eq!(a.cells, b.cells);
    }
}

#[test]
fn blank_lines_between_rows_are_ignored() {
    let table = Table::parse("h1  h2\n\n\nx   y\n\n").unwrap();
    assert_eq!(table.rows.len(), 1);
    assert_eq!(cells(&table.rows[0]), vec!["x", "y"]);
}

#[test]
fn filter_single_letter_keeps_first_row() {
    let table = Table::parse(sample()).unwrap();
    let kept = table.filtered_rows("b");
    assert_eq!(kept.len(), 1);
    assert_eq!(cells(kept[0]), vec!["a", "bbbbbbbbb…", "ccc"]);
}

#[test]
fn filter_empty_pattern_keeps_all_rows_in_order() {
    let table = Table::parse(sample()).unwrap();
    let kept = table.filtered_rows("");
    assert_eq!(kept.len(), 2);
    assert_eq!(cells(kept[0]), vec!["a", "bbbbbbbbb…", "ccc"]);
    assert_eq!(cells(kept[1]), vec!["dddddddddd", "", "f"]);
}

#[test]
fn filter_without_match_is_empty() {
    let table = Table::parse(sample()).unwrap();
    assert!(table.filtered_rows("zzz").is_empty());
    assert!(table.filtered_rows("header").is_empty());
}

#[test]
fn filter_is_case_sensitive() {
    let table = Table::parse(sample()).unwrap();
    assert!(table.filtered_rows("B").is_empty());
    assert_eq!(table.filtered_rows("f").len(), 1);
}

#[test]
fn filter_keeps_table_order() {
    let table = Table::parse("name  tag\nx1    red\ny     blue\nx2    red\n").unwrap();
    let kept = table.filtered_rows("red");
    assert_eq!(kept.len(), 2);
    assert_eq!(cells(kept[0]), vec!["x1", "red"]);
    assert_eq!(cells(kept[1]), vec!["x2", "red"]);
}

#[test]
fn longer_pattern_keeps_no_more_rows() {
    let table = Table::parse("name  tag\nab    one\nabc   two\nb     three\n").unwrap();
    let wide = table.filtered_rows("b");
    let narrow = table.filtered_rows("bc");
    assert_eq!(wide.len(), 3);
    assert_eq!(narrow.len(), 1);
    for row in &narrow {
        assert!(wide.iter().any(|w| w.cells == row.cells));
    }
}

#[test]
fn filter_leaves_table_unchanged() {
    let table = Table::parse(sample()).unwrap();
    let _ = table.filtered_rows("b");
    assert_eq!(table.rows.len(), 2);
    assert_eq!(cells(&table.rows[1]), vec!["dddddddddd", "", "f"]);
}

#[test]
fn header_only_parses_to_zero_rows() {
    let table = Table::parse("name  size\n").unwrap();
    assert_eq!(cells(&table.header), vec!["name", "size"]);
    assert!(table.rows.is_empty());
    assert!(table.filtered_rows("").is_empty());
}

#[test]
fn empty_input_has_no_header() {
    assert_eq!(Table::parse("").err(), Some(ParseError::NoHeader));
    assert_eq!(Table::parse("\n\n\n").err(), Some(ParseError::NoHeader));
    assert_eq!(Table::parse("\r\n").err(), Some(ParseError::NoHeader));
}

#[test]
fn from_without_header_gives_empty_table() {
    let table = Table::from("\n");
    assert!(table.header.cells.is_empty());
    assert!(table.rows.is_empty());
}

#[test]
fn every_row_has_header_cell_count() {
    let table = Table::parse("a  b  c\n1\n1  2\n1  2  3  4\n\n   x\n").unwrap();
    assert_eq!(table.rows.len(), 4);
    for row in &table.rows {
        assert_eq!(row.cells.len(), 3);
    }
    assert_eq!(cells(&table.rows[0]), vec!["1", "", ""]);
    assert_eq!(cells(&table.rows[2]), vec!["1", "2", "3"]);
    assert_eq!(cells(&table.rows[3]), vec!["", "x", ""]);
}

#[test]
fn single_column_header_takes_whole_line() {
    let table = Table::parse("one label here\nsome value\n").unwrap();
    assert_eq!(cells(&table.header), vec!["one label here"]);
    assert_eq!(cells(&table.rows[0]), vec!["some value"]);
}

#[test]
fn double_space_truncates_cell() {
    let table = Table::parse("col a       col b\nx  y        z\n").unwrap();
    assert_eq!(cells(&table.header), vec!["col a", "col b"]);
    assert_eq!(cells(&table.rows[0]), vec!["x", "z"]);
}

#[test]
fn tab_separates_columns() {
    let table = Table::parse("a\tb\nx\ty\n").unwrap();
    assert_eq!(cells(&table.header), vec!["a", "b"]);
    assert_eq!(cells(&table.rows[0]), vec!["x", "y"]);
}

#[test]
fn crlf_line_endings() {
    let table = Table::parse("h1  h2\r\nv1  v2\r\n").unwrap();
    assert_eq!(cells(&table.header), vec!["h1", "h2"]);
    assert_eq!(cells(&table.rows[0]), vec!["v1", "v2"]);
}

#[test]
fn whitespace_only_header_has_no_columns() {
    let table = Table::parse("   \nabc\n").unwrap();
    assert!(table.header.cells.is_empty());
    assert_eq!(table.rows.len(), 1);
    assert!(table.rows[0].cells.is_empty());
}

#[test]
fn combining_mark_in_data_keeps_cluster() {
    let table = Table::parse("a  b\ne\u{301}  z\n").unwrap();
    assert_eq!(cells(&table.rows[0]), vec!["e\u{301}", "z"]);
}

#[test]
fn combining_mark_in_header_counts_one_column_offset() {
    let table = Table::parse("e\u{301}  b\nx  y\n").unwrap();
    assert_eq!(cells(&table.header), vec!["e\u{301}", "b"]);
    assert_eq!(cells(&table.rows[0]), vec!["x", "y"]);
}

#[test]
fn wide_symbols_count_as_one_offset() {
    let table = Table::parse("名前  年\n山田  30\n").unwrap();
    assert_eq!(cells(&table.header), vec!["名前", "年"]);
    assert_eq!(cells(&table.rows[0]), vec!["山田", "30"]);
}

#[test]
fn parsing_twice_gives_equal_tables() {
    let a = Table::parse(sample()).unwrap();
    let b = Table::parse(sample()).unwrap();
    assert_eq!(a.header.cells, b.header.cells);
    assert_eq!(a.rows.len(), b.rows.len());
    for (x, y) in a.rows.iter().zip(b.rows.iter()) {
        assert_eq!(x.cells, y.cells);
    }
}

#[test]
fn row_contains_checks_every_cell() {
    let row = Row { cells: vec!["alpha".to_string(), "beta".to_string()] };
    assert!(row.contains("ph"));
    assert!(row.contains("eta"));
    assert!(row.contains(""));
    assert!(!row.contains("gamma"));
    assert!(!row.contains("alphabeta"));
    let empty = Row { cells: vec![] };
    assert!(!empty.contains(""));
}
