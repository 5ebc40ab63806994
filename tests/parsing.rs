use csv_tools::{contains_char, contains_text, parse_line, read_columns, read_rows, split_line, CSVFile, CsvError};

#[test]
fn test_parse_line() {
    let line = r"a,b,c".to_string();
    let result = parse_line(&line, &',', None).unwrap();
    assert_eq!(result, vec!["a", "b", "c"]);

    let line = r#"a,"Hello, World!",c"#.to_string();
    let result = parse_line(&line, &',', None).unwrap();
    assert_eq!(result, vec!["a", "Hello, World!", "c"]);

    let line = r#"a,"Hello, \\World!",c"#.to_string();
    let result = parse_line(&line, &',', None).unwrap();
    assert_eq!(result, vec!["a", r"Hello, \World!", "c"]);

    let line = r#"a,"Hello, \\\\World!",c"#.to_string();
    let result = parse_line(&line, &',', None).unwrap();
    assert_eq!(result, vec!["a", r"Hello, \\World!", "c"]);

    let line = r#"a,"Hello, \\\World!",c"#.to_string();
    let result = parse_line(&line, &',', None).unwrap();
    assert_eq!(result, vec!["a", r"Hello, \World!", "c"]);

    let line = r#"a,"Hello, \"World!",c"#.to_string();
    let result = parse_line(&line, &',', None).unwrap();
    assert_eq!(result, vec!["a", r#"Hello, "World!"#, "c"]);

    // Unclosed quote
    let line = r#"a,"Hello, World!,c"#.to_string();
    let result = parse_line(&line, &',', None);
    assert!(result.is_err());

    // Invalid escape sequence
    let line = r#"a,"Hello, World!",c\"#.to_string();
    let result = parse_line(&line, &',', None);
    assert!(result.is_err());
}

#[test]
fn test_split_line() {
    let line = r"a,b,c".to_string();
    let result = split_line(&line, &',');
    assert_eq!(result, vec!["a", "b", "c"]);

    let line = r"a,'Hello, World!',c".to_string();
    let result = split_line(&line, &',');
    assert_eq!(result, vec!["a", "'Hello", " World!'", "c"]);
}

#[test]
fn test_read_columns() {
    let line = r"a,b,c".to_string();
    let result = read_columns(&line, &',').unwrap();
    assert_eq!(result, vec!["a", "b", "c"]);

    let line = r#"a,"Hello, World!",c"#.to_string();
    let result = read_columns(&line, &',').unwrap();
    assert_eq!(result, vec!["a", "Hello, World!", "c"]);
}

#[test]
fn scanner_and_plain_split_agree_without_quotes() {
    let lines = ["a,b,c", "", ",", "x,,y,", "one field", ";a;b"];
    for text in lines.iter() {
        let line = text.to_string();
        for d in [',', ';', ' '] {
            assert_eq!(parse_line(&line, &d, None).unwrap(), split_line(&line, &d));
        }
    }
}

#[test]
fn scanner_drops_lone_backslash_that_plain_split_keeps() {
    let line = r"a\,b".to_string();
    assert_eq!(parse_line(&line, &',', None).unwrap(), vec!["a", "b"]);
    assert_eq!(split_line(&line, &','), vec![r"a\", "b"]);
}

#[test]
fn escaped_backslash_inside_quotes() {
    let line = r#"a,"Hello, \\World!",c"#.to_string();
    assert_eq!(parse_line(&line, &',', None).unwrap(), vec!["a", r"Hello, \World!", "c"]);
}

#[test]
fn escaped_quote_inside_quotes() {
    let line = r#"a,"Hello, \"World!",c"#.to_string();
    assert_eq!(parse_line(&line, &',', None).unwrap(), vec!["a", "Hello, \"World!", "c"]);
}

#[test]
fn unterminated_quote_fails() {
    let line = r#"a,"Hello, World!,c"#.to_string();
    assert_eq!(parse_line(&line, &',', None), Err(CsvError::Unterminated));
}

#[test]
fn trailing_backslash_after_closed_quote_fails() {
    let line = r#"a,"Hello, World!",c\"#.to_string();
    assert_eq!(parse_line(&line, &',', None), Err(CsvError::Unterminated));
}

#[test]
fn character_after_closing_quote_is_dropped() {
    let line = r#""ab"Xcd"#.to_string();
    assert_eq!(parse_line(&line, &',', None).unwrap(), vec!["ab", "cd"]);
    let line = r#""ab""#.to_string();
    assert_eq!(parse_line(&line, &',', None).unwrap(), vec!["ab", ""]);
}

#[test]
fn text_before_an_opening_quote_stays_in_the_field() {
    let line = r#"x"a,b",c"#.to_string();
    assert_eq!(parse_line(&line, &',', Some(2)).unwrap(), vec!["xa,b", "c"]);
}

#[test]
fn field_count_hint_does_not_change_the_result() {
    let line = r#"a,"b,c",d"#.to_string();
    assert_eq!(
        parse_line(&line, &',', Some(1)).unwrap(),
        parse_line(&line, &',', None).unwrap()
    );
    assert_eq!(parse_line(&line, &',', Some(0)).unwrap(), vec!["a", "b,c", "d"]);
}

#[test]
fn split_of_empty_line_is_one_empty_field() {
    assert_eq!(split_line(&String::new(), &','), vec![""]);
    assert_eq!(parse_line(&String::new(), &',', None).unwrap(), vec![""]);
}

#[test]
fn other_delimiters() {
    let line = "a;\"b;c\";d".to_string();
    assert_eq!(read_columns(&line, &';').unwrap(), vec!["a", "b;c", "d"]);
    assert_eq!(split_line(&"1\t2".to_string(), &'\t'), vec!["1", "2"]);
}

#[test]
fn read_rows_picks_the_path_per_line() {
    let lines = vec!["1,2".to_string(), "\"3,4\",5".to_string(), "6,7".to_string()];
    let rows = read_rows(&lines, &',', 2).unwrap();
    assert_eq!(rows, vec![vec!["1", "2"], vec!["3,4", "5"], vec!["6", "7"]]);
}

#[test]
fn read_rows_fails_on_the_first_bad_line() {
    let lines = vec!["1,2".to_string(), "\"3,4".to_string(), "6,7".to_string()];
    assert_eq!(read_rows(&lines, &',', 2), Err(CsvError::Unterminated));
    let none: Vec<String> = Vec::new();
    assert_eq!(read_rows(&none, &',', 2).unwrap().len(), 0);
}

#[test]
fn from_lines_reads_header_and_rows() {
    let lines = vec![
        "language,level_of_fun".to_string(),
        "C++,10".to_string(),
        "\"Rust, stable\",10".to_string(),
    ];
    let file = CSVFile::from_lines(&lines, &',').unwrap();
    assert_eq!(file.columns, vec!["language", "level_of_fun"]);
    assert_eq!(file.rows, vec![vec!["C++", "10"], vec!["Rust, stable", "10"]]);
    assert_eq!(file.delimiter, ',');
}

#[test]
fn from_lines_refuses_rows_of_another_width() {
    let lines = vec!["a,b".to_string(), "1,2".to_string(), "1".to_string(), "1,2,3".to_string()];
    assert_eq!(
        CSVFile::from_lines(&lines, &',').err(),
        Some(CsvError::RowLength { row: 1, given: 1, expected: 2 })
    );
    let lines = vec!["a,b".to_string(), "\"x,y\",z".to_string()];
    assert_eq!(CSVFile::from_lines(&lines, &',').unwrap().rows, vec![vec!["x,y", "z"]]);
}

#[test]
fn from_lines_reports_bad_lines() {
    let lines = vec!["a,\"b".to_string(), "1,2".to_string()];
    assert_eq!(CSVFile::from_lines(&lines, &',').err(), Some(CsvError::Unterminated));
    let lines = vec!["a,b".to_string(), "1,\"2".to_string()];
    assert_eq!(CSVFile::from_lines(&lines, &',').err(), Some(CsvError::Unterminated));
    let lines = vec!["a,b".to_string(), "1".to_string(), "1,\"2".to_string()];
    assert_eq!(CSVFile::from_lines(&lines, &',').err(), Some(CsvError::Unterminated));
}

#[test]
fn character_and_text_search() {
    assert!(contains_char(&"a\"b".to_string(), '"'));
    assert!(!contains_char(&"abc".to_string(), '"'));
    assert!(contains_text(&"hello".to_string(), &"ell".to_string()));
    assert!(contains_text(&"hello".to_string(), &"hello".to_string()));
    assert!(contains_text(&"hello".to_string(), &String::new()));
    assert!(!contains_text(&"hello".to_string(), &"lo!".to_string()));
    assert!(!contains_text(&"he".to_string(), &"hello".to_string()));
    assert!(contains_text(&"h\u{e9}llo".to_string(), &"\u{e9}l".to_string()));
}
