use csv_tools::{CSVCoords, CSVFile, CsvError};

fn strings(values: &[&str]) -> Vec<String> {
    values.iter().map(|v| v.to_string()).collect()
}

fn table(columns: &[&str], rows: &[&[&str]]) -> CSVFile {
    let rows: Vec<Vec<String>> = rows.iter().map(|r| strings(r)).collect();
    CSVFile::build(&strings(columns), &rows, &',').unwrap()
}

fn lines_of(text: &str) -> Vec<String> {
    let mut lines: Vec<String> = text.split('\n').map(|l| l.to_string()).collect();
    lines.pop();
    lines
}

#[test]
fn serialized_text_joins_fields_and_ends_lines() {
    let file = table(&["a", "b", "c"], &[&["1", "2", "3"], &["4", "5", "6"], &["7", "8", "9"]]);
    assert_eq!(file.to_string(), "a,b,c\n1,2,3\n4,5,6\n7,8,9\n");
}

#[test]
fn serialized_text_uses_the_delimiter_and_keeps_empty_rows() {
    let mut file = table(&["a"], &[&["x"]]);
    file.set_delimiter(&';');
    file.add_column(&"b".to_string()).unwrap();
    assert_eq!(file.to_string(), "a;b\nx;\n");
    let empty = CSVFile::build(&Vec::new(), &vec![Vec::new()], &',').unwrap();
    assert_eq!(empty.to_string(), "\n\n");
}

#[test]
fn serialized_table_loads_back_equal() {
    let file = table(&["name", "age"], &[&["Ann", "30"], &["", "4"], &["Bob", ""]]);
    let text = file.to_string();
    let loaded = CSVFile::from_lines(&lines_of(&text), &',').unwrap();
    assert_eq!(loaded.columns, file.columns);
    assert_eq!(loaded.rows, file.rows);
    assert_eq!(loaded.delimiter, file.delimiter);
}

#[test]
fn coordinates_as_text() {
    assert_eq!(CSVCoords { row: 1, column: 2 }.to_string(), "(1, 2)");
    assert_eq!(CSVCoords { row: 0, column: 1234567 }.to_string(), "(0, 1234567)");
    assert_eq!(format!("{:?}", CSVCoords { row: 1, column: 1 }), "CSVCoords { row: 1, column: 1 }");
}

#[test]
fn trim_twice_is_trim_once() {
    let mut file = table(
        &["a", "b"],
        &[&["", ""], &["1", ""], &["", ""], &["2", "3"], &["", ""], &["", ""]],
    );
    file.trim();
    let once = file.rows.clone();
    file.trim();
    assert_eq!(file.rows, once);
    assert_eq!(once, vec![vec!["1", ""], vec!["", ""], vec!["2", "3"]]);
}

#[test]
fn freshly_built_table_is_valid() {
    let file = table(&["a", "b", "c"], &[&["1", "2", "3"]]);
    assert!(file.check_validity());
    let no_rows = table(&["a"], &[]);
    assert!(no_rows.check_validity());
}

#[test]
fn edits_that_succeed_keep_the_table_valid() {
    let mut file = table(&["a", "b"], &[&["1", "2"], &["3", "4"]]);
    file.add_column(&"c".to_string()).unwrap();
    file.insert_column(&"z".to_string(), 0).unwrap();
    file.add_row(&strings(&["5", "6", "7", "8"])).unwrap();
    file.remove_column(2).unwrap();
    file.remove_row(0).unwrap();
    file.insert_column(&"end".to_string(), 3).unwrap();
    assert!(file.check_validity());
    assert_eq!(file.columns, vec!["z", "a", "c", "end"]);
    assert_eq!(file.rows, vec![vec!["", "3", "", ""], vec!["5", "6", "8", ""]]);
}

#[test]
fn merge_pads_the_third_row_of_a_longer_table() {
    let mut left = table(&["a", "b", "c"], &[&["1", "2", "3"], &["4", "5", "6"], &["7", "8", "9"]]);
    let right = table(&["d", "e"], &[&["x", "y"], &["z", "w"]]);
    left.merge(&right).unwrap();
    assert_eq!(left.len(), 5);
    assert_eq!(left.count_rows(), 3);
    assert_eq!(left.rows[0], vec!["1", "2", "3", "x", "y"]);
    assert_eq!(left.rows[2], vec!["7", "8", "9", "", ""]);
    assert!(left.check_validity());
}

#[test]
fn merge_pads_a_shorter_table_with_empty_rows() {
    let mut left = table(&["a", "b"], &[&["1", "2"]]);
    let right = table(&["c"], &[&["x"], &["y"], &["z"]]);
    left.merge(&right).unwrap();
    assert_eq!(left.columns, vec!["a", "b", "c"]);
    assert_eq!(left.rows, vec![vec!["1", "2", "x"], vec!["", "", "y"], vec!["", "", "z"]]);
}

#[test]
fn merge_refuses_shared_names_and_changes_nothing() {
    let mut left = table(&["a", "b"], &[&["1", "2"]]);
    let right = table(&["c", "a"], &[&["x", "y"]]);
    assert_eq!(left.merge(&right), Err(CsvError::DuplicateColumn));
    assert_eq!(left.columns, vec!["a", "b"]);
    assert_eq!(left.rows, vec![vec!["1", "2"]]);
}

#[test]
fn trim_of_a_single_blank_row() {
    for which in 0..3 {
        let mut file = table(&["a", "b", "c"], &[&["", "", ""]]);
        match which {
            0 => file.trim_end(),
            1 => file.trim_start(),
            _ => file.trim(),
        }
        assert_eq!(file.count_rows(), 0);
    }
}

#[test]
fn trim_end_on_a_table_without_rows() {
    let mut file = table(&["a"], &[]);
    file.trim_end();
    file.trim_start();
    file.remove_empty_lines();
    assert!(file.has_no_rows());
}

#[test]
fn a_row_without_fields_counts_as_blank() {
    let mut file = CSVFile::build(&Vec::new(), &vec![Vec::new(), Vec::new()], &',').unwrap();
    file.trim();
    assert_eq!(file.count_rows(), 0);
    assert!(file.empty());
}

#[test]
fn find_text_reports_every_hit_in_order() {
    let file = table(&["a", "b"], &[&["x5", "7"], &["55", "5"], &["", "x"]]);
    let hits = file.find_text(&"5".to_string());
    assert_eq!(
        hits,
        vec![
            CSVCoords { row: 0, column: 0 },
            CSVCoords { row: 1, column: 0 },
            CSVCoords { row: 1, column: 1 },
        ]
    );
    assert!(file.find_text(&"q".to_string()).is_empty());
    assert_eq!(file.find_text(&String::new()).len(), 6);
}

#[test]
fn get_cell_out_of_range_is_none() {
    let file = table(&["a", "b"], &[&["1", "2"]]);
    assert_eq!(file.get_cell(&CSVCoords { row: 0, column: 1 }), Some(&"2".to_string()));
    assert_eq!(file.get_cell(&CSVCoords { row: 1, column: 0 }), None);
    assert_eq!(file.get_cell(&CSVCoords { row: 0, column: 2 }), None);
}

#[test]
fn get_column_idx_finds_the_first_of_equal_names() {
    let mut file = table(&["a", "b"], &[]);
    file.columns.push("a".to_string());
    assert_eq!(file.get_column_idx(&"a".to_string()), Some(0));
    assert!(!file.check_validity());
}

#[test]
fn build_reports_the_first_row_of_the_wrong_width() {
    let rows = vec![strings(&["1", "2"]), strings(&["3"]), strings(&["4", "5", "6"])];
    let result = CSVFile::build(&strings(&["a", "b"]), &rows, &',');
    assert_eq!(result.err(), Some(CsvError::RowLength { row: 1, given: 1, expected: 2 }));
}

#[test]
fn errors_of_each_edit() {
    let mut file = table(&["a", "b"], &[&["1", "2"]]);
    assert_eq!(
        file.add_row(&strings(&["1"])),
        Err(CsvError::FieldCount { given: 1, expected: 2 })
    );
    assert_eq!(
        file.fill_column(&"a".to_string(), &strings(&["1", "2"])),
        Err(CsvError::FieldCount { given: 2, expected: 1 })
    );
    assert_eq!(file.fill_column(&"q".to_string(), &strings(&["1"])), Err(CsvError::UnknownColumn));
    assert_eq!(file.add_column(&"b".to_string()), Err(CsvError::DuplicateColumn));
    assert_eq!(file.insert_column(&"b".to_string(), 1), Err(CsvError::DuplicateColumn));
    assert_eq!(
        file.insert_column(&"c".to_string(), 3),
        Err(CsvError::ColumnOutOfRange { index: 3 })
    );
    assert_eq!(file.remove_column(2), Err(CsvError::ColumnOutOfRange { index: 2 }));
    assert_eq!(file.remove_row(1), Err(CsvError::RowOutOfRange { index: 1 }));
    assert_eq!(file.columns, vec!["a", "b"]);
    assert_eq!(file.rows, vec![vec!["1", "2"]]);
}

#[test]
fn insert_column_at_the_end_and_in_the_middle() {
    let mut file = table(&["a", "b"], &[&["1", "2"]]);
    file.insert_column(&"m".to_string(), 1).unwrap();
    file.insert_column(&"z".to_string(), 3).unwrap();
    assert_eq!(file.columns, vec!["a", "m", "b", "z"]);
    assert_eq!(file.rows, vec![vec!["1", "", "2", ""]]);
}

#[test]
fn remove_empty_lines_keeps_order() {
    let mut file = table(&["a", "b"], &[&["", ""], &["1", ""], &["", ""], &["", "2"], &["", ""]]);
    file.remove_empty_lines();
    assert_eq!(file.rows, vec![vec!["1", ""], vec!["", "2"]]);
}

#[test]
fn to_map_with_shared_column_names() {
    let mut file = table(&["a", "b"], &[&["1", "2"], &["3", "4"]]);
    file.columns[1] = "a".to_string();
    let map = file.to_map(|v: &String| v.clone());
    assert_eq!(map.len(), 1);
    assert_eq!(map.get("a").unwrap(), &vec!["1", "2", "3", "4"]);
}

#[test]
fn map_rows_keeps_order() {
    let file = table(&["a", "b"], &[&["1", "2"], &["3", "4"]]);
    let sums = file.map_rows(|row: &Vec<String>| {
        row.iter().map(|v| v.parse::<u32>().unwrap()).sum::<u32>()
    });
    assert_eq!(sums, vec![3, 7]);
}
