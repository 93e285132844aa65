use graph_builder::csv_input::{read_table, table_fields, TableError};

fn rows(v: &[&[&str]]) -> Vec<Vec<String>> {
    v.iter().map(|r| r.iter().map(|f| f.to_string()).collect()).collect()
}

#[test]
fn a_table_reads_the_records_after_the_header() {
    let text = b"id,x,y\nc1,1.5,2\nc2,3,4\n";
    assert_eq!(read_table(text, 3), Ok(rows(&[&["c1", "1.5", "2"], &["c2", "3", "4"]])));
    // only the leading fields are kept
    assert_eq!(read_table(text, 1), Ok(rows(&[&["c1"], &["c2"]])));
    assert_eq!(read_table(b"id,x,y\n", 3), Ok(vec![]));
}

#[test]
fn quoted_fields_are_unquoted() {
    let text = b"a,b\n\"x,y\",z\n";
    assert_eq!(read_table(text, 2), Ok(rows(&[&["x,y", "z"]])));
}

#[test]
fn records_with_too_few_fields_are_refused() {
    assert_eq!(read_table(b"a,b\nx,y\n", 3), Err(TableError::TooFewFields));
    assert_eq!(table_fields(&rows(&[&["a", "b", "c"], &["d"]]), 2), Err(TableError::TooFewFields));
    assert_eq!(table_fields(&rows(&[&["a", "b", "c"], &["d", "e"]]), 2), Ok(rows(&[&["a", "b"], &["d", "e"]])));
}

#[test]
fn ragged_or_invalid_text_is_malformed() {
    assert_eq!(read_table(b"a,b\nx,y,z\n", 2), Err(TableError::Malformed));
    assert_eq!(read_table(b"a,b\n\xff\xfe,1\n", 2), Err(TableError::Malformed));
}
