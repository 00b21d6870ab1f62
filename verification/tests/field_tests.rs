use sdtools::field::{get_atom_count, get_field, is_marker, FieldValue};

fn lines(text: &[&str]) -> Vec<Vec<u8>> {
    text.iter().map(|l| l.as_bytes().to_vec()).collect()
}

fn found(value: FieldValue) -> Option<Vec<u8>> {
    match value {
        FieldValue::Found(v) => Some(v),
        FieldValue::NotFound => None,
    }
}

#[test]
fn marker_matches_the_exact_form() {
    assert!(is_marker(b">  <ID>", b"ID"));
    assert!(is_marker(b">  <>", b""));
    assert!(!is_marker(b">  <ID>", b"id"));
    assert!(!is_marker(b"> <ID>", b"ID"));
    assert!(!is_marker(b">  <ID> ", b"ID"));
    assert!(!is_marker(b">  <ID", b"ID"));
    assert!(!is_marker(b">  <IDX>", b"ID"));
    assert!(!is_marker(b">  <I>", b"ID"));
    assert!(!is_marker(b"", b"ID"));
}

#[test]
fn get_field_returns_the_line_after_the_marker() {
    let record = lines(&["mol", "", "", "  1", ">  <ID>", "20", "", ">  <BATCH>", "A", ""]);
    assert_eq!(found(get_field(&record, b"ID")), Some(b"20".to_vec()));
    assert_eq!(found(get_field(&record, b"BATCH")), Some(b"A".to_vec()));
}

#[test]
fn get_field_reports_a_missing_field() {
    let record = lines(&["mol", "", "", "  1", ">  <ID>", "20", ""]);
    assert_eq!(found(get_field(&record, b"NAME")), None);
    assert_eq!(found(get_field(&record, b"id")), None);
    assert_eq!(found(get_field(&Vec::new(), b"ID")), None);
}

#[test]
fn get_field_tells_an_empty_value_from_a_missing_field() {
    let record = lines(&[">  <ID>", "", ">  <X>", "1"]);
    assert_eq!(found(get_field(&record, b"ID")), Some(Vec::new()));
    assert_eq!(found(get_field(&record, b"Y")), None);
}

#[test]
fn get_field_reads_the_first_line_of_a_longer_value() {
    let record = lines(&[">  <NOTE>", "first", "second", ""]);
    assert_eq!(found(get_field(&record, b"NOTE")), Some(b"first".to_vec()));
}

#[test]
fn get_field_takes_the_first_of_two_markers() {
    let record = lines(&[">  <ID>", "1", "", ">  <ID>", "2", ""]);
    assert_eq!(found(get_field(&record, b"ID")), Some(b"1".to_vec()));
}

#[test]
fn get_field_ignores_a_marker_on_the_last_line() {
    let record = lines(&["mol", ">  <ID>"]);
    assert_eq!(found(get_field(&record, b"ID")), None);
}

#[test]
fn atom_count_is_read_from_the_fourth_line() {
    let record = lines(&["mol", "", "", " 12  3  0  0  0  0  0  0  0  0999 V2000"]);
    assert_eq!(get_atom_count(&record), Some(12));
    assert_eq!(get_atom_count(&lines(&["", "", "", "999"])), Some(999));
    assert_eq!(get_atom_count(&lines(&["", "", "", "  0"])), Some(0));
    assert_eq!(get_atom_count(&lines(&["", "", "", "7  "])), Some(7));
    assert_eq!(get_atom_count(&lines(&["", "", "", " 7 "])), Some(7));
    assert_eq!(get_atom_count(&lines(&["", "", "", "007"])), Some(7));
    assert_eq!(get_atom_count(&lines(&["", "", "", "1234"])), Some(123));
}

#[test]
fn atom_count_of_a_malformed_line_is_an_error() {
    assert_eq!(get_atom_count(&Vec::new()), None);
    assert_eq!(get_atom_count(&lines(&["a", "b", "c"])), None);
    assert_eq!(get_atom_count(&lines(&["", "", "", ""])), None);
    assert_eq!(get_atom_count(&lines(&["", "", "", "12"])), None);
    assert_eq!(get_atom_count(&lines(&["", "", "", "   "])), None);
    assert_eq!(get_atom_count(&lines(&["", "", "", "abc"])), None);
    assert_eq!(get_atom_count(&lines(&["", "", "", "1 2"])), None);
    assert_eq!(get_atom_count(&lines(&["", "", "", " -1"])), None);
    assert_eq!(get_atom_count(&lines(&["", "", "", " +1"])), None);
    assert_eq!(get_atom_count(&lines(&["", "", "", "1.5"])), None);
    assert_eq!(get_atom_count(&lines(&["  5", "", "", "x"])), None);
}
