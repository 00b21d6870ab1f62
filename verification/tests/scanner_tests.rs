use sdtools::scanner::{find_line_end, is_sentinel, scan_records, strip_line_ending, RecordScanner};

#[test]
fn strip_line_ending_takes_off_both_endings() {
    assert_eq!(strip_line_ending(b"abc\r\n"), b"abc".to_vec());
    assert_eq!(strip_line_ending(b"abc\n"), b"abc".to_vec());
    assert_eq!(strip_line_ending(b"abc\r"), b"abc".to_vec());
    assert_eq!(strip_line_ending(b"abc"), b"abc".to_vec());
    assert_eq!(strip_line_ending(b"\n"), Vec::<u8>::new());
    assert_eq!(strip_line_ending(b""), Vec::<u8>::new());
}

#[test]
fn strip_line_ending_takes_off_one_ending_only() {
    assert_eq!(strip_line_ending(b"abc\n\n"), b"abc\n".to_vec());
    assert_eq!(strip_line_ending(b"abc\r\r\n"), b"abc\r".to_vec());
    assert_eq!(strip_line_ending(b"abc\n\r"), b"abc\n".to_vec());
}

#[test]
fn sentinel_is_exactly_four_dollars() {
    assert!(is_sentinel(b"$$$$"));
    assert!(!is_sentinel(b"$$$"));
    assert!(!is_sentinel(b"$$$$$"));
    assert!(!is_sentinel(b"$$$$ "));
    assert!(!is_sentinel(b" $$$$"));
    assert!(!is_sentinel(b""));
    assert!(!is_sentinel(b"$$a$"));
}

#[test]
fn find_line_end_stops_after_the_line_feed() {
    let data = b"ab\ncd\n\nef";
    assert_eq!(find_line_end(data, 0), 3);
    assert_eq!(find_line_end(data, 1), 3);
    assert_eq!(find_line_end(data, 3), 6);
    assert_eq!(find_line_end(data, 6), 7);
    assert_eq!(find_line_end(data, 7), 9);
    assert_eq!(find_line_end(data, 9), 9);
}

#[test]
fn scan_records_splits_at_closing_lines() {
    let records = scan_records(b"a\nb\n$$$$\nc\r\n$$$$\r\n");
    assert_eq!(records.len(), 2);
    assert_eq!(records[0].lines, vec![b"a".to_vec(), b"b".to_vec()]);
    assert_eq!(records[0].offset, 0);
    assert_eq!(records[0].size, 9);
    assert_eq!(records[1].lines, vec![b"c".to_vec()]);
    assert_eq!(records[1].offset, 9);
    assert_eq!(records[1].size, 9);
}

#[test]
fn scan_records_of_nothing_is_nothing() {
    assert_eq!(scan_records(b"").len(), 0);
}

#[test]
fn scan_records_sets_blank_trailer_aside() {
    let records = scan_records(b"a\n$$$$\n\n\r\n");
    assert_eq!(records.len(), 1);
    assert_eq!(records[0].lines, vec![b"a".to_vec()]);
    assert_eq!(records[0].size, 7);
}

#[test]
fn scan_records_hands_out_an_unclosed_last_record() {
    let records = scan_records(b"a\n$$$$\n\nb");
    assert_eq!(records.len(), 2);
    assert_eq!(records[1].lines, vec![Vec::new(), b"b".to_vec()]);
    assert_eq!(records[1].offset, 7);
    assert_eq!(records[1].size, 2);
}

#[test]
fn scan_records_keeps_empty_records() {
    let records = scan_records(b"$$$$\n$$$$\n");
    assert_eq!(records.len(), 2);
    assert!(records[0].lines.is_empty());
    assert_eq!(records[0].offset, 0);
    assert_eq!(records[0].size, 5);
    assert!(records[1].lines.is_empty());
    assert_eq!(records[1].offset, 5);
    assert_eq!(records[1].size, 5);
}

#[test]
fn scan_records_takes_a_closing_line_without_line_feed() {
    let records = scan_records(b"a\n$$$$");
    assert_eq!(records.len(), 1);
    assert_eq!(records[0].lines, vec![b"a".to_vec()]);
    assert_eq!(records[0].size, 6);
}

#[test]
fn record_ranges_tile_the_source() {
    let data = b"one\r\nx\r\n$$$$\r\ntwo\n$$$$\nthree\n\n$$$$\nrest";
    let records = scan_records(data);
    assert_eq!(records.len(), 4);
    let mut at = 0u64;
    for record in &records {
        assert_eq!(record.offset, at);
        at += record.size;
    }
    assert_eq!(at, data.len() as u64);
}

#[test]
fn scanner_fed_line_by_line_counts_bytes() {
    let mut scanner = RecordScanner::new();
    assert_eq!(scanner.position(), 0);
    assert!(scanner.feed(b"name\r\n").is_none());
    assert_eq!(scanner.position(), 6);
    assert!(scanner.feed(b"body\n").is_none());
    let first = scanner.feed(b"$$$$\n").unwrap();
    assert_eq!(first.lines, vec![b"name".to_vec(), b"body".to_vec()]);
    assert_eq!(first.offset, 0);
    assert_eq!(first.size, 16);
    assert_eq!(scanner.position(), 16);
    assert!(scanner.feed(b"next\n").is_none());
    let second = scanner.feed(b"$$$$\r\n").unwrap();
    assert_eq!(second.lines, vec![b"next".to_vec()]);
    assert_eq!(second.offset, 16);
    assert_eq!(second.size, 11);
    assert!(scanner.finish().is_none());
}

#[test]
fn scanner_finish_hands_out_what_is_left() {
    let mut scanner = RecordScanner::new();
    assert!(scanner.feed(b"\n").is_none());
    assert!(scanner.feed(b"tail").is_none());
    let last = scanner.finish().unwrap();
    assert_eq!(last.lines, vec![Vec::new(), b"tail".to_vec()]);
    assert_eq!(last.offset, 0);
    assert_eq!(last.size, 5);
}

#[test]
fn scanner_finish_drops_blank_lines() {
    let mut scanner = RecordScanner::new();
    assert!(scanner.feed(b"\n").is_none());
    assert!(scanner.feed(b"\r\n").is_none());
    assert!(scanner.finish().is_none());
}

#[test]
fn scanner_started_inside_a_source_places_records_there() {
    let mut scanner = RecordScanner::starting_at(100);
    assert_eq!(scanner.position(), 100);
    assert!(scanner.feed(b"x\n").is_none());
    let record = scanner.feed(b"$$$$\n").unwrap();
    assert_eq!(record.offset, 100);
    assert_eq!(record.size, 7);
    assert_eq!(scanner.position(), 107);
}
