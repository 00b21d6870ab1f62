use sdtools::arrange::{order_records, sort_records, SortError};
use sdtools::builder::{group_key, index_record, sort_text, Outcome, SortPlan};
use sdtools::entry::GroupKey;
use sdtools::index::Index;
use sdtools::scanner::{scan_records, Record, RecordScanner};
use sdtools::writer::join_lines;

const COUNTS: &str = "  1  0  0  0  0  0  0  0  0  0999 V2000";

fn record_text(name: &str, counts: &str, fields: &[(&str, &str)]) -> String {
    let mut text = format!("{}\n  tool\n\n{}\n    0.0000    0.0000    0.0000 C   0  0\nM  END\n", name, counts);
    for (key, value) in fields {
        text.push_str(&format!(">  <{}>\n{}\n\n", key, value));
    }
    text.push_str("$$$$\n");
    text
}

fn plan(sort_field: &str, group_field: Option<&str>, numeric: bool) -> SortPlan {
    SortPlan {
        sort_field: sort_field.as_bytes().to_vec(),
        group_field: group_field.map(|g| g.as_bytes().to_vec()),
        numeric,
    }
}

fn bits(text: &[u8]) -> Option<u64> {
    std::str::from_utf8(text).ok()?.parse::<f64>().ok().map(f64::to_bits)
}

fn numbers(records: &Vec<Record>, plan: &SortPlan) -> Vec<Option<u64>> {
    records.iter().map(|r| bits(&sort_text(&r.lines, plan))).collect()
}

fn names(records: &Vec<Record>, order: &[u64]) -> Vec<String> {
    order.iter().map(|i| String::from_utf8(records[*i as usize].lines[0].clone()).unwrap()).collect()
}

fn sorted_names(data: &str, plan: &SortPlan) -> Result<Vec<String>, SortError> {
    let records = scan_records(data.as_bytes());
    let done = order_records(&records, plan, &numbers(&records, plan))?;
    let order: Vec<u64> = done.order.iter().map(|e| e.index).collect();
    Ok(names(&records, &order))
}

fn sort_in_memory(data: &str, plan: &SortPlan, reverse: bool) -> Result<Vec<u8>, SortError> {
    let records = scan_records(data.as_bytes());
    let text = sort_records(&records, plan, &numbers(&records, plan), reverse)?;
    let mut bytes = join_lines(&text.lines);
    bytes.push(b'\n');
    Ok(bytes)
}

fn sort_by_ranges(data: &[u8], plan: &SortPlan) -> Result<(Vec<u8>, Vec<u64>), u64> {
    let mut scanner = RecordScanner::new();
    let mut index = Index::new();
    let mut skipped = Vec::new();
    let mut seen = 0u64;
    let mut records = Vec::new();
    for raw in data.split_inclusive(|b| *b == b'\n') {
        if let Some(record) = scanner.feed(raw) {
            records.push(record);
        }
    }
    if let Some(record) = scanner.finish() {
        records.push(record);
    }
    for record in records {
        let number = if plan.numeric { bits(&sort_text(&record.lines, plan)) } else { None };
        match index_record(&mut index, plan, &record.lines, record.offset, record.size, number) {
            Outcome::Indexed => {}
            Outcome::Skipped => skipped.push(seen),
            Outcome::NotNumeric => return Err(seen),
        }
        seen += 1;
    }
    index.sort(plan.numeric);
    let mut out = Vec::new();
    for entry in index.into_entries() {
        let from = entry.index as usize;
        let to = from + entry.size as usize;
        out.extend_from_slice(&data[from..to]);
    }
    Ok((out, skipped))
}

#[test]
fn text_sort_puts_20_before_3() {
    let data = record_text("first", COUNTS, &[("ID", "20")]) + &record_text("second", COUNTS, &[("ID", "3")]);
    assert_eq!(sorted_names(&data, &plan("ID", None, false)).unwrap(), vec!["first", "second"]);
    let swapped = record_text("second", COUNTS, &[("ID", "3")]) + &record_text("first", COUNTS, &[("ID", "20")]);
    assert_eq!(sorted_names(&swapped, &plan("ID", None, false)).unwrap(), vec!["first", "second"]);
}

#[test]
fn numeric_sort_puts_3_before_20() {
    let data = record_text("first", COUNTS, &[("ID", "20")]) + &record_text("second", COUNTS, &[("ID", "3")]);
    assert_eq!(sorted_names(&data, &plan("ID", None, true)).unwrap(), vec!["second", "first"]);
}

#[test]
fn three_records_in_two_groups_make_two_buckets() {
    let data = record_text("a2", COUNTS, &[("BATCH", "A"), ("ID", "2")])
        + &record_text("b1", COUNTS, &[("BATCH", "B"), ("ID", "1")])
        + &record_text("a1", COUNTS, &[("BATCH", "A"), ("ID", "1")]);
    let the_plan = plan("ID", Some("BATCH"), true);
    let records = scan_records(data.as_bytes());
    let mut index = Index::new();
    for (i, record) in records.iter().enumerate() {
        let number = bits(&sort_text(&record.lines, &the_plan));
        let outcome = index_record(&mut index, &the_plan, &record.lines, i as u64, record.size, number);
        assert_eq!(outcome, Outcome::Indexed);
    }
    index.sort(true);
    assert_eq!(index.bucket_count(), 2);
    assert_eq!(index.bucket_len(0), 2);
    assert_eq!(index.bucket_len(1), 1);
    let entries = index.into_entries();
    let order: Vec<u64> = entries.iter().map(|e| e.index).collect();
    assert_eq!(names(&records, &order), vec!["a1", "a2", "b1"]);
    assert_eq!(entries[0].group, GroupKey::Present(b"A".to_vec()));
    assert_eq!(entries[1].group, GroupKey::Present(b"A".to_vec()));
    assert_eq!(entries[2].group, GroupKey::Present(b"B".to_vec()));
}

#[test]
fn grouped_sort_keeps_groups_together_in_order_of_first_appearance() {
    let data = record_text("z9", COUNTS, &[("G", "z"), ("K", "9")])
        + &record_text("a5", COUNTS, &[("G", "a"), ("K", "5")])
        + &record_text("z1", COUNTS, &[("G", "z"), ("K", "1")])
        + &record_text("none", COUNTS, &[("K", "0")])
        + &record_text("a2", COUNTS, &[("G", "a"), ("K", "2")])
        + &record_text("empty", COUNTS, &[("G", ""), ("K", "3")]);
    assert_eq!(
        sorted_names(&data, &plan("K", Some("G"), false)).unwrap(),
        vec!["z1", "z9", "a2", "a5", "none", "empty"]
    );
}

#[test]
fn record_with_a_malformed_header_is_skipped() {
    let data = record_text("one", COUNTS, &[("ID", "2")])
        + &record_text("bad", "xyz", &[("ID", "1")])
        + &record_text("two", COUNTS, &[("ID", "0")]);
    let the_plan = plan("ID", None, false);
    let records = scan_records(data.as_bytes());
    assert_eq!(records.len(), 3);
    let done = order_records(&records, &the_plan, &numbers(&records, &the_plan)).unwrap();
    assert_eq!(done.skipped, vec![1]);
    assert_eq!(done.order.len(), 2);
    let order: Vec<u64> = done.order.iter().map(|e| e.index).collect();
    assert_eq!(names(&records, &order), vec!["two", "one"]);
}

#[test]
fn skipped_record_is_never_read_as_a_number() {
    let data = record_text("bad", "", &[("ID", "oops")]) + &record_text("good", COUNTS, &[("ID", "1.5")]);
    let the_plan = plan("ID", None, true);
    let records = scan_records(data.as_bytes());
    let done = order_records(&records, &the_plan, &numbers(&records, &the_plan)).unwrap();
    assert_eq!(done.skipped, vec![0]);
    assert_eq!(done.order.len(), 1);
    assert_eq!(done.order[0].index, 1);
}

#[test]
fn numeric_sort_fails_on_a_field_that_is_no_number() {
    let data = record_text("one", COUNTS, &[("ID", "2")])
        + &record_text("two", COUNTS, &[("ID", "two")])
        + &record_text("three", COUNTS, &[("ID", "also")]);
    assert_eq!(sorted_names(&data, &plan("ID", None, true)), Err(SortError::NotNumeric { record: 1 }));
    assert_eq!(sort_by_ranges(data.as_bytes(), &plan("ID", None, true)), Err(1));
    assert!(sorted_names(&data, &plan("ID", None, false)).is_ok());
}

#[test]
fn numeric_sort_fails_on_a_missing_sort_field() {
    let data = record_text("one", COUNTS, &[("ID", "2")]) + &record_text("two", COUNTS, &[("OTHER", "1")]);
    assert_eq!(sorted_names(&data, &plan("ID", None, true)), Err(SortError::NotNumeric { record: 1 }));
}

#[test]
fn numeric_sort_fails_where_the_numbers_run_out() {
    let data = record_text("one", COUNTS, &[("ID", "2")]) + &record_text("two", COUNTS, &[("ID", "1")]);
    let records = scan_records(data.as_bytes());
    let short = vec![bits(b"2")];
    let result = order_records(&records, &plan("ID", None, true), &short);
    assert_eq!(result, Err(SortError::NotNumeric { record: 1 }));
}

#[test]
fn text_sort_puts_a_missing_sort_field_first() {
    let data = record_text("b", COUNTS, &[("ID", "b")])
        + &record_text("none", COUNTS, &[])
        + &record_text("a", COUNTS, &[("ID", "a")]);
    assert_eq!(sorted_names(&data, &plan("ID", None, false)).unwrap(), vec!["none", "a", "b"]);
}

#[test]
fn numeric_sort_places_nan_last() {
    let data = record_text("nan", COUNTS, &[("V", "NaN")])
        + &record_text("inf", COUNTS, &[("V", "inf")])
        + &record_text("neg", COUNTS, &[("V", "-1e3")])
        + &record_text("small", COUNTS, &[("V", "0.5")]);
    assert_eq!(sorted_names(&data, &plan("V", None, true)).unwrap(), vec!["neg", "small", "inf", "nan"]);
}

#[test]
fn sort_keys_and_group_keys_are_read_off_the_record() {
    let data = record_text("one", COUNTS, &[("ID", "7"), ("G", "x")]);
    let records = scan_records(data.as_bytes());
    let lines = &records[0].lines;
    assert_eq!(sort_text(lines, &plan("ID", Some("G"), false)), b"7".to_vec());
    assert_eq!(sort_text(lines, &plan("NO", Some("G"), false)), Vec::<u8>::new());
    assert_eq!(group_key(lines, &plan("ID", Some("G"), false)), GroupKey::Present(b"x".to_vec()));
    assert_eq!(group_key(lines, &plan("ID", Some("H"), false)), GroupKey::Absent);
    assert_eq!(group_key(lines, &plan("ID", None, false)), GroupKey::Ungrouped);
}

#[test]
fn index_record_fills_the_entry() {
    let data = record_text("one", COUNTS, &[("ID", "1.0"), ("G", "x")]);
    let records = scan_records(data.as_bytes());
    let mut index = Index::new();
    let the_plan = plan("ID", Some("G"), true);
    let outcome = index_record(&mut index, &the_plan, &records[0].lines, 40, 17, bits(b"1.0"));
    assert_eq!(outcome, Outcome::Indexed);
    let entries = index.into_entries();
    assert_eq!(entries.len(), 1);
    assert_eq!(entries[0].value, b"1.0".to_vec());
    assert_eq!(entries[0].value_num, Some(0xBFF0_0000_0000_0000));
    assert_eq!(entries[0].group, GroupKey::Present(b"x".to_vec()));
    assert_eq!(entries[0].index, 40);
    assert_eq!(entries[0].size, 17);
}

#[test]
fn index_record_takes_no_rank_in_a_text_run() {
    let data = record_text("one", COUNTS, &[("ID", "1.0")]);
    let records = scan_records(data.as_bytes());
    let mut index = Index::new();
    let outcome = index_record(&mut index, &plan("ID", None, false), &records[0].lines, 0, 1, bits(b"1.0"));
    assert_eq!(outcome, Outcome::Indexed);
    assert_eq!(index.into_entries()[0].value_num, None);
}

#[test]
fn index_record_leaves_the_index_alone_when_it_does_not_index() {
    let good = record_text("one", COUNTS, &[("ID", "x")]);
    let bad = record_text("bad", " ", &[("ID", "1")]);
    let mut index = Index::new();
    let the_plan = plan("ID", None, true);
    let records = scan_records(bad.as_bytes());
    assert_eq!(index_record(&mut index, &the_plan, &records[0].lines, 0, 1, bits(b"1")), Outcome::Skipped);
    assert_eq!(index.bucket_count(), 0);
    let records = scan_records(good.as_bytes());
    assert_eq!(index_record(&mut index, &the_plan, &records[0].lines, 0, 1, None), Outcome::NotNumeric);
    assert_eq!(index.bucket_count(), 0);
}

#[test]
fn sorting_by_ranges_copies_every_record_byte_for_byte() {
    let one = record_text("one", COUNTS, &[("ID", "b")]).replace('\n', "\r\n");
    let two = record_text("two", COUNTS, &[("ID", "c")]);
    let three = record_text("three", COUNTS, &[("ID", "a")]);
    let data = format!("{}{}{}", one, two, three);
    let (out, skipped) = sort_by_ranges(data.as_bytes(), &plan("ID", None, false)).unwrap();
    assert!(skipped.is_empty());
    assert_eq!(out, format!("{}{}{}", three, one, two).into_bytes());
}

#[test]
fn sorting_by_ranges_leaves_out_the_skipped_record() {
    let one = record_text("one", COUNTS, &[("ID", "2")]);
    let bad = record_text("bad", "  x", &[("ID", "1")]);
    let two = record_text("two", COUNTS, &[("ID", "0")]);
    let data = format!("{}{}{}", one, bad, two);
    let (out, skipped) = sort_by_ranges(data.as_bytes(), &plan("ID", None, true)).unwrap();
    assert_eq!(skipped, vec![1]);
    assert_eq!(out, format!("{}{}", two, one).into_bytes());
}

#[test]
fn sorting_a_sorted_file_again_changes_nothing() {
    let data = record_text("r1", COUNTS, &[("G", "y"), ("K", "30")])
        + &record_text("r2", COUNTS, &[("G", "x"), ("K", "4")])
        + &record_text("r3", COUNTS, &[("G", "y"), ("K", "-2")])
        + &record_text("r4", COUNTS, &[("G", "x"), ("K", "1e2")])
        + &record_text("r5", COUNTS, &[("G", "y"), ("K", "7.5")]);
    for numeric in [false, true] {
        let the_plan = plan("K", Some("G"), numeric);
        let (once, _) = sort_by_ranges(data.as_bytes(), &the_plan).unwrap();
        let (twice, _) = sort_by_ranges(&once, &the_plan).unwrap();
        assert_ne!(once, data.as_bytes().to_vec());
        assert_eq!(once, twice);
        let in_memory = sort_in_memory(&data, &the_plan, false).unwrap();
        assert_eq!(in_memory, once);
        let again = sort_in_memory(std::str::from_utf8(&in_memory).unwrap(), &the_plan, false).unwrap();
        assert_eq!(again, in_memory);
    }
}

#[test]
fn sorted_output_holds_every_record_once() {
    let mut data = String::new();
    let mut expected = Vec::new();
    for i in 0..40u32 {
        let text = record_text(&format!("n{}", i), COUNTS, &[("K", &format!("{}", (i * 37) % 11)), ("G", &format!("{}", i % 3))]);
        expected.push(text.clone().into_bytes());
        data.push_str(&text);
    }
    let (out, _) = sort_by_ranges(data.as_bytes(), &plan("K", Some("G"), true)).unwrap();
    let mut got: Vec<Vec<u8>> = scan_records(&out)
        .iter()
        .map(|r| out[r.offset as usize..(r.offset + r.size) as usize].to_vec())
        .collect();
    assert_eq!(got.len(), 40);
    got.sort();
    expected.sort();
    assert_eq!(got, expected);
}

#[test]
fn sorted_output_is_ordered_within_each_group() {
    let mut data = String::new();
    for i in 0..60u32 {
        data.push_str(&record_text(&format!("n{}", i), COUNTS, &[("K", &format!("{}", (i * 53) % 17)), ("G", &format!("{}", i % 4))]));
    }
    let the_plan = plan("K", Some("G"), true);
    let records = scan_records(data.as_bytes());
    let done = order_records(&records, &the_plan, &numbers(&records, &the_plan)).unwrap();
    assert_eq!(done.order.len(), 60);
    let groups: Vec<&GroupKey> = done.order.iter().map(|e| &e.group).collect();
    let mut closed: Vec<&GroupKey> = Vec::new();
    for pair in done.order.windows(2) {
        if pair[0].group == pair[1].group {
            assert!(pair[0].value_num <= pair[1].value_num);
        } else {
            closed.push(&pair[0].group);
            assert!(!closed.contains(&&pair[1].group));
        }
    }
    assert_eq!(groups[0], &GroupKey::Present(b"0".to_vec()));
    assert_eq!(closed.len(), 3);
}

#[test]
fn sort_records_writes_the_records_in_sorted_order() {
    let data = "b\n\n\n  1\n>  <K>\n2\n$$$$\na\r\n\r\n\r\n  1\r\n>  <K>\r\n1\r\n$$$$\r\nbad\n$$$$\n";
    let records = scan_records(data.as_bytes());
    let the_plan = plan("K", None, true);
    let text = sort_records(&records, &the_plan, &numbers(&records, &the_plan), false).unwrap();
    assert_eq!(text.skipped, vec![2]);
    assert_eq!(
        join_lines(&text.lines),
        b"a\n\n\n  1\n>  <K>\n1\n$$$$\nb\n\n\n  1\n>  <K>\n2\n$$$$".to_vec()
    );
    let back = sort_records(&records, &the_plan, &numbers(&records, &the_plan), true).unwrap();
    assert_eq!(
        join_lines(&back.lines),
        b"b\n\n\n  1\n>  <K>\n2\n$$$$\na\n\n\n  1\n>  <K>\n1\n$$$$".to_vec()
    );
}

#[test]
fn sort_records_fails_as_order_records_does() {
    let data = record_text("one", COUNTS, &[("ID", "x")]);
    let records = scan_records(data.as_bytes());
    let the_plan = plan("ID", None, true);
    let result = sort_records(&records, &the_plan, &numbers(&records, &the_plan), false);
    assert_eq!(result, Err(SortError::NotNumeric { record: 0 }));
}
