use car_stats::parse_lines;
use car_stats::parse_row;
use car_stats::split_and_trim;

fn lines_of(rows: &[Option<&str>]) -> Vec<Option<String>> {
    rows.iter().map(|r| r.map(|s| s.to_string())).collect()
}

#[test]
fn split_keeps_every_segment_and_trims() {
    let fields = split_and_trim("a, b ,c");
    assert_eq!(fields, vec!["a", "b", "c"]);
}

#[test]
fn split_of_empty_line_is_one_empty_field() {
    assert_eq!(split_and_trim(""), vec![""]);
}

#[test]
fn split_keeps_empty_segments() {
    assert_eq!(split_and_trim(",,"), vec!["", "", ""]);
    assert_eq!(split_and_trim("x,"), vec!["x", ""]);
    assert_eq!(split_and_trim(",x"), vec!["", "x"]);
}

#[test]
fn split_trims_unicode_whitespace() {
    let fields = split_and_trim("\u{a0}1.5\u{a0},\t2020\n");
    assert_eq!(fields, vec!["1.5", "2020"]);
}

#[test]
fn twelve_field_row_is_retained_as_reordered_tuple() {
    let row = "a,b,c,d,e,2020,f,1.6,50000,i,j,500000";
    let record = parse_row(row).expect("row should be retained");
    assert_eq!(record.kilometers, "50000");
    assert_eq!(record.year, "2020");
    assert_eq!(record.engine, "1.6");
    assert_eq!(record.price, "500000");
    let tuple: (f64, f64, f64, f64) = (
        record.kilometers.parse().unwrap(),
        record.year.parse().unwrap(),
        record.engine.parse().unwrap(),
        record.price.parse().unwrap(),
    );
    assert_eq!(tuple, (50000.0, 2020.0, 1.6, 500000.0));
}

#[test]
fn short_row_is_rejected_and_counted() {
    assert!(parse_row("a,b,c,d,e").is_none());
    let lines = lines_of(&[Some("header"), Some("a,b,c,d,e")]);
    let (records, skipped) = parse_lines(&lines);
    assert!(records.is_empty());
    assert_eq!(skipped, 1);
}

#[test]
fn non_numeric_target_field_is_rejected_and_counted() {
    let row = "a,b,c,d,e,2020,f,diesel,50000,i,j,500000";
    assert!(parse_row(row).is_none());
    let lines = lines_of(&[Some("header"), Some(row)]);
    let (records, skipped) = parse_lines(&lines);
    assert!(records.is_empty());
    assert_eq!(skipped, 1);
}

#[test]
fn exactly_eleven_fields_is_too_few() {
    assert!(parse_row("a,b,c,d,e,2020,f,1.6,50000,i,500000").is_none());
}

#[test]
fn fields_are_trimmed_before_validation() {
    let row = "a,b,c,d,e, 2020 ,f,\t1.6,50000 ,i,j, 500000";
    let record = parse_row(row).expect("whitespace around numbers is trimmed away");
    assert_eq!(record.year, "2020");
    assert_eq!(record.engine, "1.6");
}

#[test]
fn header_is_dropped_and_never_counted() {
    let lines = lines_of(&[Some("km,year,engine,price and eight more")]);
    let (records, skipped) = parse_lines(&lines);
    assert!(records.is_empty());
    assert_eq!(skipped, 0);
}

#[test]
fn empty_input_gives_empty_dataset_and_no_skips() {
    let (records, skipped) = parse_lines(&Vec::new());
    assert!(records.is_empty());
    assert_eq!(skipped, 0);
}

#[test]
fn unreadable_line_counts_as_a_skip() {
    let lines = lines_of(&[Some("header"), None, Some("a,b,c,d,e,2020,f,1.6,50000,i,j,500000")]);
    let (records, skipped) = parse_lines(&lines);
    assert_eq!(records.len(), 1);
    assert_eq!(skipped, 1);
}

#[test]
fn dataset_keeps_input_order() {
    let lines = lines_of(&[
        Some("header"),
        Some("a,b,c,d,e,2001,f,1.0,1000,i,j,100"),
        Some("too,short"),
        Some("a,b,c,d,e,2002,f,2.0,2000,i,j,200"),
    ]);
    let (records, skipped) = parse_lines(&lines);
    assert_eq!(records.len(), 2);
    assert_eq!(skipped, 1);
    assert_eq!(records[0].year, "2001");
    assert_eq!(records[1].year, "2002");
}

#[test]
fn parsed_plus_skipped_plus_header_is_the_line_count() {
    let lines = lines_of(&[
        Some("header"),
        Some("a,b,c,d,e,2020,f,1.6,50000,i,j,500000"),
        Some("short"),
        None,
        Some("a,b,c,d,e,x,f,1.6,50000,i,j,500000"),
        Some("a,b,c,d,e,1999,f,2.2,123,i,j,9999"),
    ]);
    let (records, skipped) = parse_lines(&lines);
    assert_eq!(records.len() + skipped + 1, lines.len());
    assert_eq!(records.len(), 2);
    assert_eq!(skipped, 3);
}
