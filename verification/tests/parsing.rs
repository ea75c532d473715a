use donda::date::Date;
use donda::grid::SubmitRecord;
use donda::sacct::parse_sacct_output;

fn d(year: u32, month: u32, day: u32) -> Date {
    Date { year, month, day }
}

fn find(records: &[SubmitRecord], date: Date) -> Option<u32> {
    records.iter().find(|r| r.date == date).map(|r| r.count)
}

#[test]
fn aggregates_lines_per_day() {
    let text = b"2024-11-05T18:07:54\n 2024-11-05T18:08:00\n 2024-11-05T18:08:00\n".to_vec();
    let records = parse_sacct_output(&text);
    assert_eq!(records.len(), 1);
    assert_eq!(records[0].date, d(2024, 11, 5));
    assert_eq!(records[0].count, 3);
}

#[test]
fn several_days_and_blanks() {
    let text = b"2024-11-05T18:07:54\n\n2024-11-06T00:00:00\n   \n2024-11-05T23:59:59\n".to_vec();
    let records = parse_sacct_output(&text);
    assert_eq!(records.len(), 2);
    assert_eq!(find(&records, d(2024, 11, 5)), Some(2));
    assert_eq!(find(&records, d(2024, 11, 6)), Some(1));
}

#[test]
fn malformed_lines_are_skipped() {
    let text = b"JobID Submit\n2024-11-05T18:07:54\nnot a date\n2024-13-05T18:07:54\n\
2024-02-30T10:00:00\n2024-11-05T24:00:00\n2024-11-05T10:60:00\n2024-11-05T10:00:61\n\
2024-11-05\n2024-11-05T18:07:54 trailing\n"
        .to_vec();
    let records = parse_sacct_output(&text);
    assert_eq!(records.len(), 1);
    assert_eq!(find(&records, d(2024, 11, 5)), Some(1));
}

#[test]
fn windows_line_endings_and_padding() {
    let text = b"  2024-11-05T18:07:54\r\n\t2024-11-06T08:30:00  \r\n".to_vec();
    let records = parse_sacct_output(&text);
    assert_eq!(records.len(), 2);
    assert_eq!(find(&records, d(2024, 11, 5)), Some(1));
    assert_eq!(find(&records, d(2024, 11, 6)), Some(1));
}

#[test]
fn empty_output_gives_no_records() {
    assert_eq!(parse_sacct_output(&Vec::new()).len(), 0);
    assert_eq!(parse_sacct_output(&b"\n\n".to_vec()).len(), 0);
}

#[test]
fn last_line_without_newline_counts() {
    let text = b"2024-11-05T18:07:54".to_vec();
    let records = parse_sacct_output(&text);
    assert_eq!(records.len(), 1);
    assert_eq!(records[0].date, d(2024, 11, 5));
    assert_eq!(records[0].count, 1);
}

#[test]
fn leap_day_parses() {
    let text = b"2024-02-29T12:00:00\n2023-02-29T12:00:00\n".to_vec();
    let records = parse_sacct_output(&text);
    assert_eq!(records.len(), 1);
    assert_eq!(records[0].date, d(2024, 2, 29));
}
