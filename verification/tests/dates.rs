use extrack::config::TimeRange;
use extrack::date::{Date, bucket_key, parse_date, week_number};

fn date(y: u32, m: u32, d: u32) -> Date {
    Date { year: y, month: m, day: d }
}

#[test]
fn parse_accepts_strict_calendar_dates() {
    assert_eq!(parse_date("2023-01-05"), Some(date(2023, 1, 5)));
    assert_eq!(parse_date("0000-01-01"), Some(date(0, 1, 1)));
    assert_eq!(parse_date("9999-12-31"), Some(date(9999, 12, 31)));
    assert_eq!(parse_date("2024-02-29"), Some(date(2024, 2, 29)));
    assert_eq!(parse_date("2000-02-29"), Some(date(2000, 2, 29)));
}

#[test]
fn parse_rejects_malformed_or_impossible_dates() {
    assert_eq!(parse_date(""), None);
    assert_eq!(parse_date("garbage"), None);
    assert_eq!(parse_date("2023-1-5"), None);
    assert_eq!(parse_date("2023/01/05"), None);
    assert_eq!(parse_date("2023-01-05 "), None);
    assert_eq!(parse_date("2023-13-01"), None);
    assert_eq!(parse_date("2023-00-10"), None);
    assert_eq!(parse_date("2023-02-29"), None);
    assert_eq!(parse_date("1900-02-29"), None);
    assert_eq!(parse_date("2023-04-31"), None);
    assert_eq!(parse_date("2023-01-00"), None);
}

#[test]
fn year_keys_are_zero_padded() {
    assert_eq!(bucket_key(&date(2023, 1, 5), TimeRange::Year), "2023");
    assert_eq!(bucket_key(&date(7, 3, 2), TimeRange::Year), "0007");
}

#[test]
fn month_keys_are_zero_padded() {
    assert_eq!(bucket_key(&date(2023, 1, 5), TimeRange::Month), "2023-01");
    assert_eq!(bucket_key(&date(2023, 11, 5), TimeRange::Month), "2023-11");
}

#[test]
fn week_number_counts_monday_first_weeks() {
    // January 1, 2023 is a Sunday: it precedes the year's first Monday.
    assert_eq!(week_number(&date(2023, 1, 1)), 0);
    // January 2, 2023 is the first Monday: week 1 begins.
    assert_eq!(week_number(&date(2023, 1, 2)), 1);
    assert_eq!(week_number(&date(2023, 1, 5)), 1);
    assert_eq!(week_number(&date(2023, 1, 8)), 1);
    assert_eq!(week_number(&date(2023, 1, 9)), 2);
    // 2024 begins on a Monday.
    assert_eq!(week_number(&date(2024, 1, 1)), 1);
    assert_eq!(week_number(&date(2024, 12, 31)), 53);
    assert_eq!(week_number(&date(2023, 12, 31)), 52);
}

#[test]
fn week_keys_are_zero_padded() {
    assert_eq!(bucket_key(&date(2023, 1, 1), TimeRange::Week), "2023-00");
    assert_eq!(bucket_key(&date(2023, 1, 5), TimeRange::Week), "2023-01");
    assert_eq!(bucket_key(&date(2024, 12, 31), TimeRange::Week), "2024-53");
}

#[test]
fn zero_padding_makes_lexicographic_order_chronological() {
    assert!(extrack::text::str_le("2023-02", "2023-11"));
    assert!(!extrack::text::str_le("2023-11", "2023-02"));
    assert!(extrack::text::str_le("0999", "1000"));
    assert!(extrack::text::str_le("2023-09", "2023-10"));
    assert!(extrack::text::str_le("2022-12", "2023-01"));
}
