use extrack::config::{Config, TimeRange, parse_usize};
use extrack::row::{Cell, parse_row};
use extrack::text::{format_amount, format_padded2, format_padded4, format_u128, str_eq, str_le};

#[test]
fn amounts_format_like_shortest_float_display() {
    assert_eq!(format_amount(0), "0");
    assert_eq!(format_amount(-450), "-4.5");
    assert_eq!(format_amount(200000), "2000");
    assert_eq!(format_amount(-80000), "-800");
    assert_eq!(format_amount(123), "1.23");
    assert_eq!(format_amount(-123), "-1.23");
    assert_eq!(format_amount(5), "0.05");
    assert_eq!(format_amount(-5), "-0.05");
    assert_eq!(format_amount(10), "0.1");
    assert_eq!(format_amount(100), "1");
    assert_eq!(format_amount(199550), "1995.5");
}

#[test]
fn padded_fields_have_fixed_width() {
    assert_eq!(format_padded4(0), "0000");
    assert_eq!(format_padded4(42), "0042");
    assert_eq!(format_padded4(9999), "9999");
    assert_eq!(format_padded2(0), "00");
    assert_eq!(format_padded2(7), "07");
    assert_eq!(format_padded2(53), "53");
}

#[test]
fn plain_decimals_have_no_padding() {
    assert_eq!(format_u128(0), "0");
    assert_eq!(format_u128(10), "10");
    assert_eq!(format_u128(987654321), "987654321");
}

#[test]
fn string_comparison_is_lexicographic() {
    assert!(str_le("", "a"));
    assert!(str_le("a", "a"));
    assert!(str_le("a", "ab"));
    assert!(!str_le("ab", "a"));
    assert!(str_le("Food", "Housing"));
    assert!(!str_le("Income", "Housing"));
    assert!(str_eq("Food", "Food"));
    assert!(!str_eq("Food", "Foo"));
}

#[test]
fn column_values_parse_as_plain_decimals() {
    assert_eq!(parse_usize("0"), Some(0));
    assert_eq!(parse_usize("42"), Some(42));
    assert_eq!(parse_usize(""), None);
    assert_eq!(parse_usize("4x"), None);
    assert_eq!(parse_usize("-1"), None);
    assert_eq!(parse_usize("999999999999999999999999999999"), None);
}

#[test]
fn config_takes_granularity_and_column_settings() {
    let cfg = Config::new(
        Some("input.xlsx".to_string()),
        Some("out.csv".to_string()),
        "Year",
        Some("4".to_string()),
        None,
        Some("bad".to_string()),
        None,
        Some("2".to_string()),
    );
    let cfg = match cfg {
        Ok(c) => c,
        Err(m) => panic!("config rejected: {}", m),
    };
    assert_eq!(cfg.file_path, "input.xlsx");
    assert_eq!(cfg.output_path, Some("out.csv".to_string()));
    assert!(matches!(cfg.time_range, TimeRange::Year));
    assert_eq!(cfg.date_column, 4);
    assert_eq!(cfg.description_column, 1);
    assert_eq!(cfg.amount_column, 2);
    assert_eq!(cfg.category_column, 3);
    assert_eq!(cfg.first_row_index, 2);
}

#[test]
fn config_requires_an_input_path() {
    let r = Config::new(None, None, "Month", None, None, None, None, None);
    assert_eq!(r.err(), Some("could not find input argument"));
}

#[test]
fn config_rejects_an_unknown_granularity() {
    let r = Config::new(Some("in".to_string()), None, "Decade", None, None, None, None, None);
    assert_eq!(r.err(), Some("did not receive a valid timerange argument"));
}

#[test]
fn row_parser_reads_the_configured_columns() {
    let cfg = Config {
        file_path: String::new(),
        time_range: TimeRange::Month,
        output_path: None,
        date_column: 1,
        description_column: 0,
        amount_column: 3,
        category_column: 2,
        first_row_index: 0,
    };
    let row = vec![
        Cell { text: "Lunch".to_string(), number: None, string: Some("Lunch".to_string()) },
        Cell { text: "2023-05-01".to_string(), number: None, string: Some("2023-05-01".to_string()) },
        Cell { text: "Food".to_string(), number: None, string: Some("Food".to_string()) },
        Cell { text: String::new(), number: Some(-1250), string: None },
    ];
    let t = match parse_row(&row, &cfg) {
        Ok(t) => t,
        Err(m) => panic!("row rejected: {}", m),
    };
    assert_eq!(t.date, "2023-05-01");
    assert_eq!(t.description, "Lunch");
    assert_eq!(t.amount, -1250);
    assert_eq!(t.category, "Food");
}
