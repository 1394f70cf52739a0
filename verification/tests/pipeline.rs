use extrack::config::{Config, TimeRange};
use extrack::error::PipelineError;
use extrack::render::Table;
use extrack::row::Cell;

fn text_cell(s: &str) -> Cell {
    Cell { text: s.to_string(), number: None, string: Some(s.to_string()) }
}

fn num_cell(cents: i64) -> Cell {
    Cell { text: String::new(), number: Some(cents), string: None }
}

fn blank_cell() -> Cell {
    Cell { text: String::new(), number: None, string: None }
}

fn record(date: &str, desc: &str, cents: i64, cat: &str) -> Vec<Cell> {
    vec![text_cell(date), text_cell(desc), num_cell(cents), text_cell(cat)]
}

fn config(tr: TimeRange) -> Config {
    Config {
        file_path: String::new(),
        time_range: tr,
        output_path: None,
        date_column: 0,
        description_column: 1,
        amount_column: 2,
        category_column: 3,
        first_row_index: 0,
    }
}

fn run_ok(cfg: &Config, rows: Vec<Vec<Cell>>) -> (Vec<String>, Table) {
    let (warnings, result) = extrack::run(cfg, rows);
    match result {
        Ok(table) => (warnings, table),
        Err(e) => panic!("run failed: {}", e.message()),
    }
}

fn strings(row: &[&str]) -> Vec<String> {
    row.iter().map(|s| s.to_string()).collect()
}

#[test]
fn month_granularity_scenario() {
    let cfg = config(TimeRange::Month);
    let rows = vec![
        record("2023-01-05", "Coffee", -450, "Food"),
        record("2023-01-20", "Salary", 200000, "Income"),
        record("2023-02-01", "Rent", -80000, "Housing"),
    ];
    let (warnings, table) = run_ok(&cfg, rows);
    assert!(warnings.is_empty());
    assert_eq!(table.header, strings(&["Date", "Food", "Housing", "Income"]));
    assert_eq!(table.rows.len(), 2);
    for row in &table.rows {
        assert_eq!(row.len(), table.header.len());
    }
    assert_eq!(table.rows[0], strings(&["2023-01", "-4.5", "0", "2000"]));
    assert_eq!(table.rows[1], strings(&["2023-02", "0", "-800", "0"]));
}

#[test]
fn month_granularity_summaries() {
    let cfg = config(TimeRange::Month);
    let rows = vec![
        record("2023-01-05", "Coffee", -450, "Food"),
        record("2023-01-20", "Salary", 200000, "Income"),
        record("2023-02-01", "Rent", -80000, "Housing"),
    ];
    let (txns, diags) = extrack::row::parse_rows(&rows, &cfg);
    assert!(diags.is_empty());
    assert_eq!(txns.len(), 3);
    let grouped = match extrack::summary::group_transactions(&cfg, txns) {
        Ok(g) => g,
        Err(e) => panic!("grouping failed: {}", e.message()),
    };
    let summaries = extrack::summary::calculate_summaries(grouped);
    assert_eq!(summaries.len(), 2);
    assert_eq!(summaries[0].date, "2023-01");
    assert_eq!(summaries[0].total, 199550);
    assert_eq!(summaries[0].income, 200000);
    assert_eq!(summaries[0].expenses, -450);
    let jan = &summaries[0].category_breakdown;
    assert_eq!(jan.len(), 2);
    assert!(jan.contains(&("Food".to_string(), -450)));
    assert!(jan.contains(&("Income".to_string(), 200000)));
    assert_eq!(summaries[1].date, "2023-02");
    assert_eq!(summaries[1].total, -80000);
    assert_eq!(summaries[1].income, 0);
    assert_eq!(summaries[1].expenses, -80000);
    assert_eq!(summaries[1].category_breakdown, vec![("Housing".to_string(), -80000)]);
}

#[test]
fn year_granularity_scenario() {
    let cfg = config(TimeRange::Year);
    let rows = vec![
        record("2023-01-05", "Coffee", -450, "Food"),
        record("2023-01-20", "Salary", 200000, "Income"),
        record("2023-02-01", "Rent", -80000, "Housing"),
    ];
    let (txns, _) = extrack::row::parse_rows(&rows, &cfg);
    let grouped = match extrack::summary::group_transactions(&cfg, txns) {
        Ok(g) => g,
        Err(e) => panic!("grouping failed: {}", e.message()),
    };
    let summaries = extrack::summary::calculate_summaries(grouped);
    assert_eq!(summaries.len(), 1);
    assert_eq!(summaries[0].date, "2023");
    assert_eq!(summaries[0].total, 119550);
    assert_eq!(summaries[0].income, 200000);
    assert_eq!(summaries[0].expenses, -80450);
    let b = &summaries[0].category_breakdown;
    assert_eq!(b.len(), 3);
    assert!(b.contains(&("Food".to_string(), -450)));
    assert!(b.contains(&("Housing".to_string(), -80000)));
    assert!(b.contains(&("Income".to_string(), 200000)));
}

#[test]
fn zero_amount_row_is_skipped_not_fatal() {
    let cfg = config(TimeRange::Month);
    let rows = vec![
        record("2023-01-05", "Coffee", -450, "Food"),
        record("2023-01-06", "Zero", 0, "Misc"),
        record("2023-01-20", "Salary", 200000, "Income"),
    ];
    let (warnings, table) = run_ok(&cfg, rows);
    assert_eq!(warnings.len(), 1);
    assert_eq!(
        warnings[0],
        "Error parsing row: date: 2023-01-06, description: Zero, amount: 0, category: Misc"
    );
    assert_eq!(table.header, strings(&["Date", "Food", "Income"]));
    assert_eq!(table.rows, vec![strings(&["2023-01", "-4.5", "2000"])]);
}

#[test]
fn non_numeric_amount_is_skipped_with_default_category() {
    let cfg = config(TimeRange::Month);
    let rows = vec![vec![
        text_cell("2023-01-06"),
        text_cell("Stuff"),
        text_cell("not a number"),
        blank_cell(),
    ]];
    let (warnings, table) = run_ok(&cfg, rows);
    assert_eq!(warnings.len(), 1);
    assert_eq!(
        warnings[0],
        "Error parsing row: date: 2023-01-06, description: Stuff, amount: 0, category: Unspecified"
    );
    assert_eq!(table.header, strings(&["Date"]));
    assert!(table.rows.is_empty());
}

#[test]
fn malformed_date_aborts_the_run() {
    let cfg = config(TimeRange::Month);
    let rows = vec![
        record("2023-01-05", "Coffee", -450, "Food"),
        record("garbage", "Broken", 100, "Misc"),
    ];
    let (_, result) = extrack::run(&cfg, rows);
    match result {
        Ok(_) => panic!("malformed date must abort the run"),
        Err(PipelineError::DateParseFailure { date }) => {
            assert_eq!(date, "garbage");
        },
        Err(_) => panic!("wrong error kind"),
    }
}

#[test]
fn date_failure_message_names_the_date() {
    let e = PipelineError::DateParseFailure { date: "2023-13-40".to_string() };
    assert_eq!(e.message(), "could not parse date: 2023-13-40");
}

#[test]
fn sink_failure_message_names_the_cause() {
    let e = PipelineError::SinkFailure { message: "denied".to_string() };
    assert_eq!(e.message(), "could not write output: denied");
    let e = PipelineError::SourceUnavailable { message: "no sheet".to_string() };
    assert_eq!(e.message(), "could not read source: no sheet");
}

#[test]
fn empty_input_renders_header_only() {
    let cfg = config(TimeRange::Month);
    let (warnings, table) = run_ok(&cfg, vec![]);
    assert!(warnings.is_empty());
    assert_eq!(table.header, strings(&["Date"]));
    assert!(table.rows.is_empty());
}

#[test]
fn first_rows_are_skipped_silently() {
    let mut cfg = config(TimeRange::Month);
    cfg.first_row_index = 1;
    let rows = vec![
        vec![text_cell("Date"), text_cell("Description"), text_cell("Amount"), text_cell("Category")],
        record("2023-01-05", "Coffee", -450, "Food"),
    ];
    let (warnings, table) = run_ok(&cfg, rows);
    assert!(warnings.is_empty());
    assert_eq!(table.rows, vec![strings(&["2023-01", "-4.5"])]);
}

#[test]
fn same_category_accumulates_and_net_sign_decides_split() {
    // A category that nets positive contributes its whole net to income,
    // even when it holds negative transactions.
    let cfg = config(TimeRange::Month);
    let rows = vec![
        record("2023-03-01", "Refund", 5000, "Shopping"),
        record("2023-03-02", "Purchase", -2000, "Shopping"),
        record("2023-03-03", "Fee", -1000, "Bank"),
    ];
    let (txns, _) = extrack::row::parse_rows(&rows, &cfg);
    let grouped = match extrack::summary::group_transactions(&cfg, txns) {
        Ok(g) => g,
        Err(e) => panic!("grouping failed: {}", e.message()),
    };
    let summaries = extrack::summary::calculate_summaries(grouped);
    assert_eq!(summaries.len(), 1);
    let s = &summaries[0];
    assert_eq!(s.total, 2000);
    assert_eq!(s.income, 3000);
    assert_eq!(s.expenses, -1000);
    assert_eq!(s.income + s.expenses, s.total);
    let value_sum: i128 = s.category_breakdown.iter().map(|p| p.1).sum();
    assert_eq!(value_sum, s.total);
    assert!(s.income >= 0);
    assert!(s.expenses <= 0);
    assert!(s.category_breakdown.contains(&("Shopping".to_string(), 3000)));
}

#[test]
fn buckets_follow_chronological_order_in_output() {
    let cfg = config(TimeRange::Month);
    let rows = vec![
        record("2023-11-01", "Late", 100, "A"),
        record("2023-02-01", "Early", 200, "B"),
    ];
    let (_, table) = run_ok(&cfg, rows);
    assert_eq!(table.rows[0][0], "2023-02");
    assert_eq!(table.rows[1][0], "2023-11");
}
