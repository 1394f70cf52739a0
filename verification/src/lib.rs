//! Periodic financial summaries over tabular transaction records.
//!
//! The pipeline validates raw rows into transactions, groups them into
//! time buckets, folds each bucket into a summary, and renders the
//! summaries as a rectangular table. Monetary amounts are carried as
//! signed integers counting hundredths of the currency unit, so every
//! sum in a summary is exact.
use vstd::prelude::*;

pub mod config;
pub mod date;
pub mod error;
pub mod render;
pub mod row;
pub mod summary;
pub mod text;

use crate::config::Config;
use crate::error::PipelineError;
use crate::render::{Table, render_table, table_ok};
use crate::row::{Cell, Transaction, cols_ok, parse_outcome_ok, parse_rows};
use crate::summary::{
    Summary, all_dates_ok, calculate_summaries, date_failure, group_transactions, groups_ok,
    summaries_ok,
};

verus! {

/// Runs the whole pipeline over the raw rows: validates them, groups
/// the transactions into time buckets, aggregates each bucket, and
/// renders the table. The first component of the result carries the
/// skip diagnostics, which are produced whether or not the run fails.
pub fn run(config: &Config, raw_rows: Vec<Vec<Cell>>) -> (r: (
    Vec<String>,
    Result<Table, PipelineError>,
))
    requires
        forall|i: int|
            config.first_row_index <= i < raw_rows@.len() ==> cols_ok(
                #[trigger] raw_rows@[i]@,
                *config,
            ),
    ensures
        exists|txns: Seq<Transaction>|
            #[trigger] parse_outcome_ok(txns, r.0@, raw_rows@, *config) && match r.1 {
                Result::Ok(table) => all_dates_ok(txns) && (exists|
                    groups: Seq<(String, Vec<Transaction>)>,
                    sums: Seq<Summary>,
                |
                    #[trigger] groups_ok(groups, txns, config.time_range)
                        && #[trigger] summaries_ok(sums, groups) && table_ok(
                        table.header@,
                        table.rows@,
                        sums,
                    )),
                Result::Err(e) => date_failure(e, txns),
            },
{
    let (txns, diagnostics) = parse_rows(&raw_rows, config);
    let ghost txns_view = txns@;
    let grouped = match group_transactions(config, txns) {
        Result::Ok(grouped) => grouped,
        Result::Err(e) => {
            let result: (Vec<String>, Result<Table, PipelineError>) = (
                diagnostics,
                Result::Err(e),
            );
            proof {
                assert(parse_outcome_ok(txns_view, result.0@, raw_rows@, *config));
                assert(result.1 matches Result::Err(e0) && date_failure(e0, txns_view));
            }
            return result;
        },
    };
    let ghost groups_view = grouped@;
    let summaries = calculate_summaries(grouped);
    let table = render_table(&summaries);
    let ghost sums_view = summaries@;
    let result: (Vec<String>, Result<Table, PipelineError>) = (diagnostics, Result::Ok(table));
    proof {
        assert(parse_outcome_ok(txns_view, result.0@, raw_rows@, *config));
        assert(groups_ok(groups_view, txns_view, config.time_range));
        assert(summaries_ok(sums_view, groups_view));
        assert(result.1 matches Result::Ok(t) && table_ok(t.header@, t.rows@, sums_view));
    }
    result
}

} // verus!
