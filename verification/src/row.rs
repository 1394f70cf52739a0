//! Raw tabular rows and their validation into transactions.
//!
//! A row is an ordered sequence of cells. Each cell carries the three
//! readings the pipeline uses: its display text, its numeric value in
//! hundredths of the currency unit when the cell is numeric, and its
//! text content when the cell is a text cell.
use vstd::prelude::*;
use crate::config::Config;

verus! {

/// One cell of a raw row, reduced to the readings the pipeline uses.
pub struct Cell {
    /// The cell's display text.
    pub text: String,
    /// The cell's value in hundredths of the currency unit, when numeric.
    pub number: Option<i64>,
    /// The cell's text content, when it is a text cell.
    pub string: Option<String>,
}

/// One validated financial record.
pub struct Transaction {
    pub date: String,
    pub description: String,
    pub amount: i64,
    pub category: String,
}

impl Transaction {
    /// Every constructed transaction has a non-zero amount.
    pub open spec fn wf(self) -> bool {
        self.amount != 0
    }

    /// An owned copy of the record.
    pub fn duplicate(&self) -> (r: Transaction)
        ensures
            r == *self,
    {
        Transaction {
            date: self.date.clone(),
            description: self.description.clone(),
            amount: self.amount,
            category: self.category.clone(),
        }
    }
}

/// The amount a cell coerces to: its numeric value, or 0.
pub open spec fn cell_amount(cell: Cell) -> int {
    match cell.number {
        Option::Some(n) => n as int,
        Option::None => 0,
    }
}

/// The category a cell coerces to: its text content, or `"Unspecified"`.
pub open spec fn cell_category(cell: Cell) -> Seq<char> {
    match cell.string {
        Option::Some(s) => s@,
        Option::None => ("Unspecified")@,
    }
}

/// Whether the four configured column indices fall inside the row.
pub open spec fn cols_ok(row: Seq<Cell>, c: Config) -> bool {
    &&& c.date_column < row.len()
    &&& c.description_column < row.len()
    &&& c.amount_column < row.len()
    &&& c.category_column < row.len()
}

/// Whether a transaction holds exactly what the configured cells of the
/// row coerce to.
pub open spec fn txn_matches(t: Transaction, row: Seq<Cell>, c: Config) -> bool {
    &&& t.date@ == row[c.date_column as int].text@
    &&& t.description@ == row[c.description_column as int].text@
    &&& t.amount == cell_amount(row[c.amount_column as int])
    &&& t.category@ == cell_category(row[c.category_column as int])
}

/// The diagnostic recorded for a skipped row; a skipped row's amount is
/// always exactly zero.
pub open spec fn skip_message(date: Seq<char>, desc: Seq<char>, cat: Seq<char>) -> Seq<char> {
    ("Error parsing row: date: ")@ + date + (", description: ")@ + desc + (
    ", amount: 0, category: ")@ + cat
}

/// Reads the configured cells of one row: a transaction when the coerced
/// amount is non-zero, the skip diagnostic when it is zero.
pub fn parse_row(row: &Vec<Cell>, config: &Config) -> (r: Result<Transaction, String>)
    requires
        cols_ok(row@, *config),
    ensures
        match r {
            Result::Ok(t) => cell_amount(row@[config.amount_column as int]) != 0 && txn_matches(
                t,
                row@,
                *config,
            ) && t.wf(),
            Result::Err(m) => cell_amount(row@[config.amount_column as int]) == 0 && m@
                == skip_message(
                row@[config.date_column as int].text@,
                row@[config.description_column as int].text@,
                cell_category(row@[config.category_column as int]),
            ),
        },
{
    let date = row[config.date_column].text.clone();
    let description = row[config.description_column].text.clone();
    let amount: i64 = match &row[config.amount_column].number {
        Option::Some(n) => *n,
        Option::None => 0,
    };
    let category: String = match &row[config.category_column].string {
        Option::Some(s) => s.clone(),
        Option::None => String::from_str("Unspecified"),
    };
    if amount == 0 {
        let mut m = String::from_str("Error parsing row: date: ");
        m.append(date.as_str());
        m.append(", description: ");
        m.append(description.as_str());
        m.append(", amount: 0, category: ");
        m.append(category.as_str());
        proof {
            assert(m@ =~= skip_message(
                row@[config.date_column as int].text@,
                row@[config.description_column as int].text@,
                cell_category(row@[config.category_column as int]),
            ));
        }
        Result::Err(m)
    } else {
        Result::Ok(Transaction { date, description, amount, category })
    }
}

/// The rows the run actually reads: those at or past the configured
/// first row index.
pub open spec fn effective_rows(rows: Seq<Vec<Cell>>, first: int) -> Seq<Vec<Cell>> {
    if first <= rows.len() {
        rows.skip(first)
    } else {
        Seq::empty()
    }
}

/// Whether a row is kept: its coerced amount is non-zero.
pub open spec fn row_kept(c: Config) -> spec_fn(Vec<Cell>) -> bool {
    |r: Vec<Cell>| cell_amount(r@[c.amount_column as int]) != 0
}

/// Whether a row is skipped: its coerced amount is exactly zero.
pub open spec fn row_skipped(c: Config) -> spec_fn(Vec<Cell>) -> bool {
    |r: Vec<Cell>| cell_amount(r@[c.amount_column as int]) == 0
}

/// What row validation produces: the kept rows' transactions in input
/// order, and the skipped rows' diagnostics in input order.
pub open spec fn parse_outcome_ok(
    txns: Seq<Transaction>,
    diags: Seq<String>,
    rows: Seq<Vec<Cell>>,
    c: Config,
) -> bool {
    let kept = effective_rows(rows, c.first_row_index as int).filter(row_kept(c));
    let skipped = effective_rows(rows, c.first_row_index as int).filter(row_skipped(c));
    &&& txns.len() == kept.len()
    &&& forall|i: int| 0 <= i < kept.len() ==> txn_matches(#[trigger] txns[i], kept[i]@, c)
    &&& forall|i: int| 0 <= i < txns.len() ==> (#[trigger] txns[i]).wf()
    &&& diags.len() == skipped.len()
    &&& forall|i: int|
        0 <= i < skipped.len() ==> (#[trigger] diags[i])@ == skip_message(
            skipped[i]@[c.date_column as int].text@,
            skipped[i]@[c.description_column as int].text@,
            cell_category(skipped[i]@[c.category_column as int]),
        )
}

/// Validates every row at or past the configured first row: kept rows
/// become transactions in input order, skipped rows produce their
/// diagnostics in input order, and nothing else is produced.
pub fn parse_rows(rows: &Vec<Vec<Cell>>, config: &Config) -> (r: (Vec<Transaction>, Vec<String>))
    requires
        forall|i: int|
            config.first_row_index <= i < rows@.len() ==> cols_ok(#[trigger] rows@[i]@, *config),
    ensures
        parse_outcome_ok(r.0@, r.1@, rows@, *config),
{
    broadcast use vstd::prelude::Seq::lemma_filter_push;

    let ghost first = config.first_row_index as int;
    let mut txns: Vec<Transaction> = Vec::new();
    let mut diags: Vec<String> = Vec::new();
    let mut i: usize = config.first_row_index;
    while i < rows.len()
        invariant
            config.first_row_index <= i,
            first == config.first_row_index as int,
            first <= rows@.len() ==> i <= rows@.len(),
            first > rows@.len() ==> i == first,
            forall|k: int|
                config.first_row_index <= k < rows@.len() ==> cols_ok(
                    #[trigger] rows@[k]@,
                    *config,
                ),
            ({
                let kept = if first <= rows@.len() {
                    rows@.subrange(first, i as int).filter(row_kept(*config))
                } else {
                    Seq::<Vec<Cell>>::empty()
                };
                &&& txns@.len() == kept.len()
                &&& forall|k: int|
                    0 <= k < kept.len() ==> txn_matches(#[trigger] txns@[k], kept[k]@, *config)
                &&& forall|k: int| 0 <= k < txns@.len() ==> (#[trigger] txns@[k]).wf()
            }),
            ({
                let skipped = if first <= rows@.len() {
                    rows@.subrange(first, i as int).filter(row_skipped(*config))
                } else {
                    Seq::<Vec<Cell>>::empty()
                };
                &&& diags@.len() == skipped.len()
                &&& forall|k: int|
                    0 <= k < skipped.len() ==> (#[trigger] diags@[k])@ == skip_message(
                        skipped[k]@[config.date_column as int].text@,
                        skipped[k]@[config.description_column as int].text@,
                        cell_category(skipped[k]@[config.category_column as int]),
                    )
            }),
        decreases rows@.len() - i,
    {
        let ghost prefix = rows@.subrange(first, i as int);
        match parse_row(&rows[i], config) {
            Result::Ok(t) => txns.push(t),
            Result::Err(m) => diags.push(m),
        }
        proof {
            let elem = rows@[i as int];
            assert(rows@.subrange(first, i + 1) =~= prefix.push(elem));
            prefix.lemma_filter_push(elem, row_kept(*config));
            prefix.lemma_filter_push(elem, row_skipped(*config));
            assert(row_kept(*config)(elem) == (cell_amount(elem@[config.amount_column as int])
                != 0));
            assert(row_skipped(*config)(elem) == (cell_amount(elem@[config.amount_column as int])
                == 0));
        }
        i = i + 1;
    }
    proof {
        if first <= rows@.len() {
            assert(rows@.subrange(first, rows@.len() as int) =~= effective_rows(rows@, first));
        }
    }
    (txns, diags)
}

} // verus!
