//! Run configuration: time-bucket granularity, column indices, and paths.
use vstd::prelude::*;
use crate::text::{digit_val, is_digit, lemma_digit_val_bounds, str_eq};

verus! {

/// The time-range unit that controls bucket-key derivation.
#[derive(Clone, Copy, Debug, PartialEq, Eq, Structural)]
pub enum TimeRange {
    Year,
    Month,
    Week,
}

/// Configuration of one run: source and destination paths, granularity,
/// column indices into each row, and the number of leading rows to skip.
pub struct Config {
    pub file_path: String,
    pub time_range: TimeRange,
    pub output_path: Option<String>,
    pub date_column: usize,
    pub description_column: usize,
    pub amount_column: usize,
    pub category_column: usize,
    pub first_row_index: usize,
}

/// The value of an all-digit character sequence, read in decimal.
pub open spec fn digits_val(s: Seq<char>) -> int
    decreases s.len(),
{
    if s.len() == 0 {
        0
    } else {
        digits_val(s.drop_last()) * 10 + digit_val(s.last())
    }
}

/// What the library's decimal parser accepts: one or more digits whose
/// value fits in `usize`.
pub open spec fn parse_usize_spec(s: Seq<char>) -> Option<int> {
    if s.len() > 0 && (forall|k: int| 0 <= k < s.len() ==> is_digit(s[k])) && digits_val(s)
        <= usize::MAX {
        Some(digits_val(s))
    } else {
        None
    }
}

/// Parses a column-index value: one or more decimal digits.
pub fn parse_usize(s: &str) -> (r: Option<usize>)
    ensures
        r matches Some(n) ==> parse_usize_spec(s@) == Some(n as int),
        r is None ==> parse_usize_spec(s@) is None,
{
    let len = s.unicode_len();
    if len == 0 {
        return None;
    }
    let mut i: usize = 0;
    let mut acc: usize = 0;
    while i < len
        invariant
            i <= len,
            len == s@.len(),
            forall|k: int| 0 <= k < i ==> is_digit(s@[k]),
            acc == digits_val(s@.take(i as int)),
            acc <= usize::MAX,
        decreases len - i,
    {
        let c = s.get_char(i);
        if c < '0' || c > '9' {
            proof {
                assert(!is_digit(s@[i as int]));
            }
            return None;
        }
        let d = (c as u32) - 48;
        proof {
            assert(is_digit(s@[i as int]));
            assert(d == digit_val(s@[i as int]));
            assert(0 <= d < 10);
        }
        if acc > (usize::MAX - d as usize) / 10 {
            proof {
                if forall|k: int| 0 <= k < s@.len() ==> #[trigger] is_digit(s@[k]) {
                    lemma_digits_val_overflow(s@, i as int, acc as int, d as int);
                }
            }
            return None;
        }
        acc = acc * 10 + d as usize;
        proof {
            assert(s@.take(i + 1).drop_last() =~= s@.take(i as int));
            assert(s@.take(i + 1).last() == s@[i as int]);
        }
        i = i + 1;
    }
    proof {
        assert(s@.take(len as int) =~= s@);
    }
    Some(acc)
}

/// If the prefix value is already too large, the whole value overflows.
proof fn lemma_digits_val_overflow(s: Seq<char>, i: int, acc: int, d: int)
    requires
        0 <= i < s.len(),
        acc == digits_val(s.take(i)),
        0 <= d < 10,
        d == digit_val(s[i]),
        forall|k: int| 0 <= k < s.len() ==> #[trigger] is_digit(s[k]),
        acc * 10 + d > usize::MAX,
    ensures
        digits_val(s) > usize::MAX,
{
    broadcast use lemma_digit_val_bounds;

    lemma_digits_val_monotone(s, i + 1);
    assert(s.take(i + 1).drop_last() =~= s.take(i));
    assert(s.take(i + 1).last() == s[i]);
    assert(digits_val(s.take(i + 1)) == acc * 10 + d);
}

/// The value of a longer all-digit prefix is at least the shorter one's.
proof fn lemma_digits_val_monotone(s: Seq<char>, i: int)
    requires
        0 <= i <= s.len(),
        forall|k: int| 0 <= k < s.len() ==> #[trigger] is_digit(s[k]),
    ensures
        digits_val(s) >= digits_val(s.take(i)),
        digits_val(s) >= 0,
    decreases s.len() - i,
{
    broadcast use lemma_digit_val_bounds;

    if i == s.len() {
        assert(s.take(i) =~= s);
        lemma_digits_val_nonneg(s);
    } else {
        lemma_digits_val_monotone(s, i + 1);
        assert(s.take(i + 1).drop_last() =~= s.take(i));
        assert(s.take(i + 1).last() == s[i]);
        lemma_digits_val_nonneg(s.take(i));
    }
}

/// An all-digit sequence has a non-negative value.
proof fn lemma_digits_val_nonneg(s: Seq<char>)
    requires
        forall|k: int| 0 <= k < s.len() ==> #[trigger] is_digit(s[k]),
    ensures
        digits_val(s) >= 0,
    decreases s.len(),
{
    broadcast use lemma_digit_val_bounds;

    if s.len() > 0 {
        assert(forall|k: int|
            0 <= k < s.drop_last().len() ==> #[trigger] is_digit(s.drop_last()[k]) == is_digit(
                s[k],
            ));
        lemma_digits_val_nonneg(s.drop_last());
        assert(is_digit(s[s.len() - 1]));
    }
}

/// The granularity named by a configuration value, if any.
pub open spec fn time_range_of(s: Seq<char>) -> Option<TimeRange> {
    if s == ("Year")@ {
        Some(TimeRange::Year)
    } else if s == ("Month")@ {
        Some(TimeRange::Month)
    } else if s == ("Week")@ {
        Some(TimeRange::Week)
    } else {
        None
    }
}

/// The column index configured by an optional setting string: the parsed
/// value, or `default` when the setting is absent or not a plain number.
pub open spec fn column_spec(v: Option<String>, default: int) -> int {
    match v {
        Option::None => default,
        Option::Some(s) => match parse_usize_spec(s@) {
            Option::Some(n) => n,
            Option::None => default,
        },
    }
}

impl Config {
    /// Builds a configuration from plain argument and setting values:
    /// the input path, the output path if any, the granularity name, and
    /// the optional column-index settings with their usual defaults.
    pub fn new(
        input: Option<String>,
        output: Option<String>,
        timerange: &str,
        date_column: Option<String>,
        description_column: Option<String>,
        amount_column: Option<String>,
        category_column: Option<String>,
        first_row_index: Option<String>,
    ) -> (r: Result<Config, &'static str>)
        ensures
            match r {
                Result::Ok(c) => {
                    &&& input matches Some(p) && c.file_path == p
                    &&& time_range_of(timerange@) == Some(c.time_range)
                    &&& c.output_path == output
                    &&& c.date_column == column_spec(date_column, 0)
                    &&& c.description_column == column_spec(description_column, 1)
                    &&& c.amount_column == column_spec(amount_column, 2)
                    &&& c.category_column == column_spec(category_column, 3)
                    &&& c.first_row_index == column_spec(first_row_index, 0)
                },
                Result::Err(m) => {
                    ||| (input is None && m@ == ("could not find input argument")@)
                    ||| (input is Some && time_range_of(timerange@) is None && m@ == (
                    "did not receive a valid timerange argument")@)
                },
            },
    {
        let file_path = match input {
            Option::Some(p) => p,
            Option::None => {
                return Result::Err("could not find input argument");
            },
        };
        let time_range = if str_eq(timerange, "Year") {
            TimeRange::Year
        } else if str_eq(timerange, "Month") {
            TimeRange::Month
        } else if str_eq(timerange, "Week") {
            TimeRange::Week
        } else {
            return Result::Err("did not receive a valid timerange argument");
        };
        let config = Config {
            file_path,
            time_range,
            output_path: output,
            date_column: column_or(date_column, 0),
            description_column: column_or(description_column, 1),
            amount_column: column_or(amount_column, 2),
            category_column: column_or(category_column, 3),
            first_row_index: column_or(first_row_index, 0),
        };
        Result::Ok(config)
    }
}

/// Reads an optional column-index setting, falling back to `default`.
fn column_or(v: Option<String>, default: usize) -> (r: usize)
    ensures
        r == column_spec(v, default as int),
{
    match v {
        Option::Some(s) => match parse_usize(s.as_str()) {
            Option::Some(n) => n,
            Option::None => default,
        },
        Option::None => default,
    }
}

} // verus!
