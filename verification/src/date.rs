//! Calendar dates and time-bucket keys.
//!
//! Dates are proleptic Gregorian, read strictly from `YYYY-MM-DD` text.
//! A bucket key is a fixed-width, zero-padded rendering of the year, the
//! year and month, or the year and week, so that lexicographic order of
//! keys coincides with chronological order of the periods they name.
//!
//! The week number follows the Monday-first convention: week 01 starts
//! at the year's first Monday, and days before it fall in week 00.
use vstd::prelude::*;
use vstd::arithmetic::div_mod::{
    lemma_div_is_ordered, lemma_fundamental_div_mod, lemma_hoist_over_denominator,
    lemma_mod_bound,
};
use crate::config::TimeRange;
use crate::text::{
    digit_val, is_digit, padded2, padded4, format_padded2, format_padded4, lex_le, lex_lt,
    lemma_lex_concat, lemma_concat_eq, lemma_lex_single, lemma_lex_total, lemma_padded2_order,
    lemma_padded4_order,
};

verus! {

/// A calendar date. Valid dates satisfy [`Date::wf`].
#[derive(Clone, Copy, Debug, PartialEq, Eq, Structural)]
pub struct Date {
    pub year: u32,
    pub month: u32,
    pub day: u32,
}

/// Whether `y` is a leap year in the proleptic Gregorian calendar.
pub open spec fn is_leap_year(y: int) -> bool {
    (y % 4 == 0 && y % 100 != 0) || y % 400 == 0
}

/// The number of days in month `m` of year `y`.
pub open spec fn days_in_month_spec(y: int, m: int) -> int {
    if m == 2 {
        if is_leap_year(y) {
            29
        } else {
            28
        }
    } else if m == 4 || m == 6 || m == 9 || m == 11 {
        30
    } else {
        31
    }
}

impl Date {
    /// A well-formed date: a four-digit year and a real calendar day.
    pub open spec fn wf(self) -> bool {
        &&& self.year <= 9999
        &&& 1 <= self.month <= 12
        &&& 1 <= self.day <= days_in_month_spec(self.year as int, self.month as int)
    }
}

/// The number of days in month `m` of year `y`.
pub fn days_in_month(y: u32, m: u32) -> (r: u32)
    requires
        1 <= m <= 12,
    ensures
        r == days_in_month_spec(y as int, m as int),
{
    if m == 2 {
        if (y % 4 == 0 && y % 100 != 0) || y % 400 == 0 {
            29
        } else {
            28
        }
    } else if m == 4 || m == 6 || m == 9 || m == 11 {
        30
    } else {
        31
    }
}

/// Whether `s` has the shape `YYYY-MM-DD`, all fields decimal digits.
pub open spec fn date_text_wf(s: Seq<char>) -> bool {
    &&& s.len() == 10
    &&& is_digit(s[0]) && is_digit(s[1]) && is_digit(s[2]) && is_digit(s[3])
    &&& s[4] == '-'
    &&& is_digit(s[5]) && is_digit(s[6])
    &&& s[7] == '-'
    &&& is_digit(s[8]) && is_digit(s[9])
}

/// The year field of well-shaped date text.
pub open spec fn year_of(s: Seq<char>) -> int {
    digit_val(s[0]) * 1000 + digit_val(s[1]) * 100 + digit_val(s[2]) * 10 + digit_val(s[3])
}

/// The month field of well-shaped date text.
pub open spec fn month_of(s: Seq<char>) -> int {
    digit_val(s[5]) * 10 + digit_val(s[6])
}

/// The day field of well-shaped date text.
pub open spec fn day_of(s: Seq<char>) -> int {
    digit_val(s[8]) * 10 + digit_val(s[9])
}

/// What strict date parsing yields: a date exactly when the text has the
/// `YYYY-MM-DD` shape and names a real calendar day.
pub open spec fn parse_date_spec(s: Seq<char>) -> Option<Date> {
    if date_text_wf(s) && 1 <= month_of(s) <= 12 && 1 <= day_of(s) && day_of(s)
        <= days_in_month_spec(year_of(s), month_of(s)) {
        Some(
            Date {
                year: year_of(s) as u32,
                month: month_of(s) as u32,
                day: day_of(s) as u32,
            },
        )
    } else {
        None
    }
}

/// Parses date text strictly as `YYYY-MM-DD`.
pub fn parse_date(s: &str) -> (r: Option<Date>)
    ensures
        r == parse_date_spec(s@),
        r matches Some(d) ==> d.wf(),
{
    if s.unicode_len() != 10 {
        return None;
    }
    let c0 = s.get_char(0);
    let c1 = s.get_char(1);
    let c2 = s.get_char(2);
    let c3 = s.get_char(3);
    let c4 = s.get_char(4);
    let c5 = s.get_char(5);
    let c6 = s.get_char(6);
    let c7 = s.get_char(7);
    let c8 = s.get_char(8);
    let c9 = s.get_char(9);
    if c4 != '-' || c7 != '-' {
        return None;
    }
    if c0 < '0' || c0 > '9' || c1 < '0' || c1 > '9' || c2 < '0' || c2 > '9' || c3 < '0' || c3 > '9'
        || c5 < '0' || c5 > '9' || c6 < '0' || c6 > '9' || c8 < '0' || c8 > '9' || c9 < '0' || c9
        > '9' {
        return None;
    }
    let year = (c0 as u32 - 48) * 1000 + (c1 as u32 - 48) * 100 + (c2 as u32 - 48) * 10 + (
    c3 as u32 - 48);
    let month = (c5 as u32 - 48) * 10 + (c6 as u32 - 48);
    let day = (c8 as u32 - 48) * 10 + (c9 as u32 - 48);
    proof {
        assert(year == year_of(s@));
        assert(month == month_of(s@));
        assert(day == day_of(s@));
    }
    if month < 1 || month > 12 {
        return None;
    }
    if day < 1 || day > days_in_month(year, month) {
        return None;
    }
    Some(Date { year, month, day })
}

/// The number of days in year `y` that precede month `m`.
pub open spec fn days_before_month(y: int, m: int) -> int
    decreases m,
{
    if m <= 1 {
        0
    } else {
        days_before_month(y, m - 1) + days_in_month_spec(y, m - 1)
    }
}

/// The zero-based ordinal of the date within its year.
pub open spec fn day_of_year0(d: Date) -> int {
    days_before_month(d.year as int, d.month as int) + d.day - 1
}

/// The weekday of January 1 of year `y`, Monday being 0.
pub open spec fn jan1_weekday(y: int) -> int {
    let p = y - 1;
    (p + p / 4 - p / 100 + p / 400) % 7
}

/// The Monday-first week number of the date within its year: days before
/// the year's first Monday count as week 0.
pub open spec fn week_of(d: Date) -> int {
    let yd0 = day_of_year0(d);
    let wd = (jan1_weekday(d.year as int) + yd0) % 7;
    (yd0 + 7 - wd) / 7
}

/// The zero-based ordinal of the date within its year.
fn day_of_year0_exec(d: &Date) -> (r: u32)
    requires
        d.wf(),
    ensures
        r == day_of_year0(*d),
        r <= 371,
{
    let mut acc: u32 = 0;
    let mut mm: u32 = 1;
    while mm < d.month
        invariant
            1 <= mm <= d.month,
            d.wf(),
            acc == days_before_month(d.year as int, mm as int),
            acc <= 31 * (mm - 1),
        decreases d.month - mm,
    {
        acc = acc + days_in_month(d.year, mm);
        mm = mm + 1;
    }
    acc + d.day - 1
}

/// The weekday of January 1, Monday being 0.
fn jan1_weekday_exec(y: u32) -> (r: u32)
    requires
        y <= 9999,
    ensures
        r == jan1_weekday(y as int),
        r <= 6,
{
    if y == 0 {
        proof {
            assert(jan1_weekday(0) == 5);
        }
        5
    } else {
        let p = y - 1;
        (p + p / 4 - p / 100 + p / 400) % 7
    }
}

/// The Monday-first week number of the date within its year.
pub fn week_number(d: &Date) -> (r: u32)
    requires
        d.wf(),
    ensures
        r == week_of(*d),
        r <= 54,
{
    let yd0 = day_of_year0_exec(d);
    let jw = jan1_weekday_exec(d.year);
    let wd = (jw + yd0) % 7;
    (yd0 + 7 - wd) / 7
}

/// The bucket key of a date under granularity `tr`: the zero-padded
/// year, year and month, or year and week.
pub open spec fn bucket_key_spec(d: Date, tr: TimeRange) -> Seq<char> {
    match tr {
        TimeRange::Year => padded4(d.year as int),
        TimeRange::Month => padded4(d.year as int) + seq!['-'] + padded2(d.month as int),
        TimeRange::Week => padded4(d.year as int) + seq!['-'] + padded2(week_of(d)),
    }
}

/// Renders the bucket key of a date under granularity `tr`.
pub fn bucket_key(d: &Date, tr: TimeRange) -> (r: String)
    requires
        d.wf(),
    ensures
        r@ == bucket_key_spec(*d, tr),
{
    proof {
        reveal_strlit("-");
    }
    let mut s = format_padded4(d.year);
    match tr {
        TimeRange::Year => s,
        TimeRange::Month => {
            s.append("-");
            let m = format_padded2(d.month);
            s.append(m.as_str());
            proof {
                assert(s@ =~= bucket_key_spec(*d, tr));
            }
            s
        },
        TimeRange::Week => {
            s.append("-");
            let w = format_padded2(week_number(d));
            s.append(w.as_str());
            proof {
                assert(s@ =~= bucket_key_spec(*d, tr));
            }
            s
        },
    }
}

/// The period a date falls in under granularity `tr`, as a pair ordered
/// lexicographically: the year, and the sub-period within it.
pub open spec fn bucket_of(d: Date, tr: TimeRange) -> (int, int) {
    match tr {
        TimeRange::Year => (d.year as int, 0),
        TimeRange::Month => (d.year as int, d.month as int),
        TimeRange::Week => (d.year as int, week_of(d)),
    }
}

/// The period of `d1` ends before the period of `d2` begins.
pub open spec fn bucket_before(d1: Date, d2: Date, tr: TimeRange) -> bool {
    let b1 = bucket_of(d1, tr);
    let b2 = bucket_of(d2, tr);
    b1.0 < b2.0 || (b1.0 == b2.0 && b1.1 < b2.1)
}

/// The days that precede a month stay within simple bounds.
proof fn lemma_dbm_bounds(y: int, m: int)
    requires
        1 <= m,
    ensures
        0 <= days_before_month(y, m) <= 31 * (m - 1),
    decreases m,
{
    if m > 1 {
        lemma_dbm_bounds(y, m - 1);
    }
}

/// The week number of a well-formed date lies between 0 and 54.
pub proof fn lemma_week_bounds(d: Date)
    requires
        d.wf(),
    ensures
        0 <= week_of(d) <= 54,
{
    lemma_dbm_bounds(d.year as int, d.month as int);
    let yd0 = day_of_year0(d);
    assert(0 <= yd0 <= 371);
    let wd = (jan1_weekday(d.year as int) + yd0) % 7;
    assert(0 <= wd < 7);
    let num = yd0 + 7 - wd;
    assert(1 <= num <= 378);
    lemma_div_is_ordered(0, num, 7);
    lemma_div_is_ordered(num, 378, 7);
    assert(378int / 7 == 54);
}

/// Keys of the year-and-subperiod shape order as their field pairs do.
proof fn lemma_key2_order(y1: int, s1: int, y2: int, s2: int)
    requires
        0 <= y1 <= 9999,
        0 <= y2 <= 9999,
        0 <= s1 <= 99,
        0 <= s2 <= 99,
    ensures
        lex_lt(padded4(y1) + seq!['-'] + padded2(s1), padded4(y2) + seq!['-'] + padded2(s2))
            <==> (y1 < y2 || (y1 == y2 && s1 < s2)),
        (padded4(y1) + seq!['-'] + padded2(s1) == padded4(y2) + seq!['-'] + padded2(s2)) <==> (y1
            == y2 && s1 == s2),
{
    let a1 = padded4(y1);
    let a2 = padded4(y2);
    let t1 = seq!['-'] + padded2(s1);
    let t2 = seq!['-'] + padded2(s2);
    assert(a1 + seq!['-'] + padded2(s1) =~= a1 + t1);
    assert(a2 + seq!['-'] + padded2(s2) =~= a2 + t2);
    lemma_lex_concat(a1, a2, t1, t2);
    lemma_concat_eq(a1, a2, t1, t2);
    lemma_lex_concat(seq!['-'], seq!['-'], padded2(s1), padded2(s2));
    lemma_concat_eq(seq!['-'], seq!['-'], padded2(s1), padded2(s2));
    lemma_lex_single('-', '-');
    lemma_padded4_order(y1, y2);
    lemma_padded2_order(s1, s2);
}

/// Lexicographic order of bucket keys coincides with chronological order
/// of the periods they name, and equal keys name the same period.
pub proof fn lemma_bucket_key_order(d1: Date, d2: Date, tr: TimeRange)
    requires
        d1.wf(),
        d2.wf(),
    ensures
        lex_lt(bucket_key_spec(d1, tr), bucket_key_spec(d2, tr)) <==> bucket_before(d1, d2, tr),
        (bucket_key_spec(d1, tr) == bucket_key_spec(d2, tr)) <==> (bucket_of(d1, tr) == bucket_of(
        d2, tr)),
{
    match tr {
        TimeRange::Year => {
            lemma_padded4_order(d1.year as int, d2.year as int);
        },
        TimeRange::Month => {
            lemma_key2_order(d1.year as int, d1.month as int, d2.year as int, d2.month as int);
        },
        TimeRange::Week => {
            lemma_week_bounds(d1);
            lemma_week_bounds(d2);
            lemma_key2_order(d1.year as int, week_of(d1), d2.year as int, week_of(d2));
        },
    }
}

/// Chronological order of dates: by year, then month, then day.
pub open spec fn date_le(d1: Date, d2: Date) -> bool {
    ||| d1.year < d2.year
    ||| (d1.year == d2.year && (d1.month < d2.month || (d1.month == d2.month && d1.day
        <= d2.day)))
}

/// A later month of the same year is preceded by at least as many days.
proof fn lemma_dbm_monotone(y: int, m1: int, m2: int)
    requires
        1 <= m1 <= m2,
    ensures
        days_before_month(y, m1) <= days_before_month(y, m2),
    decreases m2,
{
    if m1 < m2 {
        lemma_dbm_monotone(y, m1, m2 - 1);
    }
}

/// Within one year, the day-of-year ordinal follows the calendar order.
proof fn lemma_yd0_monotone(d1: Date, d2: Date)
    requires
        d1.wf(),
        d2.wf(),
        d1.year == d2.year,
        date_le(d1, d2),
    ensures
        day_of_year0(d1) <= day_of_year0(d2),
{
    let y = d1.year as int;
    if d1.month < d2.month {
        lemma_dbm_monotone(y, d1.month + 1, d2.month as int);
        assert(days_before_month(y, d1.month + 1) == days_before_month(y, d1.month as int)
            + days_in_month_spec(y, d1.month as int));
    }
}

/// Within one year, the week number follows the day-of-year ordinal.
proof fn lemma_week_monotone(d1: Date, d2: Date)
    requires
        d1.wf(),
        d2.wf(),
        d1.year == d2.year,
        day_of_year0(d1) <= day_of_year0(d2),
    ensures
        week_of(d1) <= week_of(d2),
{
    let y = d1.year as int;
    let j = jan1_weekday(y);
    lemma_mod_bound(y - 1 + (y - 1) / 4 - (y - 1) / 100 + (y - 1) / 400, 7);
    assert(0 <= j < 7);
    let q1 = j + day_of_year0(d1);
    let q2 = j + day_of_year0(d2);
    lemma_fundamental_div_mod(q1, 7);
    lemma_fundamental_div_mod(q2, 7);
    lemma_mod_bound(q1, 7);
    lemma_mod_bound(q2, 7);
    lemma_hoist_over_denominator(7 - j, q1 / 7, 7nat);
    lemma_hoist_over_denominator(7 - j, q2 / 7, 7nat);
    assert(day_of_year0(d1) + 7 - q1 % 7 == 7 - j + (q1 / 7) * 7);
    assert(day_of_year0(d2) + 7 - q2 % 7 == 7 - j + (q2 / 7) * 7);
    assert(week_of(d1) == (7 - j) / 7 + q1 / 7);
    assert(week_of(d2) == (7 - j) / 7 + q2 / 7);
    lemma_div_is_ordered(q1, q2, 7);
}

/// Bucket keys respect the calendar: under one granularity, a date at
/// or before another has a key lexicographically at or before the
/// other's.
pub proof fn lemma_bucket_key_chronological(d1: Date, d2: Date, tr: TimeRange)
    requires
        d1.wf(),
        d2.wf(),
        date_le(d1, d2),
    ensures
        lex_le(bucket_key_spec(d1, tr), bucket_key_spec(d2, tr)),
{
    lemma_bucket_key_order(d1, d2, tr);
    if d1.year == d2.year && (tr matches TimeRange::Week) {
        lemma_yd0_monotone(d1, d2);
        lemma_week_monotone(d1, d2);
    }
    if bucket_of(d1, tr) == bucket_of(d2, tr) {
        assert(bucket_key_spec(d1, tr) == bucket_key_spec(d2, tr));
        lemma_lex_total(bucket_key_spec(d1, tr), bucket_key_spec(d2, tr));
    }
}

} // verus!
