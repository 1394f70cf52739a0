//! Time-bucket grouping and per-bucket aggregation.
use vstd::prelude::*;
use crate::config::{Config, TimeRange};
use crate::date::{bucket_key, bucket_key_spec, parse_date, parse_date_spec};
use crate::error::PipelineError;
use crate::row::Transaction;
use crate::text::{str_le, lex_le, lex_lt, lemma_lex_total, lemma_lex_trans};

verus! {

/// The bucket key of a transaction whose date text parses.
pub open spec fn txn_key(t: Transaction, tr: TimeRange) -> Seq<char> {
    bucket_key_spec(parse_date_spec(t.date@).unwrap(), tr)
}

/// The transactions that fall in the bucket named `key`.
pub open spec fn key_pred(key: Seq<char>, tr: TimeRange) -> spec_fn(Transaction) -> bool {
    |t: Transaction| txn_key(t, tr) == key
}

/// Whether some group carries the bucket key of `t`.
pub open spec fn key_covered(
    groups: Seq<(String, Vec<Transaction>)>,
    t: Transaction,
    tr: TimeRange,
) -> bool {
    exists|g: int| 0 <= g < groups.len() && (#[trigger] groups[g]).0@ == txn_key(t, tr)
}

/// Whether every transaction's date text parses.
pub open spec fn all_dates_ok(ts: Seq<Transaction>) -> bool {
    forall|i: int| 0 <= i < ts.len() ==> parse_date_spec((#[trigger] ts[i]).date@) is Some
}

/// What grouping produces: distinct keys, each group exactly the
/// transactions of its key in input order, non-empty groups, and every
/// transaction covered.
pub open spec fn groups_ok(
    groups: Seq<(String, Vec<Transaction>)>,
    ts: Seq<Transaction>,
    tr: TimeRange,
) -> bool {
    &&& forall|g1: int, g2: int|
        0 <= g1 < g2 < groups.len() ==> (#[trigger] groups[g1]).0@ != (#[trigger] groups[g2]).0@
    &&& forall|g: int|
        0 <= g < groups.len() ==> (#[trigger] groups[g]).1@ == ts.filter(
            key_pred(groups[g].0@, tr),
        )
    &&& forall|g: int| 0 <= g < groups.len() ==> (#[trigger] groups[g]).1@.len() > 0
    &&& forall|i: int| 0 <= i < ts.len() ==> key_covered(groups, #[trigger] ts[i], tr)
    &&& forall|g: int, j: int|
        0 <= g < groups.len() && 0 <= j < groups[g].1@.len() ==> (
        #[trigger] groups[g].1@[j]).wf()
}

/// A fatal grouping outcome: the first date text that does not parse.
pub open spec fn date_failure(e: PipelineError, ts: Seq<Transaction>) -> bool {
    exists|i: int|
        0 <= i < ts.len() && parse_date_spec((#[trigger] ts[i]).date@) is None && (forall|k: int|
            0 <= k < i ==> parse_date_spec((#[trigger] ts[k]).date@) is Some) && (
        e matches PipelineError::DateParseFailure { date } && date@ == ts[i].date@)
}

/// Groups transactions by bucket key. Every group holds exactly the
/// transactions of its key, in input order; keys are distinct and every
/// transaction lands in some group. The first transaction whose date
/// text is not a strict `YYYY-MM-DD` date aborts the run.
pub fn group_transactions(config: &Config, rows: Vec<Transaction>) -> (r: Result<
    Vec<(String, Vec<Transaction>)>,
    PipelineError,
>)
    requires
        forall|i: int| 0 <= i < rows@.len() ==> (#[trigger] rows@[i]).wf(),
    ensures
        match r {
            Result::Ok(groups) => all_dates_ok(rows@) && groups_ok(
                groups@,
                rows@,
                config.time_range,
            ),
            Result::Err(e) => date_failure(e, rows@),
        },
{
    let tr = config.time_range;
    let mut groups: Vec<(String, Vec<Transaction>)> = Vec::new();
    let mut idx: usize = 0;
    while idx < rows.len()
        invariant
            idx <= rows@.len(),
            tr == config.time_range,
            forall|i: int| 0 <= i < rows@.len() ==> (#[trigger] rows@[i]).wf(),
            forall|k: int| 0 <= k < idx ==> parse_date_spec((#[trigger] rows@[k]).date@) is Some,
            forall|g1: int, g2: int|
                0 <= g1 < g2 < groups@.len() ==> (#[trigger] groups@[g1]).0@ != (
                #[trigger] groups@[g2]).0@,
            forall|g: int|
                0 <= g < groups@.len() ==> (#[trigger] groups@[g]).1@ == rows@.take(
                    idx as int,
                ).filter(key_pred(groups@[g].0@, tr)),
            forall|g: int| 0 <= g < groups@.len() ==> (#[trigger] groups@[g]).1@.len() > 0,
            forall|i: int| 0 <= i < idx ==> key_covered(groups@, #[trigger] rows@[i], tr),
            forall|g: int, j: int|
                0 <= g < groups@.len() && 0 <= j < groups@[g].1@.len() ==> (
                #[trigger] groups@[g].1@[j]).wf(),
        decreases rows@.len() - idx,
    {
        let ghost prefix = rows@.take(idx as int);
        let ghost groups_before = groups@;
        let t = &rows[idx];
        let d = match parse_date(t.date.as_str()) {
            Option::Some(d) => d,
            Option::None => {
                return Result::Err(PipelineError::DateParseFailure { date: t.date.clone() });
            },
        };
        let key = bucket_key(&d, tr);
        proof {
            assert(txn_key(rows@[idx as int], tr) == key@);
        }
        let mut found: Option<usize> = None;
        let mut g: usize = 0;
        loop
            invariant_except_break
                found is None,
                g <= groups@.len(),
                forall|k: int| 0 <= k < g ==> (#[trigger] groups@[k]).0@ != key@,
            ensures
                match found {
                    Option::Some(j) => j < groups@.len() && groups@[j as int].0@ == key@,
                    Option::None => forall|k: int|
                        0 <= k < groups@.len() ==> (#[trigger] groups@[k]).0@ != key@,
                },
            decreases groups@.len() - g,
        {
            if g >= groups.len() {
                break ;
            }
            if groups[g].0 == key {
                found = Some(g);
                break ;
            }
            g = g + 1;
        }
        proof {
            assert(rows@.take(idx + 1) =~= prefix.push(rows@[idx as int]));
        }
        match found {
            Option::Some(j) => {
                proof {
                    assert(groups@[j as int].0@ == key@);
                }
                groups[j].1.push(t.duplicate());
                proof {
                    assert forall|gi: int| 0 <= gi < groups@.len() implies (
                    #[trigger] groups@[gi]).1@ == rows@.take(idx + 1).filter(
                        key_pred(groups@[gi].0@, tr),
                    ) by {
                        prefix.lemma_filter_push(
                            rows@[idx as int],
                            key_pred(groups_before[gi].0@, tr),
                        );
                        assert(groups@[gi].0@ == groups_before[gi].0@);
                        if gi == j {
                            assert(key_pred(groups_before[gi].0@, tr)(rows@[idx as int]));
                            assert(groups@[gi].1@ == groups_before[gi].1@.push(
                                rows@[idx as int],
                            ));
                        } else {
                            assert(groups_before[gi].0@ != key@);
                            assert(!key_pred(groups_before[gi].0@, tr)(rows@[idx as int]));
                            assert(groups@[gi].1@ == groups_before[gi].1@);
                        }
                    }
                    assert forall|i: int| 0 <= i < idx + 1 implies key_covered(
                        groups@,
                        #[trigger] rows@[i],
                        tr,
                    ) by {
                        if i < idx {
                            assert(key_covered(groups_before, rows@[i], tr));
                            let gw = choose|gw: int|
                                0 <= gw < groups_before.len() && (
                                #[trigger] groups_before[gw]).0@ == txn_key(rows@[i], tr);
                            assert(groups@[gw].0@ == groups_before[gw].0@);
                        } else {
                            assert(groups@[j as int].0@ == txn_key(rows@[idx as int], tr));
                        }
                    }
                }
            },
            Option::None => {
                let mut v: Vec<Transaction> = Vec::new();
                v.push(t.duplicate());
                groups.push((key, v));
                proof {
                    let n = groups@.len() - 1;
                    assert(groups@[n].0@ == key@);
                    assert forall|gi: int| 0 <= gi < groups@.len() implies (
                    #[trigger] groups@[gi]).1@ == rows@.take(idx + 1).filter(
                        key_pred(groups@[gi].0@, tr),
                    ) by {
                        prefix.lemma_filter_push(rows@[idx as int], key_pred(groups@[gi].0@, tr));
                        if gi < n {
                            assert(groups@[gi] == groups_before[gi]);
                            assert(groups@[gi].0@ != key@);
                            assert(!key_pred(groups@[gi].0@, tr)(rows@[idx as int]));
                        } else {
                            assert(key_pred(key@, tr)(rows@[idx as int]));
                            assert forall|k: int| 0 <= k < prefix.len() implies !key_pred(
                                key@,
                                tr,
                            )(prefix[k]) by {
                                assert(prefix[k] == rows@[k]);
                                assert(key_covered(groups_before, rows@[k], tr));
                                let gw = choose|gw: int|
                                    0 <= gw < groups_before.len() && (
                                    #[trigger] groups_before[gw]).0@ == txn_key(rows@[k], tr);
                                assert(groups_before[gw].0@ != key@);
                            }
                            prefix.lemma_all_neg_filter_empty(key_pred(key@, tr));
                            assert(groups@[gi].1@ =~= Seq::<Transaction>::empty().push(
                                rows@[idx as int],
                            ));
                        }
                    }
                    assert forall|i: int| 0 <= i < idx + 1 implies key_covered(
                        groups@,
                        #[trigger] rows@[i],
                        tr,
                    ) by {
                        if i < idx {
                            assert(key_covered(groups_before, rows@[i], tr));
                            let gw = choose|gw: int|
                                0 <= gw < groups_before.len() && (
                                #[trigger] groups_before[gw]).0@ == txn_key(rows@[i], tr);
                            assert(groups@[gw].0@ == groups_before[gw].0@);
                        } else {
                            assert(groups@[n].0@ == txn_key(rows@[idx as int], tr));
                        }
                    }
                }
            },
        }
        idx = idx + 1;
    }
    proof {
        assert(rows@.take(rows@.len() as int) =~= rows@);
    }
    Result::Ok(groups)
}

/// The sum of all transaction amounts, in input order.
pub open spec fn sum_amounts(ts: Seq<Transaction>) -> int
    decreases ts.len(),
{
    if ts.len() == 0 {
        0
    } else {
        sum_amounts(ts.drop_last()) + ts.last().amount
    }
}

/// The sum of the amounts of the transactions in category `c`.
pub open spec fn cat_sum(ts: Seq<Transaction>, c: Seq<char>) -> int
    decreases ts.len(),
{
    if ts.len() == 0 {
        0
    } else {
        cat_sum(ts.drop_last(), c) + if ts.last().category@ == c {
            ts.last().amount as int
        } else {
            0
        }
    }
}

/// The absolute value of `v`.
pub open spec fn abs_of(v: int) -> int {
    if v < 0 {
        -v
    } else {
        v
    }
}

/// The sum of a breakdown's values.
pub open spec fn sum_values(b: Seq<(String, i128)>) -> int
    decreases b.len(),
{
    if b.len() == 0 {
        0
    } else {
        sum_values(b.drop_last()) + b.last().1
    }
}

/// The sum of the absolute values of a breakdown's values.
pub open spec fn abs_sum_values(b: Seq<(String, i128)>) -> int
    decreases b.len(),
{
    if b.len() == 0 {
        0
    } else {
        abs_sum_values(b.drop_last()) + abs_of(b.last().1 as int)
    }
}

/// The sum of a breakdown's strictly positive values.
pub open spec fn pos_sum(b: Seq<(String, i128)>) -> int
    decreases b.len(),
{
    if b.len() == 0 {
        0
    } else {
        pos_sum(b.drop_last()) + if b.last().1 > 0 {
            b.last().1 as int
        } else {
            0
        }
    }
}

/// The sum of a breakdown's non-positive values.
pub open spec fn nonpos_sum(b: Seq<(String, i128)>) -> int
    decreases b.len(),
{
    if b.len() == 0 {
        0
    } else {
        nonpos_sum(b.drop_last()) + if b.last().1 <= 0 {
            b.last().1 as int
        } else {
            0
        }
    }
}

/// A sequence without category `c` contributes nothing to its sum.
proof fn lemma_cat_sum_absent(ts: Seq<Transaction>, c: Seq<char>)
    requires
        forall|k: int| 0 <= k < ts.len() ==> (#[trigger] ts[k]).category@ != c,
    ensures
        cat_sum(ts, c) == 0,
    decreases ts.len(),
{
    if ts.len() > 0 {
        assert(forall|k: int|
            0 <= k < ts.drop_last().len() ==> #[trigger] ts.drop_last()[k] == ts[k]);
        lemma_cat_sum_absent(ts.drop_last(), c);
    }
}

/// Replacing one entry shifts the value sums by the difference.
proof fn lemma_sums_update(b: Seq<(String, i128)>, j: int, p: (String, i128))
    requires
        0 <= j < b.len(),
    ensures
        sum_values(b.update(j, p)) == sum_values(b) - b[j].1 + p.1,
        abs_sum_values(b.update(j, p)) == abs_sum_values(b) - abs_of(b[j].1 as int) + abs_of(
            p.1 as int,
        ),
    decreases b.len(),
{
    let bu = b.update(j, p);
    if j == b.len() - 1 {
        assert(bu.drop_last() =~= b.drop_last());
        assert(bu.last() == p);
    } else {
        assert(bu.drop_last() =~= b.drop_last().update(j, p));
        assert(bu.last() == b.last());
        lemma_sums_update(b.drop_last(), j, p);
    }
}

/// Every absolute-value sum is non-negative.
proof fn lemma_abs_sum_nonneg(b: Seq<(String, i128)>)
    ensures
        abs_sum_values(b) >= 0,
    decreases b.len(),
{
    if b.len() > 0 {
        lemma_abs_sum_nonneg(b.drop_last());
    }
}

/// One entry's magnitude is at most the whole absolute-value sum.
proof fn lemma_abs_entry_le(b: Seq<(String, i128)>, j: int)
    requires
        0 <= j < b.len(),
    ensures
        abs_of(b[j].1 as int) <= abs_sum_values(b),
    decreases b.len(),
{
    if j == b.len() - 1 {
        lemma_abs_sum_nonneg(b.drop_last());
    } else {
        assert(b.drop_last()[j] == b[j]);
        lemma_abs_entry_le(b.drop_last(), j);
    }
}

/// A prefix's absolute-value sum is at most the whole one.
proof fn lemma_abs_take_le(b: Seq<(String, i128)>, j: int)
    requires
        0 <= j <= b.len(),
    ensures
        abs_sum_values(b.take(j)) <= abs_sum_values(b),
    decreases b.len() - j,
{
    if j == b.len() {
        assert(b.take(j) =~= b);
    } else {
        lemma_abs_take_le(b, j + 1);
        assert(b.take(j + 1).drop_last() =~= b.take(j));
        assert(b.take(j + 1).last() == b[j]);
    }
}

/// One aggregated bucket.
pub struct Summary {
    pub date: String,
    pub income: i128,
    pub expenses: i128,
    pub total: i128,
    pub category_breakdown: Vec<(String, i128)>,
}

/// Whether some transaction of `ts` has category `c`.
pub open spec fn cat_present(ts: Seq<Transaction>, c: Seq<char>) -> bool {
    exists|k: int| 0 <= k < ts.len() && (#[trigger] ts[k]).category@ == c
}

/// Whether the breakdown has an entry for category `c`.
pub open spec fn has_entry(b: Seq<(String, i128)>, c: Seq<char>) -> bool {
    exists|j: int| 0 <= j < b.len() && (#[trigger] b[j]).0@ == c
}

/// An exact category breakdown of `ts`: one entry per present category,
/// holding that category's summed amount.
pub open spec fn breakdown_matches(b: Seq<(String, i128)>, ts: Seq<Transaction>) -> bool {
    &&& forall|j1: int, j2: int|
        0 <= j1 < j2 < b.len() ==> (#[trigger] b[j1]).0@ != (#[trigger] b[j2]).0@
    &&& forall|j: int| 0 <= j < b.len() ==> (#[trigger] b[j]).1 == cat_sum(ts, b[j].0@)
    &&& forall|j: int| 0 <= j < b.len() ==> cat_present(ts, (#[trigger] b[j]).0@)
    &&& forall|k: int| 0 <= k < ts.len() ==> has_entry(b, (#[trigger] ts[k]).category@)
}

/// The summary of the bucket `key` over its transaction group `ts`.
pub open spec fn summary_matches(s: Summary, key: Seq<char>, ts: Seq<Transaction>) -> bool {
    &&& s.date@ == key
    &&& s.total == sum_amounts(ts)
    &&& breakdown_matches(s.category_breakdown@, ts)
    &&& s.income == pos_sum(s.category_breakdown@)
    &&& s.expenses == nonpos_sum(s.category_breakdown@)
}

/// The arithmetic consistency of a summary: the breakdown values sum to
/// the total, income and expenses split it by per-category sign, and
/// the breakdown's keys are distinct.
pub open spec fn summary_wf(s: Summary) -> bool {
    &&& sum_values(s.category_breakdown@) == s.total
    &&& s.income + s.expenses == s.total
    &&& s.income >= 0
    &&& s.expenses <= 0
    &&& forall|j1: int, j2: int|
        0 <= j1 < j2 < s.category_breakdown@.len() ==> (#[trigger] s.category_breakdown@[j1]).0@
            != (#[trigger] s.category_breakdown@[j2]).0@
}

/// Folds one bucket's transaction group into its summary: the total in
/// input order, one breakdown entry per category in first-appearance
/// order, and the income/expense split over per-category sums.
pub fn summarize_group(date: String, ts: &Vec<Transaction>) -> (s: Summary)
    ensures
        summary_matches(s, date@, ts@),
        summary_wf(s),
        s.date == date,
{
    let mut breakdown: Vec<(String, i128)> = Vec::new();
    let mut total: i128 = 0;
    let mut i: usize = 0;
    while i < ts.len()
        invariant
            i <= ts@.len(),
            total == sum_amounts(ts@.take(i as int)),
            -(i as int) * 0x8000_0000_0000_0000 <= total <= (i as int) * 0x8000_0000_0000_0000,
            sum_values(breakdown@) == total,
            abs_sum_values(breakdown@) <= (i as int) * 0x8000_0000_0000_0000,
            forall|j1: int, j2: int|
                0 <= j1 < j2 < breakdown@.len() ==> (#[trigger] breakdown@[j1]).0@ != (
                #[trigger] breakdown@[j2]).0@,
            forall|j: int|
                0 <= j < breakdown@.len() ==> (#[trigger] breakdown@[j]).1 == cat_sum(
                    ts@.take(i as int),
                    breakdown@[j].0@,
                ),
            forall|j: int|
                0 <= j < breakdown@.len() ==> cat_present(
                    ts@.take(i as int),
                    (#[trigger] breakdown@[j]).0@,
                ),
            forall|k: int| 0 <= k < i ==> has_entry(breakdown@, (#[trigger] ts@[k]).category@),
        decreases ts@.len() - i,
    {
        let ghost prefix = ts@.take(i as int);
        let ghost b_before = breakdown@;
        let t = &ts[i];
        let a: i128 = t.amount as i128;
        let mut found: Option<usize> = None;
        let mut g: usize = 0;
        loop
            invariant_except_break
                found is None,
                g <= breakdown@.len(),
                forall|k: int| 0 <= k < g ==> (#[trigger] breakdown@[k]).0@ != t.category@,
            ensures
                match found {
                    Option::Some(j) => j < breakdown@.len() && breakdown@[j as int].0@
                        == t.category@,
                    Option::None => forall|k: int|
                        0 <= k < breakdown@.len() ==> (#[trigger] breakdown@[k]).0@
                            != t.category@,
                },
            decreases breakdown@.len() - g,
        {
            if g >= breakdown.len() {
                break ;
            }
            if breakdown[g].0 == t.category {
                found = Some(g);
                break ;
            }
            g = g + 1;
        }
        proof {
            assert(ts@.take(i + 1) =~= prefix.push(ts@[i as int]));
            assert(ts@.take(i + 1).drop_last() =~= prefix);
        }
        match found {
            Option::Some(j) => {
                proof {
                    lemma_abs_entry_le(b_before, j as int);
                    lemma_abs_sum_nonneg(b_before);
                }
                let v = breakdown[j].1;
                breakdown[j].1 = v + a;
                proof {
                    lemma_sums_update(b_before, j as int, (b_before[j as int].0, (v + a) as i128));
                    assert(breakdown@ =~= b_before.update(
                        j as int,
                        (b_before[j as int].0, (v + a) as i128),
                    ));
                    assert forall|jj: int| 0 <= jj < breakdown@.len() implies (
                    #[trigger] breakdown@[jj]).1 == cat_sum(ts@.take(i + 1), breakdown@[jj].0@) by {
                        if jj == j {
                            assert(breakdown@[jj].0@ == t.category@);
                        } else {
                            assert(breakdown@[jj] == b_before[jj]);
                            assert(b_before[jj].0@ != t.category@);
                        }
                    }
                    assert forall|k: int| 0 <= k < i + 1 implies has_entry(
                        breakdown@,
                        (#[trigger] ts@[k]).category@,
                    ) by {
                        if k < i {
                            assert(has_entry(b_before, ts@[k].category@));
                            let jw = choose|jw: int|
                                0 <= jw < b_before.len() && (#[trigger] b_before[jw]).0@
                                    == ts@[k].category@;
                            assert(breakdown@[jw].0@ == b_before[jw].0@);
                        } else {
                            assert(breakdown@[j as int].0@ == ts@[i as int].category@);
                        }
                    }
                    assert forall|j2: int| 0 <= j2 < breakdown@.len() implies cat_present(
                        ts@.take(i + 1),
                        (#[trigger] breakdown@[j2]).0@,
                    ) by {
                        assert(cat_present(prefix, b_before[j2].0@));
                        let kw = choose|kw: int|
                            0 <= kw < prefix.len() && (#[trigger] prefix[kw]).category@
                                == b_before[j2].0@;
                        assert(ts@.take(i + 1)[kw] == prefix[kw]);
                    }
                }
            },
            Option::None => {
                proof {
                    assert forall|k: int| 0 <= k < prefix.len() implies (
                    #[trigger] prefix[k]).category@ != t.category@ by {
                        assert(has_entry(b_before, ts@[k].category@));
                        let jw = choose|jw: int|
                            0 <= jw < b_before.len() && (#[trigger] b_before[jw]).0@
                                == ts@[k].category@;
                        assert(b_before[jw].0@ != t.category@);
                    }
                    lemma_cat_sum_absent(prefix, t.category@);
                }
                breakdown.push((t.category.clone(), a));
                proof {
                    assert(breakdown@.drop_last() =~= b_before);
                    let n = breakdown@.len() - 1;
                    assert forall|jj: int| 0 <= jj < breakdown@.len() implies (
                    #[trigger] breakdown@[jj]).1 == cat_sum(ts@.take(i + 1), breakdown@[jj].0@) by {
                        if jj < n {
                            assert(breakdown@[jj] == b_before[jj]);
                            assert(b_before[jj].0@ != t.category@);
                        } else {
                            assert(breakdown@[n].0@ == t.category@);
                        }
                    }
                    assert forall|k: int| 0 <= k < i + 1 implies has_entry(
                        breakdown@,
                        (#[trigger] ts@[k]).category@,
                    ) by {
                        if k < i {
                            assert(has_entry(b_before, ts@[k].category@));
                            let jw = choose|jw: int|
                                0 <= jw < b_before.len() && (#[trigger] b_before[jw]).0@
                                    == ts@[k].category@;
                            assert(breakdown@[jw].0@ == b_before[jw].0@);
                        } else {
                            assert(breakdown@[n].0@ == ts@[i as int].category@);
                        }
                    }
                    assert forall|j2: int| 0 <= j2 < breakdown@.len() implies cat_present(
                        ts@.take(i + 1),
                        (#[trigger] breakdown@[j2]).0@,
                    ) by {
                        if j2 < n {
                            assert(cat_present(prefix, b_before[j2].0@));
                            let kw = choose|kw: int|
                                0 <= kw < prefix.len() && (#[trigger] prefix[kw]).category@
                                    == b_before[j2].0@;
                            assert(ts@.take(i + 1)[kw] == prefix[kw]);
                        } else {
                            assert(ts@.take(i + 1)[i as int].category@ == breakdown@[j2].0@);
                        }
                    }
                }
            },
        }
        total = total + a;
        i = i + 1;
    }
    proof {
        assert(ts@.take(ts@.len() as int) =~= ts@);
    }
    let ghost b_final = breakdown@;
    let ghost n = ts@.len() as int;
    let mut income: i128 = 0;
    let mut expenses: i128 = 0;
    let mut j: usize = 0;
    while j < breakdown.len()
        invariant
            j <= breakdown@.len(),
            breakdown@ == b_final,
            income == pos_sum(breakdown@.take(j as int)),
            expenses == nonpos_sum(breakdown@.take(j as int)),
            income >= 0,
            expenses <= 0,
            income + expenses == sum_values(breakdown@.take(j as int)),
            income - expenses <= abs_sum_values(breakdown@.take(j as int)),
            abs_sum_values(breakdown@) <= n * 0x8000_0000_0000_0000,
            n <= usize::MAX,
        decreases breakdown@.len() - j,
    {
        proof {
            lemma_abs_take_le(breakdown@, j + 1);
            assert(breakdown@.take(j + 1).drop_last() =~= breakdown@.take(j as int));
            assert(breakdown@.take(j + 1).last() == breakdown@[j as int]);
        }
        let v = breakdown[j].1;
        if v > 0 {
            income = income + v;
        } else {
            expenses = expenses + v;
        }
        j = j + 1;
    }
    proof {
        assert(breakdown@.take(breakdown@.len() as int) =~= breakdown@);
    }
    Summary { date, income, expenses, total, category_breakdown: breakdown }
}

/// Whether `out` holds a summary of the group `(key, ts)`.
pub open spec fn group_summarized(out: Seq<Summary>, key: Seq<char>, ts: Seq<Transaction>) -> bool {
    exists|k: int| 0 <= k < out.len() && summary_matches(#[trigger] out[k], key, ts)
}

/// Whether `s` summarizes one of the first `g` groups.
pub open spec fn from_some_group(
    s: Summary,
    grouped: Seq<(String, Vec<Transaction>)>,
    g: int,
) -> bool {
    exists|gi: int|
        0 <= gi < g && summary_matches(s, (#[trigger] grouped[gi]).0@, grouped[gi].1@)
}

/// What aggregation produces: one summary per group, strictly sorted
/// by bucket key, each arithmetically consistent.
pub open spec fn summaries_ok(r: Seq<Summary>, grouped: Seq<(String, Vec<Transaction>)>) -> bool {
    &&& r.len() == grouped.len()
    &&& forall|i1: int, i2: int|
        0 <= i1 < i2 < r.len() ==> lex_lt((#[trigger] r[i1]).date@, (#[trigger] r[i2]).date@)
    &&& forall|i: int| 0 <= i < r.len() ==> summary_wf(#[trigger] r[i])
    &&& forall|g: int|
        0 <= g < grouped.len() ==> group_summarized(r, (#[trigger] grouped[g]).0@, grouped[g].1@)
    &&& forall|i: int| 0 <= i < r.len() ==> from_some_group(#[trigger] r[i], grouped, grouped.len() as int)
}

/// Reduces every bucket group to its summary and orders the summaries
/// by bucket key, lexicographically ascending. With distinct group keys
/// the result is strictly sorted and carries exactly one summary per
/// group.
pub fn calculate_summaries(date_grouped_transactions: Vec<(String, Vec<Transaction>)>) -> (r: Vec<
    Summary,
>)
    requires
        forall|g1: int, g2: int|
            0 <= g1 < g2 < date_grouped_transactions@.len() ==> (
            #[trigger] date_grouped_transactions@[g1]).0@ != (
            #[trigger] date_grouped_transactions@[g2]).0@,
    ensures
        summaries_ok(r@, date_grouped_transactions@),
{
    let grouped = date_grouped_transactions;
    let mut out: Vec<Summary> = Vec::new();
    let mut g: usize = 0;
    while g < grouped.len()
        invariant
            g <= grouped@.len(),
            out@.len() == g,
            forall|g1: int, g2: int|
                0 <= g1 < g2 < grouped@.len() ==> (#[trigger] grouped@[g1]).0@ != (
                #[trigger] grouped@[g2]).0@,
            forall|k1: int, k2: int|
                0 <= k1 < k2 < out@.len() ==> lex_le(
                    (#[trigger] out@[k1]).date@,
                    (#[trigger] out@[k2]).date@,
                ),
            forall|k1: int, k2: int|
                0 <= k1 < k2 < out@.len() ==> (#[trigger] out@[k1]).date@ != (
                #[trigger] out@[k2]).date@,
            forall|k: int| 0 <= k < out@.len() ==> summary_wf(#[trigger] out@[k]),
            forall|k: int| 0 <= k < out@.len() ==> from_some_group(#[trigger] out@[k], grouped@, g as int),
            forall|gi: int|
                0 <= gi < g ==> group_summarized(
                    out@,
                    (#[trigger] grouped@[gi]).0@,
                    grouped@[gi].1@,
                ),
        decreases grouped@.len() - g,
    {
        let ghost out_before = out@;
        let s = summarize_group(grouped[g].0.clone(), &grouped[g].1);
        proof {
            assert forall|k: int| 0 <= k < out_before.len() implies (
            #[trigger] out_before[k]).date@ != s.date@ by {
                assert(from_some_group(out_before[k], grouped@, g as int));
                let gw = choose|gw: int|
                    0 <= gw < g && summary_matches(
                        out_before[k],
                        (#[trigger] grouped@[gw]).0@,
                        grouped@[gw].1@,
                    );
                assert(grouped@[gw].0@ != grouped@[g as int].0@);
            }
        }
        let mut p: usize = 0;
        loop
            invariant_except_break
                p <= out@.len(),
                out@ == out_before,
                forall|k: int| 0 <= k < p ==> lex_le((#[trigger] out@[k]).date@, s.date@),
            ensures
                out@ == out_before,
                p <= out@.len(),
                forall|k: int| 0 <= k < p ==> lex_le((#[trigger] out@[k]).date@, s.date@),
                p < out@.len() ==> !lex_le(out@[p as int].date@, s.date@),
            decreases out@.len() - p,
        {
            if p >= out.len() {
                break ;
            }
            if !str_le(out[p].date.as_str(), s.date.as_str()) {
                break ;
            }
            p = p + 1;
        }
        proof {
            if p < out@.len() {
                lemma_lex_total(s.date@, out@[p as int].date@);
            }
        }
        let ghost s_ghost = s;
        out.insert(p, s);
        proof {
            out_before.insert_ensures(p as int, s_ghost);
            assert(out@ == out_before.insert(p as int, s_ghost));
            assert forall|k1: int, k2: int| 0 <= k1 < k2 < out@.len() implies lex_le(
                (#[trigger] out@[k1]).date@,
                (#[trigger] out@[k2]).date@,
            ) && out@[k1].date@ != out@[k2].date@ by {
                let d1 = out@[k1].date@;
                let d2 = out@[k2].date@;
                if k1 == p {
                    assert(d1 == s_ghost.date@);
                    assert(out@[k2] == out_before[k2 - 1]);
                    if k2 - 1 == p {
                        assert(lex_le(d1, d2));
                    } else {
                        assert(lex_le(s_ghost.date@, out_before[p as int].date@));
                        assert(lex_le(out_before[p as int].date@, out_before[k2 - 1].date@));
                        lemma_lex_trans(s_ghost.date@, out_before[p as int].date@, d2);
                    }
                } else if k2 == p {
                    assert(out@[k1] == out_before[k1]);
                    assert(lex_le(d1, s_ghost.date@));
                } else if k1 < p && k2 > p {
                    assert(out@[k1] == out_before[k1]);
                    assert(out@[k2] == out_before[k2 - 1]);
                    if k2 - 1 == k1 {
                        assert(lex_le(d1, s_ghost.date@));
                        assert(false);
                    } else {
                        assert(lex_le(d1, d2));
                    }
                } else if k2 < p {
                    assert(out@[k1] == out_before[k1]);
                    assert(out@[k2] == out_before[k2]);
                } else {
                    assert(out@[k1] == out_before[k1 - 1]);
                    assert(out@[k2] == out_before[k2 - 1]);
                }
            }
            assert forall|k: int| 0 <= k < out@.len() implies from_some_group(
                #[trigger] out@[k],
                grouped@,
                g + 1,
            ) by {
                if k == p {
                    assert(summary_matches(
                        out@[k],
                        grouped@[g as int].0@,
                        grouped@[g as int].1@,
                    ));
                } else {
                    let ko = if k < p {
                        k
                    } else {
                        k - 1
                    };
                    assert(out@[k] == out_before[ko]);
                    assert(from_some_group(out_before[ko], grouped@, g as int));
                    let gw = choose|gw: int|
                        0 <= gw < g && summary_matches(
                            out_before[ko],
                            (#[trigger] grouped@[gw]).0@,
                            grouped@[gw].1@,
                        );
                    assert(summary_matches(out@[k], grouped@[gw].0@, grouped@[gw].1@));
                }
            }
            assert forall|gi: int| 0 <= gi < g + 1 implies group_summarized(
                out@,
                (#[trigger] grouped@[gi]).0@,
                grouped@[gi].1@,
            ) by {
                if gi == g {
                    assert(summary_matches(out@[p as int], grouped@[gi].0@, grouped@[gi].1@));
                } else {
                    assert(group_summarized(out_before, grouped@[gi].0@, grouped@[gi].1@));
                    let kw = choose|kw: int|
                        0 <= kw < out_before.len() && summary_matches(
                            #[trigger] out_before[kw],
                            grouped@[gi].0@,
                            grouped@[gi].1@,
                        );
                    let kn = if kw < p {
                        kw
                    } else {
                        kw + 1
                    };
                    assert(out@[kn] == out_before[kw]);
                    assert(summary_matches(out@[kn], grouped@[gi].0@, grouped@[gi].1@));
                }
            }
        }
        g = g + 1;
    }
    proof {
        assert forall|i1: int, i2: int| 0 <= i1 < i2 < out@.len() implies lex_lt(
            (#[trigger] out@[i1]).date@,
            (#[trigger] out@[i2]).date@,
        ) by {
            assert(lex_le(out@[i1].date@, out@[i2].date@));
            assert(out@[i1].date@ != out@[i2].date@);
        }
    }
    out
}

} // verus!
