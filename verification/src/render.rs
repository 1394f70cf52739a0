//! Rendering of summaries as a rectangular table.
//!
//! The header is the sorted, deduplicated union of all summaries'
//! category names, prefixed with a fixed `Date` column. Every data row
//! carries the bucket key and one amount per header column, `0` where
//! the bucket has no transactions of that category.
use vstd::prelude::*;
use crate::summary::Summary;
use crate::text::{
    amount_str, format_amount, str_eq, str_le, lex_le, lex_lt, lemma_lex_total, lemma_lex_trans,
};

verus! {

/// A rectangular table: one header row and the data rows.
pub struct Table {
    pub header: Vec<String>,
    pub rows: Vec<Vec<String>>,
}

/// Whether the keys of a breakdown are pairwise distinct.
pub open spec fn keys_unique(b: Seq<(String, i128)>) -> bool {
    forall|j1: int, j2: int|
        0 <= j1 < j2 < b.len() ==> (#[trigger] b[j1]).0@ != (#[trigger] b[j2]).0@
}

/// The amount a breakdown holds for category `c`, or 0.
pub open spec fn lookup(b: Seq<(String, i128)>, c: Seq<char>) -> int
    decreases b.len(),
{
    if b.len() == 0 {
        0
    } else if b.last().0@ == c {
        b.last().1 as int
    } else {
        lookup(b.drop_last(), c)
    }
}

/// A breakdown without an entry for `c` holds 0 for it.
proof fn lemma_lookup_absent(b: Seq<(String, i128)>, c: Seq<char>)
    requires
        forall|j: int| 0 <= j < b.len() ==> (#[trigger] b[j]).0@ != c,
    ensures
        lookup(b, c) == 0,
    decreases b.len(),
{
    if b.len() > 0 {
        assert(forall|j: int|
            0 <= j < b.drop_last().len() ==> #[trigger] b.drop_last()[j] == b[j]);
        lemma_lookup_absent(b.drop_last(), c);
    }
}

/// With distinct keys, the lookup yields the matching entry's value.
proof fn lemma_lookup_found(b: Seq<(String, i128)>, j: int, c: Seq<char>)
    requires
        keys_unique(b),
        0 <= j < b.len(),
        b[j].0@ == c,
    ensures
        lookup(b, c) == b[j].1,
    decreases b.len(),
{
    if j == b.len() - 1 {
    } else {
        assert(b[b.len() - 1].0@ != c);
        assert(forall|k: int| 0 <= k < b.drop_last().len() ==> #[trigger] b.drop_last()[k] == b[k]);
        lemma_lookup_found(b.drop_last(), j, c);
    }
}

/// Whether category `c` occurs in some summary's breakdown.
pub open spec fn cat_in_summaries(ss: Seq<Summary>, c: Seq<char>) -> bool {
    exists|s: int, j: int|
        0 <= s < ss.len() && 0 <= j < ss[s].category_breakdown@.len() && (#[trigger] ss[s].category_breakdown@[j]).0@ == c
}

/// Whether category `c` occurs in a breakdown entry before position
/// `(s, j)` in the summaries, scanned summary by summary.
pub open spec fn cat_in_prefix(ss: Seq<Summary>, s: int, j: int, c: Seq<char>) -> bool {
    exists|si: int, jj: int|
        0 <= si < ss.len() && 0 <= jj < ss[si].category_breakdown@.len() && (si < s || (si == s
            && jj < j)) && (#[trigger] ss[si].category_breakdown@[jj]).0@ == c
}

/// Whether the header holds `c` past its leading column.
pub open spec fn header_has(h: Seq<String>, c: Seq<char>) -> bool {
    exists|q: int| 1 <= q < h.len() && (#[trigger] h[q])@ == c
}

/// Whether the header holds every category name of the summaries,
/// past its leading column.
pub open spec fn header_covers(h: Seq<String>, ss: Seq<Summary>) -> bool {
    forall|s: int, j: int|
        0 <= s < ss.len() && 0 <= j < ss[s].category_breakdown@.len() ==> header_has(
            h,
            (#[trigger] ss[s].category_breakdown@[j]).0@,
        )
}

/// Whether the name list holds `c`.
pub open spec fn names_have(h: Seq<String>, c: Seq<char>) -> bool {
    exists|i: int| 0 <= i < h.len() && (#[trigger] h[i])@ == c
}

/// Collects the sorted, deduplicated union of all category names.
fn collect_categories(summaries: &Vec<Summary>) -> (cats: Vec<String>)
    ensures
        forall|k1: int, k2: int|
            0 <= k1 < k2 < cats@.len() ==> lex_lt((#[trigger] cats@[k1])@, (#[trigger] cats@[k2])@),
        forall|k: int| 0 <= k < cats@.len() ==> cat_in_summaries(summaries@, (#[trigger] cats@[k])@),
        forall|s: int, j: int|
            0 <= s < summaries@.len() && 0 <= j < summaries@[s].category_breakdown@.len()
                ==> names_have(cats@, (#[trigger] summaries@[s].category_breakdown@[j]).0@),
{
    let ss = summaries;
    let mut cats: Vec<String> = Vec::new();
    let mut s: usize = 0;
    while s < ss.len()
        invariant
            s <= ss@.len(),
            forall|k1: int, k2: int|
                0 <= k1 < k2 < cats@.len() ==> lex_lt(
                    (#[trigger] cats@[k1])@,
                    (#[trigger] cats@[k2])@,
                ),
            forall|k: int| 0 <= k < cats@.len() ==> cat_in_prefix(ss@, s as int, 0, (#[trigger] cats@[k])@),
            forall|si: int, jj: int|
                0 <= si < s && 0 <= jj < ss@[si].category_breakdown@.len() ==> names_have(
                    cats@,
                    (#[trigger] ss@[si].category_breakdown@[jj]).0@,
                ),
        decreases ss@.len() - s,
    {
        let blen = ss[s].category_breakdown.len();
        let mut j: usize = 0;
        while j < blen
            invariant
                s < ss@.len(),
                j <= blen,
                blen == ss@[s as int].category_breakdown@.len(),
                forall|k1: int, k2: int|
                    0 <= k1 < k2 < cats@.len() ==> lex_lt(
                        (#[trigger] cats@[k1])@,
                        (#[trigger] cats@[k2])@,
                    ),
                forall|k: int|
                    0 <= k < cats@.len() ==> cat_in_prefix(
                        ss@,
                        s as int,
                        j as int,
                        (#[trigger] cats@[k])@,
                    ),
                forall|si: int, jj: int|
                    0 <= si < s && 0 <= jj < ss@[si].category_breakdown@.len() ==> names_have(
                        cats@,
                        (#[trigger] ss@[si].category_breakdown@[jj]).0@,
                    ),
                forall|jj: int|
                    0 <= jj < j ==> names_have(
                        cats@,
                        (#[trigger] ss@[s as int].category_breakdown@[jj]).0@,
                    ),
            decreases blen - j,
        {
            let ghost cats_before = cats@;
            let c: &String = &ss[s].category_breakdown[j].0;
            let mut seen = false;
            let mut k: usize = 0;
            loop
                invariant_except_break
                    !seen,
                    k <= cats@.len(),
                    cats@ == cats_before,
                    forall|q: int| 0 <= q < k ==> (#[trigger] cats@[q])@ != c@,
                ensures
                    cats@ == cats_before,
                    seen ==> names_have(cats@, c@),
                    !seen ==> forall|q: int| 0 <= q < cats@.len() ==> (#[trigger] cats@[q])@ != c@,
                decreases cats@.len() - k,
            {
                if k >= cats.len() {
                    break ;
                }
                if str_eq(cats[k].as_str(), c.as_str()) {
                    seen = true;
                    break ;
                }
                k = k + 1;
            }
            if !seen {
                let mut p: usize = 0;
                loop
                    invariant_except_break
                        p <= cats@.len(),
                        cats@ == cats_before,
                        forall|q: int| 0 <= q < p ==> lex_le((#[trigger] cats@[q])@, c@),
                    ensures
                        cats@ == cats_before,
                        p <= cats@.len(),
                        forall|q: int| 0 <= q < p ==> lex_le((#[trigger] cats@[q])@, c@),
                        p < cats@.len() ==> !lex_le(cats@[p as int]@, c@),
                    decreases cats@.len() - p,
                {
                    if p >= cats.len() {
                        break ;
                    }
                    if !str_le(cats[p].as_str(), c.as_str()) {
                        break ;
                    }
                    p = p + 1;
                }
                proof {
                    if p < cats@.len() {
                        lemma_lex_total(c@, cats@[p as int]@);
                    }
                }
                let cc = c.clone();
                let ghost cval = cc@;
                cats.insert(p, cc);
                proof {
                    cats_before.insert_ensures(p as int, cats@[p as int]);
                    assert forall|k1: int, k2: int| 0 <= k1 < k2 < cats@.len() implies lex_lt(
                        (#[trigger] cats@[k1])@,
                        (#[trigger] cats@[k2])@,
                    ) by {
                        let d1 = cats@[k1]@;
                        let d2 = cats@[k2]@;
                        if k1 == p {
                            assert(cats@[k2] == cats_before[k2 - 1]);
                            assert(lex_le(cval, cats_before[p as int]@));
                            if k2 - 1 > p {
                                assert(lex_le(cats_before[p as int]@, d2));
                                lemma_lex_trans(cval, cats_before[p as int]@, d2);
                            }
                            assert(lex_le(d1, d2) && d1 != d2);
                        } else if k2 == p {
                            assert(cats@[k1] == cats_before[k1]);
                            assert(lex_le(d1, cval));
                            assert(d1 != cval);
                        } else if k1 < p && k2 > p {
                            assert(cats@[k1] == cats_before[k1]);
                            assert(cats@[k2] == cats_before[k2 - 1]);
                            if k2 - 1 == k1 {
                                assert(lex_le(d1, cval));
                                assert(false);
                            }
                        } else if k2 < p {
                            assert(cats@[k1] == cats_before[k1]);
                            assert(cats@[k2] == cats_before[k2]);
                        } else {
                            assert(cats@[k1] == cats_before[k1 - 1]);
                            assert(cats@[k2] == cats_before[k2 - 1]);
                        }
                    }
                    assert forall|k2: int| 0 <= k2 < cats@.len() implies cat_in_prefix(
                        ss@,
                        s as int,
                        j + 1,
                        (#[trigger] cats@[k2])@,
                    ) by {
                        if k2 == p {
                            assert((#[trigger] ss@[s as int].category_breakdown@[j as int]).0@
                                == cval);
                        } else {
                            let ko = if k2 < p {
                                k2
                            } else {
                                k2 - 1
                            };
                            assert(cats@[k2] == cats_before[ko]);
                            assert(cat_in_prefix(ss@, s as int, j as int, cats_before[ko]@));
                            let (si, jj) = choose|si: int, jj: int|
                                0 <= si < ss@.len() && 0 <= jj
                                    < ss@[si].category_breakdown@.len() && (si < s || (si == s
                                    && jj < j)) && (#[trigger] ss@[si].category_breakdown@[jj]).0@
                                    == cats_before[ko]@;
                            assert((#[trigger] ss@[si].category_breakdown@[jj]).0@ == cats@[k2]@);
                        }
                    }
                    assert forall|si: int, jj: int|
                        0 <= si < s && 0 <= jj < ss@[si].category_breakdown@.len() implies names_have(
                        cats@,
                        (#[trigger] ss@[si].category_breakdown@[jj]).0@,
                    ) by {
                        let key = ss@[si].category_breakdown@[jj].0@;
                        assert(names_have(cats_before, key));
                        let kw = choose|kw: int|
                            0 <= kw < cats_before.len() && (#[trigger] cats_before[kw])@ == key;
                        let kn = if kw < p {
                            kw
                        } else {
                            kw + 1
                        };
                        assert(cats@[kn] == cats_before[kw]);
                    }
                    assert forall|jj: int| 0 <= jj < j + 1 implies names_have(
                        cats@,
                        (#[trigger] ss@[s as int].category_breakdown@[jj]).0@,
                    ) by {
                        let key = ss@[s as int].category_breakdown@[jj].0@;
                        if jj < j {
                            assert(names_have(cats_before, key));
                            let kw = choose|kw: int|
                                0 <= kw < cats_before.len() && (#[trigger] cats_before[kw])@
                                    == key;
                            let kn = if kw < p {
                                kw
                            } else {
                                kw + 1
                            };
                            assert(cats@[kn] == cats_before[kw]);
                        } else {
                            assert(cats@[p as int]@ == key);
                        }
                    }
                }
            } else {
                proof {
                    assert forall|k2: int| 0 <= k2 < cats@.len() implies cat_in_prefix(
                        ss@,
                        s as int,
                        j + 1,
                        (#[trigger] cats@[k2])@,
                    ) by {
                        assert(cat_in_prefix(ss@, s as int, j as int, cats@[k2]@));
                        let (si, jj) = choose|si: int, jj: int|
                            0 <= si < ss@.len() && 0 <= jj < ss@[si].category_breakdown@.len() && (
                            si < s || (si == s && jj < j)) && (
                            #[trigger] ss@[si].category_breakdown@[jj]).0@ == cats@[k2]@;
                        assert((#[trigger] ss@[si].category_breakdown@[jj]).0@ == cats@[k2]@);
                    }
                }
            }
            j = j + 1;
        }
        proof {
            assert forall|k: int| 0 <= k < cats@.len() implies cat_in_prefix(
                ss@,
                s + 1,
                0,
                (#[trigger] cats@[k])@,
            ) by {
                assert(cat_in_prefix(ss@, s as int, blen as int, cats@[k]@));
                let (si, jj) = choose|si: int, jj: int|
                    0 <= si < ss@.len() && 0 <= jj < ss@[si].category_breakdown@.len() && (si < s
                        || (si == s && jj < blen)) && (
                    #[trigger] ss@[si].category_breakdown@[jj]).0@ == cats@[k]@;
                assert((#[trigger] ss@[si].category_breakdown@[jj]).0@ == cats@[k]@);
            }
        }
        s = s + 1;
    }
    proof {
        assert forall|k: int| 0 <= k < cats@.len() implies cat_in_summaries(
            summaries@,
            (#[trigger] cats@[k])@,
        ) by {
            assert(cat_in_prefix(ss@, ss@.len() as int, 0, cats@[k]@));
            let (si, jj) = choose|si: int, jj: int|
                0 <= si < ss@.len() && 0 <= jj < ss@[si].category_breakdown@.len() && (si
                    < ss@.len() || (si == ss@.len() && jj < 0)) && (
                #[trigger] ss@[si].category_breakdown@[jj]).0@ == cats@[k]@;
            assert((#[trigger] ss@[si].category_breakdown@[jj]).0@ == cats@[k]@);
        }
    }
    cats
}

/// The amount a breakdown holds for category `c`, or 0.
fn lookup_amount(b: &Vec<(String, i128)>, c: &String) -> (v: i128)
    requires
        keys_unique(b@),
    ensures
        v == lookup(b@, c@),
{
    let mut j: usize = 0;
    loop
        invariant_except_break
            j <= b@.len(),
            keys_unique(b@),
            forall|q: int| 0 <= q < j ==> (#[trigger] b@[q]).0@ != c@,
        ensures
            lookup(b@, c@) == ({
                if j < b@.len() {
                    b@[j as int].1 as int
                } else {
                    0
                }
            }),
            j <= b@.len(),
        decreases b@.len() - j,
    {
        if j >= b.len() {
            proof {
                lemma_lookup_absent(b@, c@);
            }
            break ;
        }
        if str_eq(b[j].0.as_str(), c.as_str()) {
            proof {
                lemma_lookup_found(b@, j as int, c@);
            }
            break ;
        }
        j = j + 1;
    }
    if j < b.len() {
        b[j].1
    } else {
        0
    }
}

/// What rendering produces: the sorted deduplicated category header
/// prefixed with `Date`, and one rectangular row per summary, holding
/// the bucket key and each category's amount, `0` where absent.
pub open spec fn table_ok(header: Seq<String>, rows: Seq<Vec<String>>, ss: Seq<Summary>) -> bool {
    &&& header.len() >= 1
    &&& header[0]@ == ("Date")@
    &&& forall|i1: int, i2: int|
        1 <= i1 < i2 < header.len() ==> lex_lt((#[trigger] header[i1])@, (#[trigger] header[i2])@)
    &&& forall|i: int| 1 <= i < header.len() ==> cat_in_summaries(ss, (#[trigger] header[i])@)
    &&& header_covers(header, ss)
    &&& rows.len() == ss.len()
    &&& forall|i: int| 0 <= i < rows.len() ==> (#[trigger] rows[i])@.len() == header.len()
    &&& forall|i: int| 0 <= i < rows.len() ==> (#[trigger] rows[i])@[0]@ == ss[i].date@
    &&& forall|i: int, j: int|
        0 <= i < rows.len() && 1 <= j < header.len() ==> (#[trigger] rows[i]@[j])@ == amount_str(
            lookup(ss[i].category_breakdown@, header[j]@),
        )
}

/// Renders the summaries, already in bucket order, as the output table.
/// The header is the sorted, deduplicated union of the category names
/// prefixed with `Date`; every data row has exactly one field per
/// header column: the bucket key, then each category's amount, `0`
/// where the bucket has none.
pub fn render_table(summaries: &Vec<Summary>) -> (t: Table)
    requires
        forall|i: int| 0 <= i < summaries@.len() ==> keys_unique((#[trigger] summaries@[i]).category_breakdown@),
    ensures
        table_ok(t.header@, t.rows@, summaries@),
{
    let mut cats = collect_categories(summaries);
    let ghost cats_view = cats@;
    let mut header: Vec<String> = Vec::new();
    header.push(String::from_str("Date"));
    header.append(&mut cats);
    proof {
        assert forall|i: int| 1 <= i < header@.len() implies (#[trigger] header@[i])@ == cats_view[i
            - 1]@ by {}
        assert forall|s: int, j: int|
            0 <= s < summaries@.len() && 0 <= j
                < summaries@[s].category_breakdown@.len() implies header_has(
            header@,
            (#[trigger] summaries@[s].category_breakdown@[j]).0@,
        ) by {
            let key = summaries@[s].category_breakdown@[j].0@;
            assert(names_have(cats_view, key));
            let kw = choose|kw: int| 0 <= kw < cats_view.len() && (#[trigger] cats_view[kw])@ == key;
            assert(1 <= kw + 1 < header@.len() && header@[kw + 1]@ == key);
            assert(header_has(header@, key));
        }
        assert(header_covers(header@, summaries@));
    }
    let mut rows: Vec<Vec<String>> = Vec::new();
    let mut i: usize = 0;
    while i < summaries.len()
        invariant
            i <= summaries@.len(),
            forall|ii: int|
                0 <= ii < summaries@.len() ==> keys_unique(
                    (#[trigger] summaries@[ii]).category_breakdown@,
                ),
            rows@.len() == i,
            header@.len() >= 1,
            header@[0]@ == ("Date")@,
            forall|i1: int, i2: int|
                1 <= i1 < i2 < header@.len() ==> lex_lt(
                    (#[trigger] header@[i1])@,
                    (#[trigger] header@[i2])@,
                ),
            forall|q: int|
                1 <= q < header@.len() ==> cat_in_summaries(summaries@, (#[trigger] header@[q])@),
            header_covers(header@, summaries@),
            forall|ii: int|
                0 <= ii < rows@.len() ==> (#[trigger] rows@[ii])@.len() == header@.len(),
            forall|ii: int|
                0 <= ii < rows@.len() ==> (#[trigger] rows@[ii])@[0]@ == summaries@[ii].date@,
            forall|ii: int, j: int|
                0 <= ii < rows@.len() && 1 <= j < header@.len() ==> (#[trigger] rows@[ii]@[j])@
                    == amount_str(lookup(summaries@[ii].category_breakdown@, header@[j]@)),
        decreases summaries@.len() - i,
    {
        let mut row: Vec<String> = Vec::new();
        row.push(summaries[i].date.clone());
        let mut j: usize = 1;
        while j < header.len()
            invariant
                i < summaries@.len(),
                keys_unique(summaries@[i as int].category_breakdown@),
                1 <= j <= header@.len(),
                header@.len() >= 1,
                row@.len() == j,
                row@[0]@ == summaries@[i as int].date@,
                forall|q: int|
                    1 <= q < j ==> (#[trigger] row@[q])@ == amount_str(
                        lookup(summaries@[i as int].category_breakdown@, header@[q]@),
                    ),
            decreases header@.len() - j,
        {
            let v = lookup_amount(&summaries[i].category_breakdown, &header[j]);
            row.push(format_amount(v));
            j = j + 1;
        }
        rows.push(row);
        i = i + 1;
    }
    Table { header, rows }
}

} // verus!
