//! Lexicographic ordering of character sequences and decimal formatting.
//!
//! Bucket keys and header columns are ordered by plain lexicographic
//! comparison of Unicode scalar values, which matches byte order of the
//! UTF-8 encodings. Formatting of numbers is specified exactly so that
//! ordering and rendering facts can be proved about the produced text.
use vstd::prelude::*;
use vstd::arithmetic::div_mod::{
    lemma_fundamental_div_mod, lemma_div_denominator, lemma_div_is_ordered, lemma_small_mod,
    lemma_div_pos_is_pos,
};

verus! {

/// From position `i` on, `a` is lexicographically at or before `b`,
/// comparing characters by Unicode scalar value.
pub open spec fn lex_le_from(a: Seq<char>, b: Seq<char>, i: int) -> bool
    decreases a.len() - i,
{
    if i >= a.len() {
        true
    } else if i >= b.len() {
        false
    } else if a[i] != b[i] {
        a[i] < b[i]
    } else {
        lex_le_from(a, b, i + 1)
    }
}

/// `a` is lexicographically at or before `b`.
pub open spec fn lex_le(a: Seq<char>, b: Seq<char>) -> bool {
    lex_le_from(a, b, 0)
}

/// `a` is lexicographically strictly before `b`.
pub open spec fn lex_lt(a: Seq<char>, b: Seq<char>) -> bool {
    lex_le(a, b) && a != b
}

/// Characterization of `lex_le_from` without recursion: either some first
/// difference favours `a`, or `a` is a prefix of `b` from `i` on.
pub proof fn lemma_lex_le_from_char(a: Seq<char>, b: Seq<char>, i: int)
    requires
        0 <= i <= a.len(),
        i <= b.len(),
    ensures
        lex_le_from(a, b, i) <==> ({
            ||| (exists|j: int|
                i <= j < a.len() && j < b.len() && a[j] < b[j] && (forall|
                    k: int,
                |
                    i <= k < j ==> a[k] == b[k]))
            ||| (a.len() <= b.len() && (forall|k: int| i <= k < a.len() ==> a[k] == b[k]))
        }),
    decreases a.len() - i,
{
    if i >= a.len() {
    } else if i >= b.len() {
    } else if a[i] != b[i] {
        if a[i] < b[i] {
            assert(i <= i < a.len() && i < b.len() && a[i] < b[i] && (forall|
                k: int,
            |
                i <= k < i ==> a[k] == b[k]));
        }
    } else {
        lemma_lex_le_from_char(a, b, i + 1);
        assert(a[i] == b[i]);
        if lex_le_from(a, b, i) {
            if exists|j: int|
                i + 1 <= j < a.len() && j < b.len() && a[j] < b[j] && (forall|
                    k: int,
                |
                    i + 1 <= k < j ==> a[k] == b[k]) {
                let j = choose|j: int|
                    i + 1 <= j < a.len() && j < b.len() && a[j] < b[j] && (forall|
                        k: int,
                    |
                        i + 1 <= k < j ==> a[k] == b[k]);
                assert(forall|k: int| i <= k < j ==> a[k] == b[k]);
            }
        } else {
            assert(!lex_le_from(a, b, i + 1));
            if exists|j: int|
                i <= j < a.len() && j < b.len() && a[j] < b[j] && (forall|
                    k: int,
                |
                    i <= k < j ==> a[k] == b[k]) {
                let j = choose|j: int|
                    i <= j < a.len() && j < b.len() && a[j] < b[j] && (forall|
                        k: int,
                    |
                        i <= k < j ==> a[k] == b[k]);
                assert(j != i);
                assert(forall|k: int| i + 1 <= k < j ==> a[k] == b[k]);
                assert(false);
            }
        }
    }
}

/// The order is total.
pub proof fn lemma_lex_total(a: Seq<char>, b: Seq<char>)
    ensures
        lex_le(a, b) || lex_le(b, a),
{
    lemma_lex_from_total(a, b, 0);
}

proof fn lemma_lex_from_total(a: Seq<char>, b: Seq<char>, i: int)
    ensures
        lex_le_from(a, b, i) || lex_le_from(b, a, i),
    decreases a.len() - i,
{
    if i >= a.len() {
    } else if i >= b.len() {
    } else if a[i] != b[i] {
    } else {
        lemma_lex_from_total(a, b, i + 1);
    }
}

/// The order is antisymmetric.
pub proof fn lemma_lex_antisym(a: Seq<char>, b: Seq<char>)
    requires
        lex_le(a, b),
        lex_le(b, a),
    ensures
        a == b,
{
    lemma_lex_le_from_char(a, b, 0);
    lemma_lex_le_from_char(b, a, 0);
    if exists|j: int|
        0 <= j < a.len() && j < b.len() && a[j] < b[j] && (forall|k: int|
            0 <= k < j ==> a[k] == b[k]) {
        let j1 = choose|j: int|
            0 <= j < a.len() && j < b.len() && a[j] < b[j] && (forall|k: int|
                0 <= k < j ==> a[k] == b[k]);
        if exists|j: int|
            0 <= j < b.len() && j < a.len() && b[j] < a[j] && (forall|k: int|
                0 <= k < j ==> b[k] == a[k]) {
            let j2 = choose|j: int|
                0 <= j < b.len() && j < a.len() && b[j] < a[j] && (forall|k: int|
                    0 <= k < j ==> b[k] == a[k]);
            if j1 < j2 {
                assert(b[j1] == a[j1]);
            } else if j2 < j1 {
                assert(a[j2] == b[j2]);
            }
            assert(false);
        } else {
            assert(b.len() <= a.len() && (forall|k: int| 0 <= k < b.len() ==> b[k] == a[k]));
            assert(b[j1] == a[j1]);
            assert(false);
        }
    } else {
        assert(a.len() <= b.len() && (forall|k: int| 0 <= k < a.len() ==> a[k] == b[k]));
        if exists|j: int|
            0 <= j < b.len() && j < a.len() && b[j] < a[j] && (forall|k: int|
                0 <= k < j ==> b[k] == a[k]) {
            let j2 = choose|j: int|
                0 <= j < b.len() && j < a.len() && b[j] < a[j] && (forall|k: int|
                    0 <= k < j ==> b[k] == a[k]);
            assert(a[j2] == b[j2]);
            assert(false);
        }
        assert(a =~= b);
    }
}

/// The order is transitive.
pub proof fn lemma_lex_trans(a: Seq<char>, b: Seq<char>, c: Seq<char>)
    requires
        lex_le(a, b),
        lex_le(b, c),
    ensures
        lex_le(a, c),
{
    lemma_lex_le_from_char(a, b, 0);
    lemma_lex_le_from_char(b, c, 0);
    lemma_lex_le_from_char(a, c, 0);
    if exists|j: int|
        0 <= j < a.len() && j < b.len() && a[j] < b[j] && (forall|k: int|
            0 <= k < j ==> a[k] == b[k]) {
        let j1 = choose|j: int|
            0 <= j < a.len() && j < b.len() && a[j] < b[j] && (forall|k: int|
                0 <= k < j ==> a[k] == b[k]);
        if exists|j: int|
            0 <= j < b.len() && j < c.len() && b[j] < c[j] && (forall|k: int|
                0 <= k < j ==> b[k] == c[k]) {
            let j2 = choose|j: int|
                0 <= j < b.len() && j < c.len() && b[j] < c[j] && (forall|
                    k: int,
                |
                    0 <= k < j ==> b[k] == c[k]);
            let j = if j1 <= j2 {
                j1
            } else {
                j2
            };
            assert(j < a.len() && j < c.len() && a[j] < c[j] && (forall|k: int|
                0 <= k < j ==> a[k] == c[k]));
        } else {
            assert(b.len() <= c.len() && (forall|k: int| 0 <= k < b.len() ==> b[k] == c[k]));
            assert(j1 < a.len() && j1 < c.len() && a[j1] < c[j1] && (forall|
                k: int,
            |
                0 <= k < j1 ==> a[k] == c[k]));
        }
    } else {
        assert(a.len() <= b.len() && (forall|k: int| 0 <= k < a.len() ==> a[k] == b[k]));
        if exists|j: int|
            0 <= j < b.len() && j < c.len() && b[j] < c[j] && (forall|k: int|
                0 <= k < j ==> b[k] == c[k]) {
            let j2 = choose|j: int|
                0 <= j < b.len() && j < c.len() && b[j] < c[j] && (forall|
                    k: int,
                |
                    0 <= k < j ==> b[k] == c[k]);
            if j2 < a.len() {
                assert(j2 < a.len() && j2 < c.len() && a[j2] < c[j2] && (forall|
                    k: int,
                |
                    0 <= k < j2 ==> a[k] == c[k]));
            } else {
                assert(a.len() <= c.len() && (forall|k: int| 0 <= k < a.len() ==> a[k] == c[k]));
            }
        } else {
            assert(a.len() <= c.len() && (forall|k: int| 0 <= k < a.len() ==> a[k] == c[k]));
        }
    }
}

/// Compares two strings lexicographically by Unicode scalar value.
pub fn str_le(a: &str, b: &str) -> (r: bool)
    ensures
        r == lex_le(a@, b@),
{
    let alen = a.unicode_len();
    let blen = b.unicode_len();
    let mut i: usize = 0;
    loop
        invariant
            i <= alen,
            i <= blen,
            alen == a@.len(),
            blen == b@.len(),
            lex_le(a@, b@) == lex_le_from(a@, b@, i as int),
        decreases alen - i,
    {
        if i >= alen {
            return true;
        }
        if i >= blen {
            return false;
        }
        let ca = a.get_char(i);
        let cb = b.get_char(i);
        if ca != cb {
            return ca < cb;
        }
        i = i + 1;
    }
}

/// Compares two strings for equality of their character sequences.
pub fn str_eq(a: &str, b: &str) -> (r: bool)
    ensures
        r == (a@ == b@),
{
    let alen = a.unicode_len();
    let blen = b.unicode_len();
    if alen != blen {
        return false;
    }
    let mut i: usize = 0;
    while i < alen
        invariant
            i <= alen,
            alen == a@.len(),
            alen == b@.len(),
            forall|k: int| 0 <= k < i ==> a@[k] == b@[k],
        decreases alen - i,
    {
        if a.get_char(i) != b.get_char(i) {
            return false;
        }
        i = i + 1;
    }
    proof {
        assert(a@ =~= b@);
    }
    true
}

/// Whether `c` is a decimal digit.
pub open spec fn is_digit(c: char) -> bool {
    '0' <= c && c <= '9'
}

/// The numeric value of a decimal digit character, `-1` otherwise.
pub open spec fn digit_val(c: char) -> int {
    if c == '0' {
        0
    } else if c == '1' {
        1
    } else if c == '2' {
        2
    } else if c == '3' {
        3
    } else if c == '4' {
        4
    } else if c == '5' {
        5
    } else if c == '6' {
        6
    } else if c == '7' {
        7
    } else if c == '8' {
        8
    } else if c == '9' {
        9
    } else {
        -1
    }
}

/// A digit character's value lies between 0 and 9.
pub broadcast proof fn lemma_digit_val_bounds(c: char)
    ensures
        #[trigger] is_digit(c) <==> 0 <= digit_val(c) < 10,
{
}

/// The decimal digit character for `d`.
pub open spec fn digit_char(d: int) -> char {
    ((48 + d) as u8) as char
}

/// The decimal representation of `n`, without padding or sign.
pub open spec fn dec_rep(n: nat) -> Seq<char>
    decreases n,
{
    if n < 10 {
        seq![digit_char(n as int)]
    } else {
        dec_rep(n / 10).push(digit_char((n % 10) as int))
    }
}

/// The four low decimal digits of `n`, zero-padded.
pub open spec fn padded4(n: int) -> Seq<char> {
    seq![
        digit_char(n / 1000 % 10),
        digit_char(n / 100 % 10),
        digit_char(n / 10 % 10),
        digit_char(n % 10),
    ]
}

/// The two low decimal digits of `n`, zero-padded.
pub open spec fn padded2(n: int) -> Seq<char> {
    seq![digit_char(n / 10 % 10), digit_char(n % 10)]
}

/// Rendering of an amount held in hundredths of the currency unit:
/// optional sign, the whole part in plain decimal, then the shortest
/// exact fraction: none for whole amounts, one digit for tenths, two
/// digits otherwise.
pub open spec fn amount_str(v: int) -> Seq<char> {
    let a = if v < 0 {
        -v
    } else {
        v
    };
    let sign: Seq<char> = if v < 0 {
        seq!['-']
    } else {
        Seq::empty()
    };
    let whole = dec_rep((a / 100) as nat);
    let fr = a % 100;
    if fr == 0 {
        sign + whole
    } else if fr % 10 == 0 {
        sign + whole + seq!['.', digit_char(fr / 10)]
    } else {
        sign + whole + seq!['.', digit_char(fr / 10), digit_char(fr % 10)]
    }
}

/// The single-character string for decimal digit `d`.
fn digit_str(d: u32) -> (r: &'static str)
    requires
        d < 10,
    ensures
        r@ == seq![digit_char(d as int)],
{
    proof {
        reveal_strlit("0");
        reveal_strlit("1");
        reveal_strlit("2");
        reveal_strlit("3");
        reveal_strlit("4");
        reveal_strlit("5");
        reveal_strlit("6");
        reveal_strlit("7");
        reveal_strlit("8");
        reveal_strlit("9");
    }
    let r = match d {
        0 => "0",
        1 => "1",
        2 => "2",
        3 => "3",
        4 => "4",
        5 => "5",
        6 => "6",
        7 => "7",
        8 => "8",
        _ => "9",
    };
    proof {
        assert(r@ =~= seq![digit_char(d as int)]);
    }
    r
}

/// Formats `n` as exactly four decimal digits, zero-padded.
pub fn format_padded4(n: u32) -> (r: String)
    requires
        n <= 9999,
    ensures
        r@ == padded4(n as int),
{
    let mut s = String::new();
    s.append(digit_str(n / 1000));
    s.append(digit_str(n / 100 % 10));
    s.append(digit_str(n / 10 % 10));
    s.append(digit_str(n % 10));
    proof {
        assert(n / 1000 < 10);
        assert(s@ =~= padded4(n as int));
    }
    s
}

/// Formats `n` as exactly two decimal digits, zero-padded.
pub fn format_padded2(n: u32) -> (r: String)
    requires
        n <= 99,
    ensures
        r@ == padded2(n as int),
{
    let mut s = String::new();
    s.append(digit_str(n / 10 % 10));
    s.append(digit_str(n % 10));
    proof {
        assert(s@ =~= padded2(n as int));
    }
    s
}

/// Formats `n` in decimal without padding.
pub fn format_u128(n: u128) -> (r: String)
    ensures
        r@ == dec_rep(n as nat),
    decreases n,
{
    if n < 10 {
        let mut s = String::new();
        s.append(digit_str(n as u32));
        proof {
            assert(s@ =~= dec_rep(n as nat));
        }
        s
    } else {
        let mut s = format_u128(n / 10);
        s.append(digit_str((n % 10) as u32));
        proof {
            assert(s@ =~= dec_rep(n as nat));
        }
        s
    }
}

/// Formats an amount held in hundredths of the currency unit.
pub fn format_amount(v: i128) -> (r: String)
    ensures
        r@ == amount_str(v as int),
{
    proof {
        reveal_strlit("-");
        reveal_strlit(".");
    }
    let a: u128 = if v < 0 {
        (-(v + 1)) as u128 + 1
    } else {
        v as u128
    };
    proof {
        assert(a == if v < 0 {
            -(v as int)
        } else {
            v as int
        });
    }
    let mut s = if v < 0 {
        let t = String::from_str("-");
        proof {
            assert(t@ =~= seq!['-']);
        }
        t
    } else {
        String::new()
    };
    let whole = format_u128(a / 100);
    s.append(whole.as_str());
    let fr = (a % 100) as u32;
    if fr != 0 {
        s.append(".");
        s.append(digit_str(fr / 10));
        if fr % 10 != 0 {
            s.append(digit_str(fr % 10));
        }
    }
    proof {
        assert(s@ =~= amount_str(v as int));
    }
    s
}

/// From position `i`, the comparison only looks at the tails past `s`.
proof fn lemma_lex_from_shift(a: Seq<char>, b: Seq<char>, s: int, i: int)
    requires
        0 <= s <= i,
        s <= a.len(),
        s <= b.len(),
    ensures
        lex_le_from(a, b, i) == lex_le_from(a.skip(s), b.skip(s), i - s),
    decreases a.len() - i,
{
    if i >= a.len() {
    } else if i >= b.len() {
    } else if a[i] != b[i] {
        assert(a.skip(s)[i - s] == a[i]);
        assert(b.skip(s)[i - s] == b[i]);
    } else {
        assert(a.skip(s)[i - s] == a[i]);
        assert(b.skip(s)[i - s] == b[i]);
        lemma_lex_from_shift(a, b, s, i + 1);
    }
}

/// Concatenations with equal-length heads compare by head first, then tail.
pub proof fn lemma_lex_concat(a1: Seq<char>, a2: Seq<char>, t1: Seq<char>, t2: Seq<char>)
    requires
        a1.len() == a2.len(),
    ensures
        lex_le(a1 + t1, a2 + t2) == (lex_lt(a1, a2) || (a1 == a2 && lex_le(t1, t2))),
    decreases a1.len(),
{
    let s1 = a1 + t1;
    let s2 = a2 + t2;
    if a1.len() == 0 {
        assert(a1 =~= a2);
        assert(s1 =~= t1);
        assert(s2 =~= t2);
    } else {
        assert(s1[0] == a1[0]);
        assert(s2[0] == a2[0]);
        if a1[0] != a2[0] {
            assert(lex_le(s1, s2) == (a1[0] < a2[0]));
            assert(lex_le(a1, a2) == (a1[0] < a2[0]));
            if a1 == a2 {
                assert(a1[0] == a2[0]);
            }
        } else {
            assert(lex_le_from(s1, s2, 0) == lex_le_from(s1, s2, 1));
            lemma_lex_from_shift(s1, s2, 1, 1);
            assert(s1.skip(1) =~= a1.skip(1) + t1);
            assert(s2.skip(1) =~= a2.skip(1) + t2);
            lemma_lex_concat(a1.skip(1), a2.skip(1), t1, t2);
            assert(lex_le_from(a1, a2, 0) == lex_le_from(a1, a2, 1));
            lemma_lex_from_shift(a1, a2, 1, 1);
            if a1.skip(1) == a2.skip(1) {
                assert(forall|k: int|
                    1 <= k < a1.len() ==> a1[k] == a1.skip(1)[k - 1] && a2[k] == a2.skip(1)[k
                        - 1]);
                assert(a1 =~= a2);
            }
            if a1 == a2 {
                assert(a1.skip(1) =~= a2.skip(1));
            }
        }
    }
}

/// Concatenations with equal-length heads are equal part by part.
pub proof fn lemma_concat_eq(a1: Seq<char>, a2: Seq<char>, t1: Seq<char>, t2: Seq<char>)
    requires
        a1.len() == a2.len(),
    ensures
        (a1 + t1 == a2 + t2) <==> (a1 == a2 && t1 == t2),
{
    if a1 + t1 == a2 + t2 {
        assert(a1 =~= a2) by {
            assert(forall|k: int|
                0 <= k < a1.len() ==> a1[k] == (a1 + t1)[k] && a2[k] == (a2 + t2)[k]);
        }
        assert(t1 =~= t2) by {
            assert((a1 + t1).len() == (a2 + t2).len());
            assert(forall|k: int|
                0 <= k < t1.len() ==> t1[k] == (a1 + t1)[k + a1.len()] && t2[k] == (a2 + t2)[k
                    + a2.len()]);
        }
    }
    if a1 == a2 && t1 == t2 {
        assert(a1 + t1 =~= a2 + t2);
    }
}

/// Single-character sequences compare as their characters do.
pub proof fn lemma_lex_single(x: char, y: char)
    ensures
        lex_le(seq![x], seq![y]) == (x == y || x < y),
        lex_lt(seq![x], seq![y]) == (x < y),
        (seq![x] == seq![y]) == (x == y),
{
    reveal_with_fuel(lex_le_from, 3);
    let sx = seq![x];
    let sy = seq![y];
    assert(sx[0] == x);
    assert(sy[0] == y);
    if x == y {
        assert(sx =~= sy);
    }
    if sx == sy {
        assert(x == y);
    }
}

/// The digit characters order as their values do.
proof fn lemma_digit_char_order(u: int, v: int)
    requires
        0 <= u < 10,
        0 <= v < 10,
    ensures
        (digit_char(u) < digit_char(v)) == (u < v),
        (digit_char(u) == digit_char(v)) == (u == v),
{
}

/// The low digits of `n`: its value decomposes through them.
proof fn lemma_dec4(n: int)
    requires
        0 <= n <= 9999,
    ensures
        n / 1000 % 10 == n / 1000,
        0 <= n / 1000 <= 9,
        0 <= n / 100 % 10 <= 9,
        0 <= n / 10 % 10 <= 9,
        0 <= n % 10 <= 9,
        n == 1000 * (n / 1000) + 100 * (n / 100 % 10) + 10 * (n / 10 % 10) + n % 10,
{
    lemma_fundamental_div_mod(n, 10);
    lemma_div_pos_is_pos(n, 10);
    lemma_div_denominator(n, 10, 10);
    lemma_fundamental_div_mod(n / 10, 10);
    lemma_div_pos_is_pos(n / 10, 10);
    lemma_div_denominator(n, 100, 10);
    lemma_fundamental_div_mod(n / 100, 10);
    lemma_div_pos_is_pos(n / 100, 10);
    lemma_div_is_ordered(n, 9999, 1000);
    assert(9999int / 1000 == 9);
    lemma_small_mod((n / 1000) as nat, 10);
    assert(n / 10 == 10 * (n / 100) + n / 10 % 10);
    assert(n / 100 == 10 * (n / 1000) + n / 100 % 10);
}

/// The low digits of `n` up to 99: its value decomposes through them.
proof fn lemma_dec2(n: int)
    requires
        0 <= n <= 99,
    ensures
        n / 10 % 10 == n / 10,
        0 <= n / 10 <= 9,
        0 <= n % 10 <= 9,
        n == 10 * (n / 10) + n % 10,
{
    lemma_fundamental_div_mod(n, 10);
    lemma_div_pos_is_pos(n, 10);
    lemma_div_is_ordered(n, 99, 10);
    assert(99int / 10 == 9);
    lemma_small_mod((n / 10) as nat, 10);
}

/// Four-digit zero-padded fields order as their values do.
pub proof fn lemma_padded4_order(n1: int, n2: int)
    requires
        0 <= n1 <= 9999,
        0 <= n2 <= 9999,
    ensures
        lex_lt(padded4(n1), padded4(n2)) <==> n1 < n2,
        lex_le(padded4(n1), padded4(n2)) <==> n1 <= n2,
        (padded4(n1) == padded4(n2)) <==> n1 == n2,
{
    lemma_dec4(n1);
    lemma_dec4(n2);
    let x3 = n1 / 1000 % 10;
    let x2 = n1 / 100 % 10;
    let x1 = n1 / 10 % 10;
    let x0 = n1 % 10;
    let y3 = n2 / 1000 % 10;
    let y2 = n2 / 100 % 10;
    let y1 = n2 / 10 % 10;
    let y0 = n2 % 10;
    let p1 = padded4(n1);
    let p2 = padded4(n2);
    let r1 = seq![digit_char(x2), digit_char(x1), digit_char(x0)];
    let r2 = seq![digit_char(y2), digit_char(y1), digit_char(y0)];
    let q1 = seq![digit_char(x1), digit_char(x0)];
    let q2 = seq![digit_char(y1), digit_char(y0)];
    let u1 = seq![digit_char(x0)];
    let u2 = seq![digit_char(y0)];
    assert(p1 =~= seq![digit_char(x3)] + r1);
    assert(p2 =~= seq![digit_char(y3)] + r2);
    assert(r1 =~= seq![digit_char(x2)] + q1);
    assert(r2 =~= seq![digit_char(y2)] + q2);
    assert(q1 =~= seq![digit_char(x1)] + u1);
    assert(q2 =~= seq![digit_char(y1)] + u2);
    lemma_lex_concat(seq![digit_char(x3)], seq![digit_char(y3)], r1, r2);
    lemma_concat_eq(seq![digit_char(x3)], seq![digit_char(y3)], r1, r2);
    lemma_lex_concat(seq![digit_char(x2)], seq![digit_char(y2)], q1, q2);
    lemma_concat_eq(seq![digit_char(x2)], seq![digit_char(y2)], q1, q2);
    lemma_lex_concat(seq![digit_char(x1)], seq![digit_char(y1)], u1, u2);
    lemma_concat_eq(seq![digit_char(x1)], seq![digit_char(y1)], u1, u2);
    lemma_lex_single(digit_char(x3), digit_char(y3));
    lemma_lex_single(digit_char(x2), digit_char(y2));
    lemma_lex_single(digit_char(x1), digit_char(y1));
    lemma_lex_single(digit_char(x0), digit_char(y0));
    lemma_digit_char_order(x3, y3);
    lemma_digit_char_order(x2, y2);
    lemma_digit_char_order(x1, y1);
    lemma_digit_char_order(x0, y0);
    assert((n1 < n2) == (x3 < y3 || (x3 == y3 && (x2 < y2 || (x2 == y2 && (x1 < y1 || (x1 == y1
        && x0 < y0)))))));
    assert((n1 == n2) == (x3 == y3 && x2 == y2 && x1 == y1 && x0 == y0));
}

/// Two-digit zero-padded fields order as their values do.
pub proof fn lemma_padded2_order(n1: int, n2: int)
    requires
        0 <= n1 <= 99,
        0 <= n2 <= 99,
    ensures
        lex_lt(padded2(n1), padded2(n2)) <==> n1 < n2,
        lex_le(padded2(n1), padded2(n2)) <==> n1 <= n2,
        (padded2(n1) == padded2(n2)) <==> n1 == n2,
{
    lemma_dec2(n1);
    lemma_dec2(n2);
    let x1 = n1 / 10 % 10;
    let x0 = n1 % 10;
    let y1 = n2 / 10 % 10;
    let y0 = n2 % 10;
    let u1 = seq![digit_char(x0)];
    let u2 = seq![digit_char(y0)];
    assert(padded2(n1) =~= seq![digit_char(x1)] + u1);
    assert(padded2(n2) =~= seq![digit_char(y1)] + u2);
    lemma_lex_concat(seq![digit_char(x1)], seq![digit_char(y1)], u1, u2);
    lemma_concat_eq(seq![digit_char(x1)], seq![digit_char(y1)], u1, u2);
    lemma_lex_single(digit_char(x1), digit_char(y1));
    lemma_lex_single(digit_char(x0), digit_char(y0));
    lemma_digit_char_order(x1, y1);
    lemma_digit_char_order(x0, y0);
    assert((n1 < n2) == (x1 < y1 || (x1 == y1 && x0 < y0)));
    assert((n1 == n2) == (x1 == y1 && x0 == y0));
}

} // verus!
