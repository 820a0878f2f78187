//! Scanning primitives over one line of database text.
//!
//! Each reads from a position and returns what it recognised and the
//! position after it.
use crate::model::Decimal;
use vstd::prelude::*;

verus! {

/// Blank characters inside a line.
pub open spec fn is_space(b: u8) -> bool {
    b == 32 || b == 9 || b == 13
}

pub open spec fn is_digit(b: u8) -> bool {
    48 <= b <= 57
}

/// Characters of an identifier: letters, digits and the underscore.
pub open spec fn is_ident_byte(b: u8) -> bool {
    (65 <= b <= 90) || (97 <= b <= 122) || is_digit(b) || b == 95
}

pub open spec fn skip_ws(l: Seq<u8>, i: int) -> int
    decreases l.len() - i,
{
    if 0 <= i < l.len() && is_space(l[i]) {
        skip_ws(l, i + 1)
    } else {
        i
    }
}

pub open spec fn digits_end(l: Seq<u8>, i: int) -> int
    decreases l.len() - i,
{
    if 0 <= i < l.len() && is_digit(l[i]) {
        digits_end(l, i + 1)
    } else {
        i
    }
}

pub open spec fn ident_end(l: Seq<u8>, i: int) -> int
    decreases l.len() - i,
{
    if 0 <= i < l.len() && is_ident_byte(l[i]) {
        ident_end(l, i + 1)
    } else {
        i
    }
}

/// The value of a run of decimal digits, or `None` once it exceeds `max`.
pub open spec fn checked_value(s: Seq<u8>, max: nat) -> Option<nat>
    decreases s.len(),
{
    if s.len() == 0 {
        Some(0)
    } else {
        match checked_value(s.drop_last(), max) {
            Some(v) => {
                let w = v * 10 + (s.last() - 48);
                if w <= max {
                    Some(w as nat)
                } else {
                    None
                }
            },
            None => None,
        }
    }
}

/// An unsigned integer of at most `max` at `i`.
pub open spec fn uint_at(l: Seq<u8>, i: int, max: nat) -> Option<(nat, int)> {
    let j = digits_end(l, i);
    if j == i {
        None
    } else {
        match checked_value(l.subrange(i, j), max) {
            Some(v) => Some((v, j)),
            None => None,
        }
    }
}

/// An identifier at `i`.
pub open spec fn ident_at(l: Seq<u8>, i: int) -> Option<(Seq<u8>, int)> {
    let j = ident_end(l, i);
    if j == i {
        None
    } else {
        Some((l.subrange(i, j), j))
    }
}

/// The position after the byte `b` at `i`.
pub open spec fn byte_at(l: Seq<u8>, i: int, b: u8) -> Option<int> {
    if 0 <= i < l.len() && l[i] == b {
        Some(i + 1)
    } else {
        None
    }
}

/// The first position at or after `i` that holds a double quote.
pub open spec fn quote_end(l: Seq<u8>, i: int) -> int
    decreases l.len() - i,
{
    if 0 <= i < l.len() && l[i] != 34 {
        quote_end(l, i + 1)
    } else {
        i
    }
}

/// A double-quoted text at `i`: its contents, and the position after the closing quote.
pub open spec fn quoted_at(l: Seq<u8>, i: int) -> Option<(Seq<u8>, int)> {
    if 0 <= i < l.len() && l[i] == 34 {
        let j = quote_end(l, i + 1);
        if j < l.len() {
            Some((l.subrange(i + 1, j), j + 1))
        } else {
            None
        }
    } else {
        None
    }
}

/// The position after the word `kw` at `i` and the blanks after it; at
/// least one blank must follow the word.
pub open spec fn keyword_at(l: Seq<u8>, i: int, kw: Seq<u8>) -> Option<int> {
    let k = i + kw.len();
    if 0 <= i && k < l.len() && l.subrange(i, k) == kw && is_space(l[k]) {
        Some(skip_ws(l, k))
    } else {
        None
    }
}

pub fn skip_ws_exec(l: &Vec<u8>, i: usize) -> (r: usize)
    requires
        i <= l.len(),
    ensures
        r == skip_ws(l@, i as int),
        i <= r <= l.len(),
{
    let mut k = i;
    while k < l.len() && (l[k] == 32 || l[k] == 9 || l[k] == 13)
        invariant
            i <= k <= l.len(),
            skip_ws(l@, i as int) == skip_ws(l@, k as int),
        decreases l.len() - k,
    {
        k = k + 1;
    }
    k
}

fn digits_end_exec(l: &Vec<u8>, i: usize) -> (r: usize)
    requires
        i <= l.len(),
    ensures
        r == digits_end(l@, i as int),
        i <= r <= l.len(),
        forall|m: int| i <= m < r ==> is_digit(#[trigger] l@[m]),
{
    let mut k = i;
    while k < l.len() && 48 <= l[k] && l[k] <= 57
        invariant
            i <= k <= l.len(),
            forall|m: int| i <= m < k ==> is_digit(#[trigger] l@[m]),
            digits_end(l@, i as int) == digits_end(l@, k as int),
        decreases l.len() - k,
    {
        k = k + 1;
    }
    k
}

pub fn ident_at_exec(l: &Vec<u8>, i: usize) -> (r: Option<(Vec<u8>, usize)>)
    requires
        i <= l.len(),
    ensures
        match r {
            Some((v, j)) => ident_at(l@, i as int) == Some((v@, j as int)) && j <= l.len(),
            None => ident_at(l@, i as int) is None,
        },
{
    let mut k = i;
    let mut v: Vec<u8> = Vec::new();
    while k < l.len() && ((65 <= l[k] && l[k] <= 90) || (97 <= l[k] && l[k] <= 122) || (48 <= l[k]
        && l[k] <= 57) || l[k] == 95)
        invariant
            i <= k <= l.len(),
            ident_end(l@, i as int) == ident_end(l@, k as int),
            v@ == l@.subrange(i as int, k as int),
        decreases l.len() - k,
    {
        v.push(l[k]);
        k = k + 1;
        assert(v@ =~= l@.subrange(i as int, k as int));
    }
    if k == i {
        None
    } else {
        Some((v, k))
    }
}

/// The checked value of the digits in `l[a..b]` followed by those in `l[c..d]`.
fn checked_digits(l: &Vec<u8>, a: usize, b: usize, c: usize, d: usize, max: u64) -> (r: Option<u64>)
    requires
        a <= b <= c <= d <= l.len(),
        forall|m: int| a <= m < b ==> is_digit(#[trigger] l@[m]),
        forall|m: int| c <= m < d ==> is_digit(#[trigger] l@[m]),
    ensures
        match r {
            Some(v) => checked_value(l@.subrange(a as int, b as int) + l@.subrange(c as int, d as int), max as nat)
                == Some(v as nat) && v <= max,
            None => checked_value(l@.subrange(a as int, b as int) + l@.subrange(c as int, d as int), max as nat) is None,
        },
{
    let ghost s = l@.subrange(a as int, b as int) + l@.subrange(c as int, d as int);
    let n: usize = (b - a) + (d - c);
    let mut v: u64 = 0;
    let mut k: usize = 0;
    assert(s.take(0) =~= Seq::<u8>::empty());
    while k < n
        invariant
            k <= n,
            n == s.len(),
            n == (b - a) + (d - c),
            a <= b <= c <= d <= l.len(),
            s == l@.subrange(a as int, b as int) + l@.subrange(c as int, d as int),
            forall|m: int| 0 <= m < n ==> is_digit(#[trigger] s[m]),
            checked_value(s.take(k as int), max as nat) == Some(v as nat),
            v <= max,
        decreases n - k,
    {
        let byte = if k < b - a {
            l[a + k]
        } else {
            l[c + (k - (b - a))]
        };
        assert(byte == s[k as int]);
        assert(is_digit(s[k as int]));
        assert(s.take(k + 1).drop_last() =~= s.take(k as int));
        let dg = (byte - 48) as u64;
        if dg > max || v > (max - dg) / 10 {
            proof {
                if dg <= max {
                    assert(v * 10 + dg > max) by (nonlinear_arith)
                        requires
                            v > (max - dg) / 10,
                            dg <= max,
                    ;
                }
                assert(checked_value(s.take(k + 1), max as nat) is None);
                lemma_checked_none_extends(s, k + 1, max as nat);
            }
            return None;
        }
        v = v * 10 + dg;
        k = k + 1;
    }
    assert(s.take(n as int) =~= s);
    Some(v)
}

/// Reads an unsigned integer of at most `max` at `i`.
pub fn uint_at_exec(l: &Vec<u8>, i: usize, max: u64) -> (r: Option<(u64, usize)>)
    requires
        i <= l.len(),
    ensures
        match r {
            Some((v, j)) => uint_at(l@, i as int, max as nat) == Some((v as nat, j as int)) && j <= l.len()
                && v <= max,
            None => uint_at(l@, i as int, max as nat) is None,
        },
{
    let j = digits_end_exec(l, i);
    if j == i {
        return None;
    }
    let r = checked_digits(l, i, j, j, j, max);
    assert(l@.subrange(i as int, j as int) + l@.subrange(j as int, j as int) =~= l@.subrange(i as int, j as int));
    match r {
        Some(v) => Some((v, j)),
        None => None,
    }
}

pub open spec fn sign_at(l: Seq<u8>, i: int) -> (bool, int) {
    if 0 <= i < l.len() && l[i] == 45 {
        (true, i + 1)
    } else if 0 <= i < l.len() && l[i] == 43 {
        (false, i + 1)
    } else {
        (false, i)
    }
}

/// The largest exponent, and the most fraction digits, that a number may have.
pub const EXPONENT_LIMIT: u64 = 100000;

/// A decimal number at `i`: an optional sign, digits, optionally a point
/// and fraction digits, optionally `e` or `E` with an optionally signed
/// exponent. The mantissa digits must fit in 64 bits.
pub open spec fn number_at(l: Seq<u8>, i: int) -> Option<(Decimal, int)> {
    let (neg, i1) = sign_at(l, i);
    let i2 = digits_end(l, i1);
    let has_frac = i2 < l.len() && l[i2] == 46;
    let i3 = if has_frac {
        i2 + 1
    } else {
        i2
    };
    let i4 = if has_frac {
        digits_end(l, i3)
    } else {
        i2
    };
    let has_exp = 0 <= i4 < l.len() && (l[i4] == 101 || l[i4] == 69);
    let (eneg, j1) = sign_at(l, i4 + 1);
    let j2 = digits_end(l, j1);
    let mant = checked_value(l.subrange(i1, i2) + l.subrange(i3, i4), u64::MAX as nat);
    let ev: Option<nat> = if has_exp {
        if j2 == j1 {
            None
        } else {
            checked_value(l.subrange(j1, j2), EXPONENT_LIMIT as nat)
        }
    } else {
        Some(0)
    };
    let end = if has_exp {
        j2
    } else {
        i4
    };
    if i2 == i1 || mant is None || ev is None || i4 - i3 > EXPONENT_LIMIT {
        None
    } else {
        let e: int = (if eneg {
            -(ev->0)
        } else {
            ev->0 as int
        }) - (i4 - i3);
        Some((Decimal { negative: neg, mantissa: mant->0 as u64, exponent: e as i32 }, end))
    }
}

proof fn lemma_digits_end_bounds(l: Seq<u8>, i: int)
    requires
        0 <= i <= l.len(),
    ensures
        i <= digits_end(l, i) <= l.len(),
        forall|m: int| i <= m < digits_end(l, i) ==> is_digit(#[trigger] l[m]),
    decreases l.len() - i,
{
    if i < l.len() && is_digit(l[i]) {
        lemma_digits_end_bounds(l, i + 1);
    }
}

fn sign_at_exec(l: &Vec<u8>, i: usize) -> (r: (bool, usize))
    requires
        i <= l.len(),
    ensures
        (r.0, r.1 as int) == sign_at(l@, i as int),
        r.1 <= l.len(),
{
    if i < l.len() && l[i] == 45 {
        (true, i + 1)
    } else if i < l.len() && l[i] == 43 {
        (false, i + 1)
    } else {
        (false, i)
    }
}

/// Reads a decimal number at `i`.
pub fn number_at_exec(l: &Vec<u8>, i: usize) -> (r: Option<(Decimal, usize)>)
    requires
        i <= l.len(),
    ensures
        match r {
            Some((v, j)) => number_at(l@, i as int) == Some((v, j as int)) && j <= l.len(),
            None => number_at(l@, i as int) is None,
        },
{
    let (neg, i1) = sign_at_exec(l, i);
    let i2 = digits_end_exec(l, i1);
    if i2 == i1 {
        return None;
    }
    let has_frac = i2 < l.len() && l[i2] == 46;
    let i3 = if has_frac {
        i2 + 1
    } else {
        i2
    };
    let i4 = if has_frac {
        digits_end_exec(l, i3)
    } else {
        i2
    };
    let mant = match checked_digits(l, i1, i2, i3, i4, u64::MAX) {
        Some(m) => m,
        None => {
            return None;
        },
    };
    if i4 - i3 > EXPONENT_LIMIT as usize {
        return None;
    }
    let frac_len = (i4 - i3) as i64;
    let has_exp = i4 < l.len() && (l[i4] == 101 || l[i4] == 69);
    if has_exp {
        proof {
            lemma_digits_end_bounds(l@, (i4 + 1) as int);
        }
        let (eneg, j1) = sign_at_exec(l, i4 + 1);
        let j2 = digits_end_exec(l, j1);
        if j2 == j1 {
            return None;
        }
        let ev = match checked_digits(l, j1, j2, j2, j2, EXPONENT_LIMIT) {
            Some(x) => x,
            None => {
                assert(l@.subrange(j1 as int, j2 as int) + l@.subrange(j2 as int, j2 as int) =~= l@.subrange(j1 as int, j2 as int));
                return None;
            },
        };
        assert(l@.subrange(j1 as int, j2 as int) + l@.subrange(j2 as int, j2 as int) =~= l@.subrange(j1 as int, j2 as int));
        let e: i64 = if eneg {
            0 - (ev as i64) - frac_len
        } else {
            (ev as i64) - frac_len
        };
        Some((Decimal { negative: neg, mantissa: mant, exponent: e as i32 }, j2))
    } else {
        let e: i64 = 0 - frac_len;
        Some((Decimal { negative: neg, mantissa: mant, exponent: e as i32 }, i4))
    }
}

/// Reads a double-quoted text at `i`.
pub fn quoted_at_exec(l: &Vec<u8>, i: usize) -> (r: Option<(Vec<u8>, usize)>)
    requires
        i <= l.len(),
    ensures
        match r {
            Some((v, j)) => quoted_at(l@, i as int) == Some((v@, j as int)) && j <= l.len(),
            None => quoted_at(l@, i as int) is None,
        },
{
    if !(i < l.len() && l[i] == 34) {
        return None;
    }
    let mut k = i + 1;
    let mut v: Vec<u8> = Vec::new();
    while k < l.len() && l[k] != 34
        invariant
            i + 1 <= k <= l.len(),
            quote_end(l@, i + 1) == quote_end(l@, k as int),
            v@ == l@.subrange(i + 1, k as int),
        decreases l.len() - k,
    {
        v.push(l[k]);
        k = k + 1;
        assert(v@ =~= l@.subrange(i + 1, k as int));
    }
    if k < l.len() {
        Some((v, k + 1))
    } else {
        None
    }
}

/// Reads the word `kw` and the blanks after it at `i`.
pub fn keyword_at_exec(l: &Vec<u8>, i: usize, kw: &Vec<u8>) -> (r: Option<usize>)
    requires
        i <= l.len(),
    ensures
        match r {
            Some(j) => keyword_at(l@, i as int, kw@) == Some(j as int) && j <= l.len(),
            None => keyword_at(l@, i as int, kw@) is None,
        },
{
    let n = kw.len();
    if n >= l.len() - i {
        return None;
    }
    let mut k: usize = 0;
    while k < n
        invariant
            k <= n,
            n == kw@.len(),
            i + n < l.len(),
            l@.subrange(i as int, i + k) == kw@.take(k as int),
        decreases n - k,
    {
        if l[i + k] != kw[k] {
            assert(l@.subrange(i as int, i + n)[k as int] != kw@[k as int]);
            return None;
        }
        k = k + 1;
        assert(l@.subrange(i as int, i + k) =~= kw@.take(k as int));
    }
    assert(kw@.take(n as int) =~= kw@);
    if !(l[i + n] == 32 || l[i + n] == 9 || l[i + n] == 13) {
        return None;
    }
    Some(skip_ws_exec(l, i + n))
}

/// Once a prefix of a digit run exceeds the bound, so does the run.
pub proof fn lemma_checked_none_extends(s: Seq<u8>, k: int, max: nat)
    requires
        0 <= k <= s.len(),
        checked_value(s.take(k), max) is None,
    ensures
        checked_value(s, max) is None,
    decreases s.len() - k,
{
    if k < s.len() {
        assert(s.take(k + 1).drop_last() =~= s.take(k));
        lemma_checked_none_extends(s, k + 1, max);
    } else {
        assert(s.take(k) =~= s);
    }
}

/// The position after the byte `b` at `i`, blanks skipped before and after it.
pub open spec fn punct_at(l: Seq<u8>, i: int, b: u8) -> Option<int> {
    match byte_at(l, skip_ws(l, i), b) {
        Some(j) => Some(skip_ws(l, j)),
        None => None,
    }
}

pub fn punct_at_exec(l: &Vec<u8>, i: usize, b: u8) -> (r: Option<usize>)
    requires
        i <= l.len(),
    ensures
        match r {
            Some(j) => punct_at(l@, i as int, b) == Some(j as int) && j <= l.len(),
            None => punct_at(l@, i as int, b) is None,
        },
{
    let j = skip_ws_exec(l, i);
    if j < l.len() && l[j] == b {
        Some(skip_ws_exec(l, j + 1))
    } else {
        None
    }
}

pub proof fn lemma_scan_bounds(l: Seq<u8>, i: int)
    requires
        0 <= i <= l.len(),
    ensures
        i <= skip_ws(l, i) <= l.len(),
        i <= digits_end(l, i) <= l.len(),
        i <= ident_end(l, i) <= l.len(),
        i <= quote_end(l, i) <= l.len(),
    decreases l.len() - i,
{
    if i < l.len() {
        lemma_scan_bounds(l, i + 1);
    }
}

} // verus!
