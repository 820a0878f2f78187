//! Character-level helpers: conversions between strings and characters,
//! number rendering, whitespace, and the ordinal order of strings.
use crate::model::Decimal;
use vstd::prelude::*;

verus! {

/// Relies on `str::chars`, collected into a vector: the characters of the string in order.
#[verifier::external_body]
pub(crate) fn chars_of(s: &str) -> (r: Vec<char>)
    ensures
        r@ == s@,
{
    s.chars().collect()
}

/// Relies on `String: FromIterator<&char>`: the string made of the characters in order.
#[verifier::external_body]
pub(crate) fn string_of(v: &Vec<char>) -> (r: String)
    ensures
        r@ == v@,
{
    v.iter().collect()
}

pub(crate) fn string_from(s: &str) -> (r: String)
    ensures
        r@ == s@,
{
    s.to_string()
}

pub open spec fn digit_char(d: nat) -> char {
    seq!['0', '1', '2', '3', '4', '5', '6', '7', '8', '9', 'A', 'B', 'C', 'D', 'E', 'F'][d as int]
}

/// The digits of `n` in `base` (upper-case letters above nine), most significant first.
pub open spec fn digits(n: nat, base: nat) -> Seq<char>
    recommends
        2 <= base <= 16,
    decreases n
    via digits_decreases
{
    if base < 2 || n < base {
        seq![digit_char(n)]
    } else {
        digits(n / base, base).push(digit_char(n % base))
    }
}

#[via_fn]
proof fn digits_decreases(n: nat, base: nat) {
    if !(base < 2 || n < base) {
        assert(n / base < n) by (nonlinear_arith)
            requires
                base >= 2,
                n >= base,
        ;
    }
}

fn digit_exec(d: u64) -> (c: char)
    requires
        d < 16,
    ensures
        c == digit_char(d as nat),
{
    let table: [char; 16] = ['0', '1', '2', '3', '4', '5', '6', '7', '8', '9', 'A', 'B', 'C', 'D', 'E', 'F'];
    assert(table@ =~= seq!['0', '1', '2', '3', '4', '5', '6', '7', '8', '9', 'A', 'B', 'C', 'D', 'E', 'F']);
    table[d as usize]
}

pub(crate) fn push_digits(out: &mut Vec<char>, n: u64, base: u64)
    requires
        2 <= base <= 16,
    ensures
        final(out)@ == old(out)@ + digits(n as nat, base as nat),
    decreases n,
{
    let ghost before = out@;
    if n >= base {
        assert(n / base < n) by (nonlinear_arith)
            requires
                base >= 2,
                n >= base,
        ;
        push_digits(out, n / base, base);
    }
    let ghost mid = out@;
    let c = digit_exec(n % base);
    out.push(c);
    assert(out@ == mid.push(c));
    assert(c == digit_char((n % base) as nat));
    if n >= base {
        assert(digits(n as nat, base as nat) == digits((n / base) as nat, base as nat).push(
            digit_char((n % base) as nat),
        ));
        assert(mid == before + digits((n / base) as nat, base as nat));
    } else {
        assert(digits(n as nat, base as nat) == seq![digit_char(n as nat)]);
        assert(mid == before);
        assert(n % base == n) by (nonlinear_arith)
            requires
                n < base,
        ;
    }
    assert(out@ =~= before + digits(n as nat, base as nat));
}

/// `n` in decimal.
pub fn decimal_string(n: u64) -> (r: String)
    ensures
        r@ == digits(n as nat, 10),
{
    let mut v: Vec<char> = Vec::new();
    push_digits(&mut v, n, 10);
    assert(v@ =~= digits(n as nat, 10));
    string_of(&v)
}

/// `n` in hexadecimal with upper-case digits, after a `0x` prefix.
pub fn hex_string(n: u64) -> (r: String)
    ensures
        r@ == seq!['0', 'x'] + digits(n as nat, 16),
{
    let mut v: Vec<char> = Vec::new();
    v.push('0');
    v.push('x');
    push_digits(&mut v, n, 16);
    string_of(&v)
}

pub open spec fn zeros(n: nat) -> Seq<char> {
    Seq::new(n, |i: int| '0')
}

/// A decimal written out in positional notation without exponent, with the
/// fewest digits that give its value.
pub open spec fn decimal_text(d: Decimal) -> Seq<char> {
    let (neg, m, e) = d.canon();
    let ds = digits(m, 10);
    let body = if e >= 0 {
        ds + zeros(e as nat)
    } else if -e < ds.len() {
        ds.take(ds.len() - (-e)) + seq!['.'] + ds.skip(ds.len() - (-e))
    } else {
        seq!['0', '.'] + zeros((-e - ds.len()) as nat) + ds
    };
    if neg {
        seq!['-'] + body
    } else {
        body
    }
}

fn push_zeros(out: &mut Vec<char>, n: u64)
    ensures
        final(out)@ == old(out)@ + zeros(n as nat),
{
    let mut i: u64 = 0;
    while i < n
        invariant
            i <= n,
            out@ == old(out)@ + zeros(i as nat),
        decreases n - i,
    {
        out.push('0');
        i = i + 1;
        assert(out@ =~= old(out)@ + zeros(i as nat));
    }
}

pub fn decimal_to_string(d: &Decimal) -> (r: String)
    ensures
        r@ == decimal_text(*d),
{
    let (neg, m, e) = d.canonical();
    let mut ds: Vec<char> = Vec::new();
    push_digits(&mut ds, m, 10);
    assert(ds@ =~= digits(m as nat, 10));
    let mut out: Vec<char> = Vec::new();
    if neg {
        out.push('-');
    }
    let ghost pre = out@;
    if e >= 0 {
        let mut i: usize = 0;
        while i < ds.len()
            invariant
                i <= ds.len(),
                out@ == pre + ds@.take(i as int),
            decreases ds.len() - i,
        {
            out.push(ds[i]);
            i = i + 1;
            assert(out@ =~= pre + ds@.take(i as int));
        }
        push_zeros(&mut out, e as u64);
        assert(out@ =~= pre + (ds@ + zeros(e as nat)));
    } else {
        let k: u64 = (0 - e) as u64;
        if k < ds.len() as u64 {
            let split: usize = ds.len() - k as usize;
            let mut i: usize = 0;
            while i < ds.len()
                invariant
                    i <= ds.len(),
                    split < ds.len(),
                    i <= split ==> out@ == pre + ds@.take(i as int),
                    i > split ==> out@ == pre + ds@.take(split as int) + seq!['.'] + ds@.subrange(split as int, i as int),
                decreases ds.len() - i,
            {
                if i == split {
                    out.push('.');
                }
                out.push(ds[i]);
                i = i + 1;
                if i <= split {
                    assert(out@ =~= pre + ds@.take(i as int));
                } else {
                    assert(out@ =~= pre + ds@.take(split as int) + seq!['.'] + ds@.subrange(split as int, i as int));
                }
            }
            assert(ds@.subrange(split as int, ds.len() as int) =~= ds@.skip(split as int));
            assert(out@ =~= pre + (ds@.take(split as int) + seq!['.'] + ds@.skip(split as int)));
        } else {
            out.push('0');
            out.push('.');
            push_zeros(&mut out, k - ds.len() as u64);
            let ghost mid = out@;
            let mut i: usize = 0;
            while i < ds.len()
                invariant
                    i <= ds.len(),
                    out@ == mid + ds@.take(i as int),
                decreases ds.len() - i,
            {
                out.push(ds[i]);
                i = i + 1;
                assert(out@ =~= mid + ds@.take(i as int));
            }
            assert(ds@.take(ds.len() as int) =~= ds@);
            assert(out@ =~= pre + (seq!['0', '.'] + zeros((k - ds.len()) as nat) + ds@));
        }
    }
    if neg {
        assert(out@ =~= decimal_text(*d));
    } else {
        assert(pre =~= Seq::<char>::empty());
        assert(out@ =~= decimal_text(*d));
    }
    string_of(&out)
}

/// The characters with the Unicode `White_Space` property, which is what
/// `char::is_whitespace` tests.
pub open spec fn is_ws(c: char) -> bool {
    let u = c as u32;
    (0x9 <= u <= 0xD) || u == 0x20 || u == 0x85 || u == 0xA0 || u == 0x1680 || (0x2000 <= u
        <= 0x200A) || u == 0x2028 || u == 0x2029 || u == 0x202F || u == 0x205F || u == 0x3000
}

pub fn is_whitespace_char(c: char) -> (r: bool)
    ensures
        r == is_ws(c),
{
    let u = c as u32;
    (0x9 <= u && u <= 0xD) || u == 0x20 || u == 0x85 || u == 0xA0 || u == 0x1680 || (0x2000 <= u
        && u <= 0x200A) || u == 0x2028 || u == 0x2029 || u == 0x202F || u == 0x205F || u == 0x3000
}

/// Whether a text is empty or holds only whitespace.
pub open spec fn is_blank(s: Seq<char>) -> bool {
    forall|i: int| 0 <= i < s.len() ==> is_ws(#[trigger] s[i])
}

pub fn blank(s: &str) -> (r: bool)
    ensures
        r == is_blank(s@),
{
    let v = chars_of(s);
    let mut i: usize = 0;
    while i < v.len()
        invariant
            i <= v.len(),
            v@ == s@,
            forall|k: int| 0 <= k < i ==> is_ws(#[trigger] v@[k]),
        decreases v.len() - i,
    {
        if !is_whitespace_char(v[i]) {
            return false;
        }
        i = i + 1;
    }
    true
}

} // verus!
