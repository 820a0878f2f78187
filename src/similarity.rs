//! Fuzzy equivalence of free-text descriptions.
//!
//! A text is reduced to a signature: lower-cased, with hyphens and
//! underscores read as spaces, split into words, each word stripped of
//! non-alphanumeric characters at its ends, empty words dropped, the rest
//! sorted and joined by single spaces. Two texts with one signature are
//! equivalent; otherwise the Jaro-Winkler similarity of the signatures
//! decides, against a threshold of 0.85.
use crate::order::{chars_equal, chars_less, chars_lt, vviews};
use crate::text::{chars_of, is_whitespace_char, is_ws, string_of};
use vstd::prelude::*;

verus! {

/// What `char::to_lowercase` yields for a character.
pub uninterp spec fn lowercase_of(c: char) -> Seq<char>;

/// What `char::is_alphanumeric` answers for a character.
pub uninterp spec fn alphanumeric(c: char) -> bool;

/// The bit pattern of the `f64` that `strsim::jaro_winkler` returns for two texts.
pub uninterp spec fn jaro_winkler_bits(a: Seq<char>, b: Seq<char>) -> u64;

/// Relies on `char::to_lowercase`: the characters of the lower-case mapping.
#[verifier::external_body]
fn lowercase_chars(c: char) -> (r: Vec<char>)
    ensures
        r@ == lowercase_of(c),
{
    c.to_lowercase().collect()
}

/// Relies on `char::is_alphanumeric`.
#[verifier::external_body]
fn is_alphanumeric_char(c: char) -> (r: bool)
    ensures
        r == alphanumeric(c),
{
    c.is_alphanumeric()
}

/// Relies on `strsim::jaro_winkler`, its `f64` result handed over as its bit pattern.
#[verifier::external_body]
fn jaro_winkler_score(a: &str, b: &str) -> (r: u64)
    ensures
        r == jaro_winkler_bits(a@, b@),
{
    strsim::jaro_winkler(a, b).to_bits()
}

/// The bit pattern of `1.0f64`.
pub const ONE_BITS: u64 = 0x3FF0_0000_0000_0000;

/// The bit pattern of `0.85f64`, the similarity threshold.
pub const THRESHOLD_BITS: u64 = 0x3FEB_3333_3333_3333;

/// The bit pattern of positive infinity.
pub const INFINITY_BITS: u64 = 0x7FF0_0000_0000_0000;

pub open spec fn is_ascii_char(c: char) -> bool {
    (c as u32) < 128
}

pub open spec fn ascii_lower(c: char) -> char {
    if 'A' <= c && c <= 'Z' {
        ((c as u32) + 32) as char
    } else {
        c
    }
}

pub open spec fn lower_char(c: char) -> Seq<char> {
    if is_ascii_char(c) {
        seq![ascii_lower(c)]
    } else {
        lowercase_of(c)
    }
}

pub open spec fn is_alnum(c: char) -> bool {
    if is_ascii_char(c) {
        ('a' <= c && c <= 'z') || ('A' <= c && c <= 'Z') || ('0' <= c && c <= '9')
    } else {
        alphanumeric(c)
    }
}

/// The text with every character lower-cased.
pub open spec fn lower_all(s: Seq<char>) -> Seq<char>
    decreases s.len(),
{
    if s.len() == 0 {
        Seq::empty()
    } else {
        lower_all(s.drop_last()) + lower_char(s.last())
    }
}

pub open spec fn sep_to_space(c: char) -> char {
    if c == '-' || c == '_' {
        ' '
    } else {
        c
    }
}

pub open spec fn seps_to_spaces(s: Seq<char>) -> Seq<char> {
    s.map_values(|c: char| sep_to_space(c))
}

/// Splitting read left to right: the finished words and the word in progress.
pub open spec fn split_state(s: Seq<char>) -> (Seq<Seq<char>>, Seq<char>)
    decreases s.len(),
{
    if s.len() == 0 {
        (Seq::empty(), Seq::empty())
    } else {
        let (ws, cur) = split_state(s.drop_last());
        let c = s.last();
        if is_ws(c) {
            if cur.len() > 0 {
                (ws.push(cur), Seq::empty())
            } else {
                (ws, cur)
            }
        } else {
            (ws, cur.push(c))
        }
    }
}

/// The maximal runs of non-whitespace characters, in order.
pub open spec fn split_ws(s: Seq<char>) -> Seq<Seq<char>> {
    let (ws, cur) = split_state(s);
    if cur.len() > 0 {
        ws.push(cur)
    } else {
        ws
    }
}

pub open spec fn trim_start(w: Seq<char>) -> Seq<char>
    decreases w.len(),
{
    if w.len() > 0 && !is_alnum(w[0]) {
        trim_start(w.drop_first())
    } else {
        w
    }
}

pub open spec fn trim_end(w: Seq<char>) -> Seq<char>
    decreases w.len(),
{
    if w.len() > 0 && !is_alnum(w.last()) {
        trim_end(w.drop_last())
    } else {
        w
    }
}

/// A word without the non-alphanumeric characters at its two ends.
pub open spec fn trim_word(w: Seq<char>) -> Seq<char> {
    trim_end(trim_start(w))
}

/// The trimmed words that are not empty, in order.
pub open spec fn trimmed_words(ws: Seq<Seq<char>>) -> Seq<Seq<char>>
    decreases ws.len(),
{
    if ws.len() == 0 {
        Seq::empty()
    } else {
        let rest = trimmed_words(ws.drop_last());
        let t = trim_word(ws.last());
        if t.len() > 0 {
            rest.push(t)
        } else {
            rest
        }
    }
}

/// Inserts a word into a sorted list, after the words not greater than it.
pub open spec fn insert_sorted(s: Seq<Seq<char>>, x: Seq<char>) -> Seq<Seq<char>>
    decreases s.len(),
{
    if s.len() == 0 {
        seq![x]
    } else if chars_lt(x, s[0]) {
        seq![x] + s
    } else {
        seq![s[0]] + insert_sorted(s.drop_first(), x)
    }
}

/// The words in ordinal order.
pub open spec fn sort_words(ws: Seq<Seq<char>>) -> Seq<Seq<char>>
    decreases ws.len(),
{
    if ws.len() == 0 {
        Seq::empty()
    } else {
        insert_sorted(sort_words(ws.drop_last()), ws.last())
    }
}

/// The words joined by single spaces.
pub open spec fn join_words(ws: Seq<Seq<char>>) -> Seq<char>
    decreases ws.len(),
{
    if ws.len() == 0 {
        Seq::empty()
    } else if ws.len() == 1 {
        ws[0]
    } else {
        join_words(ws.drop_last()) + seq![' '] + ws.last()
    }
}

pub open spec fn signature_words(s: Seq<char>) -> Seq<Seq<char>> {
    trimmed_words(split_ws(seps_to_spaces(lower_all(s))))
}

/// The canonical signature of a text.
pub open spec fn normalized(s: Seq<char>) -> Seq<char> {
    join_words(sort_words(signature_words(s)))
}

/// The Jaro-Winkler score of two signatures, taken with the smaller one first
/// so that the score does not depend on which side is which.
pub open spec fn ordered_score(a: Seq<char>, b: Seq<char>) -> u64 {
    if chars_lt(b, a) {
        jaro_winkler_bits(b, a)
    } else {
        jaro_winkler_bits(a, b)
    }
}

/// The similarity of two texts, as the bit pattern of an `f64` in `[0, 1]`.
pub open spec fn similarity_bits(a: Seq<char>, b: Seq<char>) -> u64 {
    if normalized(a) == normalized(b) {
        ONE_BITS
    } else {
        ordered_score(normalized(a), normalized(b))
    }
}

/// Whether the `f64` with these bits is at least 0.85 (a NaN is not).
pub open spec fn at_threshold(bits: u64) -> bool {
    THRESHOLD_BITS <= bits <= INFINITY_BITS
}

/// Whether two descriptions count as the same.
pub open spec fn equivalent(a: Seq<char>, b: Seq<char>) -> bool {
    at_threshold(similarity_bits(a, b))
}

fn lower_text(v: &Vec<char>) -> (r: Vec<char>)
    ensures
        r@ == lower_all(v@),
{
    let mut out: Vec<char> = Vec::new();
    let mut i: usize = 0;
    while i < v.len()
        invariant
            i <= v.len(),
            out@ == lower_all(v@.take(i as int)),
        decreases v.len() - i,
    {
        let c = v[i];
        let ghost before = out@;
        assert(v@.take(i + 1).drop_last() =~= v@.take(i as int));
        if (c as u32) < 128 {
            if 'A' <= c && c <= 'Z' {
                out.push((((c as u32) + 32) as u8) as char);
            } else {
                out.push(c);
            }
            assert(out@ =~= before + lower_char(c));
        } else {
            let l = lowercase_chars(c);
            let mut j: usize = 0;
            while j < l.len()
                invariant
                    j <= l.len(),
                    out@ == before + l@.take(j as int),
                decreases l.len() - j,
            {
                out.push(l[j]);
                j = j + 1;
                assert(out@ =~= before + l@.take(j as int));
            }
            assert(l@.take(j as int) =~= lower_char(c));
        }
        i = i + 1;
    }
    assert(v@.take(i as int) =~= v@);
    out
}

fn split_words(v: &Vec<char>) -> (r: Vec<Vec<char>>)
    ensures
        vviews(r@) == split_ws(seps_to_spaces(v@)),
{
    let ghost t = seps_to_spaces(v@);
    let mut words: Vec<Vec<char>> = Vec::new();
    let mut cur: Vec<char> = Vec::new();
    let mut i: usize = 0;
    while i < v.len()
        invariant
            i <= v.len(),
            t == seps_to_spaces(v@),
            (vviews(words@), cur@) == split_state(t.take(i as int)),
        decreases v.len() - i,
    {
        let c0 = v[i];
        let c = if c0 == '-' || c0 == '_' {
            ' '
        } else {
            c0
        };
        assert(t.take(i + 1).drop_last() =~= t.take(i as int));
        assert(t.take(i + 1).last() == c);
        if is_whitespace_char(c) {
            if cur.len() > 0 {
                let ghost cv = cur@;
                let ghost wv = vviews(words@);
                words.push(cur);
                assert(vviews(words@) =~= wv.push(cv));
                cur = Vec::new();
            }
        } else {
            cur.push(c);
        }
        i = i + 1;
    }
    assert(t.take(i as int) =~= t);
    if cur.len() > 0 {
        let ghost cv = cur@;
        let ghost wv = vviews(words@);
        words.push(cur);
        assert(vviews(words@) =~= wv.push(cv));
    }
    words
}

fn is_alnum_exec(c: char) -> (r: bool)
    ensures
        r == is_alnum(c),
{
    if (c as u32) < 128 {
        ('a' <= c && c <= 'z') || ('A' <= c && c <= 'Z') || ('0' <= c && c <= '9')
    } else {
        is_alphanumeric_char(c)
    }
}

fn trim_chars(w: &Vec<char>) -> (r: Vec<char>)
    ensures
        r@ == trim_word(w@),
{
    let mut a: usize = 0;
    assert(w@.skip(0) =~= w@);
    while a < w.len() && !is_alnum_exec(w[a])
        invariant
            a <= w.len(),
            trim_start(w@) == trim_start(w@.skip(a as int)),
        decreases w.len() - a,
    {
        assert(w@.skip(a as int).drop_first() =~= w@.skip(a + 1));
        a = a + 1;
    }
    assert(trim_start(w@) == w@.subrange(a as int, w.len() as int));
    let mut b: usize = w.len();
    while b > a && !is_alnum_exec(w[b - 1])
        invariant
            a <= b <= w.len(),
            trim_word(w@) == trim_end(w@.subrange(a as int, b as int)),
        decreases b,
    {
        assert(w@.subrange(a as int, b as int).drop_last() =~= w@.subrange(a as int, b - 1));
        b = b - 1;
    }
    let mut out: Vec<char> = Vec::new();
    let mut k: usize = a;
    while k < b
        invariant
            a <= k <= b <= w.len(),
            out@ == w@.subrange(a as int, k as int),
        decreases b - k,
    {
        out.push(w[k]);
        k = k + 1;
        assert(out@ =~= w@.subrange(a as int, k as int));
    }
    out
}

fn trim_all(ws: &Vec<Vec<char>>) -> (r: Vec<Vec<char>>)
    ensures
        vviews(r@) == trimmed_words(vviews(ws@)),
{
    let mut out: Vec<Vec<char>> = Vec::new();
    let mut i: usize = 0;
    while i < ws.len()
        invariant
            i <= ws.len(),
            vviews(out@) == trimmed_words(vviews(ws@).take(i as int)),
        decreases ws.len() - i,
    {
        let t = trim_chars(&ws[i]);
        assert(vviews(ws@).take(i + 1).drop_last() =~= vviews(ws@).take(i as int));
        if t.len() > 0 {
            let ghost ov = vviews(out@);
            let ghost tv = t@;
            out.push(t);
            assert(vviews(out@) =~= ov.push(tv));
        }
        i = i + 1;
    }
    assert(vviews(ws@).take(i as int) =~= vviews(ws@));
    out
}

proof fn lemma_insert_sorted_at(s: Seq<Seq<char>>, x: Seq<char>, k: int)
    requires
        0 <= k <= s.len(),
        forall|j: int| 0 <= j < k ==> !chars_lt(x, #[trigger] s[j]),
        k < s.len() ==> chars_lt(x, s[k]),
    ensures
        insert_sorted(s, x) == s.insert(k, x),
    decreases s.len(),
{
    if s.len() == 0 {
        assert(s.insert(k, x) =~= seq![x]);
    } else if chars_lt(x, s[0]) {
        assert(k == 0);
        assert(s.insert(k, x) =~= seq![x] + s);
    } else {
        let r = s.drop_first();
        assert forall|j: int| 0 <= j < k - 1 implies !chars_lt(x, #[trigger] r[j]) by {
            assert(r[j] == s[j + 1]);
        }
        lemma_insert_sorted_at(r, x, k - 1);
        assert(s.insert(k, x) =~= seq![s[0]] + r.insert(k - 1, x));
    }
}

fn sort_all(ws: Vec<Vec<char>>) -> (r: Vec<Vec<char>>)
    ensures
        vviews(r@) == sort_words(vviews(ws@)),
{
    let ghost wv = vviews(ws@);
    let mut sorted: Vec<Vec<char>> = Vec::new();
    let mut rest = ws;
    let mut i: usize = 0;
    let n = rest.len();
    assert(vviews(rest@) =~= wv.skip(0));
    while i < n
        invariant
            n == wv.len(),
            i <= n,
            vviews(rest@) == wv.skip(i as int),
            vviews(sorted@) == sort_words(wv.take(i as int)),
        decreases n - i,
    {
        assert(vviews(rest@).len() == rest@.len());
        assert(vviews(rest@)[0] == wv[i as int]);
        let ghost before = rest@;
        let x = rest.remove(0);
        assert(rest@ =~= before.subrange(1, before.len() as int));
        assert forall|j: int| 0 <= j < rest@.len() implies #[trigger] vviews(rest@)[j] == wv.skip(
            i + 1,
        )[j] by {
            assert(rest@[j] == before[j + 1]);
            assert(vviews(before)[j + 1] == wv.skip(i as int)[j + 1]);
        }
        assert(vviews(rest@) =~= wv.skip(i + 1));
        let mut k: usize = 0;
        while k < sorted.len() && !chars_less(&x, &sorted[k])
            invariant
                k <= sorted.len(),
                forall|j: int| 0 <= j < k ==> !chars_lt(x@, #[trigger] vviews(sorted@)[j]),
            decreases sorted.len() - k,
        {
            k = k + 1;
        }
        let ghost sv = vviews(sorted@);
        let ghost xv = x@;
        proof {
            lemma_insert_sorted_at(sv, xv, k as int);
            assert(wv.take(i + 1).drop_last() =~= wv.take(i as int));
        }
        sorted.insert(k, x);
        assert(vviews(sorted@) =~= sv.insert(k as int, xv));
        i = i + 1;
    }
    assert(wv.take(n as int) =~= wv);
    sorted
}

fn join_all(ws: &Vec<Vec<char>>) -> (r: Vec<char>)
    ensures
        r@ == join_words(vviews(ws@)),
{
    let ghost wv = vviews(ws@);
    let mut out: Vec<char> = Vec::new();
    let mut i: usize = 0;
    while i < ws.len()
        invariant
            i <= ws.len(),
            wv == vviews(ws@),
            out@ == join_words(wv.take(i as int)),
        decreases ws.len() - i,
    {
        let ghost before = out@;
        assert(wv.take(i + 1).drop_last() =~= wv.take(i as int));
        if i > 0 {
            out.push(' ');
        }
        let w = &ws[i];
        let mut j: usize = 0;
        while j < w.len()
            invariant
                j <= w.len(),
                i > 0 ==> out@ == before + seq![' '] + w@.take(j as int),
                i == 0 ==> out@ == before + w@.take(j as int),
            decreases w.len() - j,
        {
            out.push(w[j]);
            j = j + 1;
            if i > 0 {
                assert(out@ =~= before + seq![' '] + w@.take(j as int));
            } else {
                assert(out@ =~= before + w@.take(j as int));
            }
        }
        assert(w@.take(j as int) =~= w@);
        if i == 0 {
            assert(before =~= Seq::<char>::empty());
            assert(out@ =~= wv.take(1)[0]);
        }
        i = i + 1;
    }
    assert(wv.take(i as int) =~= wv);
    out
}

fn normalize_chars(text: &str) -> (r: Vec<char>)
    ensures
        r@ == normalized(text@),
{
    let v = chars_of(text);
    let lowered = lower_text(&v);
    let words = split_words(&lowered);
    let kept = trim_all(&words);
    let sorted = sort_all(kept);
    join_all(&sorted)
}

/// The signature of a text: its words lower-cased, stripped, sorted and
/// joined by single spaces.
pub fn normalize(text: &str) -> (r: String)
    ensures
        r@ == normalized(text@),
{
    let v = normalize_chars(text);
    string_of(&v)
}

/// Whether two texts have the same signature.
pub fn is_equivalent(term1: &str, term2: &str) -> (r: bool)
    ensures
        r == (normalized(term1@) == normalized(term2@)),
{
    let a = normalize_chars(term1);
    let b = normalize_chars(term2);
    chars_equal(&a, &b)
}

/// The similarity of two texts as the bit pattern of an `f64`: that of 1.0
/// when their signatures agree, else the Jaro-Winkler score of the signatures.
pub fn calculate_similarity(s1: &str, s2: &str) -> (r: u64)
    ensures
        r == similarity_bits(s1@, s2@),
{
    let a = normalize_chars(s1);
    let b = normalize_chars(s2);
    if chars_equal(&a, &b) {
        return ONE_BITS;
    }
    let sa = string_of(&a);
    let sb = string_of(&b);
    if chars_less(&b, &a) {
        jaro_winkler_score(sb.as_str(), sa.as_str())
    } else {
        jaro_winkler_score(sa.as_str(), sb.as_str())
    }
}

/// Whether the `f64` with bit pattern `bits` is at least 0.85.
pub fn meets_threshold(bits: u64) -> (r: bool)
    ensures
        r == at_threshold(bits),
{
    THRESHOLD_BITS <= bits && bits <= INFINITY_BITS
}

/// Whether two descriptions count as the same: equal signatures, or a
/// similarity of at least 0.85.
pub fn descriptions_match(s1: &str, s2: &str) -> (r: bool)
    ensures
        r == equivalent(s1@, s2@),
{
    meets_threshold(calculate_similarity(s1, s2))
}

} // verus!
