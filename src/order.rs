//! Ordinal order of strings, and sorted enumerations of finite sets of keys.
use vstd::prelude::*;

verus! {

/// Ordinal (code point by code point) order of character sequences.
pub open spec fn chars_lt(a: Seq<char>, b: Seq<char>) -> bool
    decreases a.len(),
{
    if a.len() == 0 {
        b.len() > 0
    } else if b.len() == 0 {
        false
    } else if a[0] != b[0] {
        (a[0] as u32) < (b[0] as u32)
    } else {
        chars_lt(a.drop_first(), b.drop_first())
    }
}

pub open spec fn name_order() -> spec_fn(Seq<char>, Seq<char>) -> bool {
    |a: Seq<char>, b: Seq<char>| chars_lt(a, b)
}

pub open spec fn code_order() -> spec_fn(u64, u64) -> bool {
    |a: u64, b: u64| a < b
}

pub open spec fn strict_total_order<T>(lt: spec_fn(T, T) -> bool) -> bool {
    &&& forall|a: T| !(#[trigger] lt(a, a))
    &&& forall|a: T, b: T, c: T| #[trigger] lt(a, b) && #[trigger] lt(b, c) ==> lt(a, c)
    &&& forall|a: T, b: T| a != b ==> #[trigger] lt(a, b) || #[trigger] lt(b, a)
}

pub open spec fn strictly_sorted<T>(s: Seq<T>, lt: spec_fn(T, T) -> bool) -> bool {
    forall|i: int, j: int| 0 <= i < j < s.len() ==> #[trigger] lt(s[i], s[j])
}

/// The elements of a finite set in increasing order, each once.
pub open spec fn sorted_enumeration<T>(s: Set<T>, lt: spec_fn(T, T) -> bool) -> Seq<T> {
    choose|q: Seq<T>| strictly_sorted(q, lt) && q.to_set() == s
}

pub proof fn lemma_chars_lt_irreflexive(a: Seq<char>)
    ensures
        !chars_lt(a, a),
    decreases a.len(),
{
    if a.len() > 0 {
        lemma_chars_lt_irreflexive(a.drop_first());
    }
}

pub proof fn lemma_chars_lt_transitive(a: Seq<char>, b: Seq<char>, c: Seq<char>)
    requires
        chars_lt(a, b),
        chars_lt(b, c),
    ensures
        chars_lt(a, c),
    decreases a.len(),
{
    if a.len() > 0 && b.len() > 0 && c.len() > 0 && a[0] == b[0] && b[0] == c[0] {
        lemma_chars_lt_transitive(a.drop_first(), b.drop_first(), c.drop_first());
    }
}

proof fn lemma_chars_lt_total(a: Seq<char>, b: Seq<char>)
    requires
        a != b,
    ensures
        chars_lt(a, b) || chars_lt(b, a),
    decreases a.len(),
{
    if a.len() > 0 && b.len() > 0 {
        if a[0] == b[0] {
            if a.drop_first() == b.drop_first() {
                assert(a =~= seq![a[0]] + a.drop_first());
                assert(b =~= seq![b[0]] + b.drop_first());
            }
            lemma_chars_lt_total(a.drop_first(), b.drop_first());
        } else {
            vstd::utf8::char_u32_cast(a[0], a[0] as u32);
            vstd::utf8::char_u32_cast(b[0], b[0] as u32);
        }
    } else if a.len() == 0 && b.len() == 0 {
        assert(a =~= b);
    }
}

pub proof fn lemma_name_order()
    ensures
        strict_total_order(name_order()),
{
    assert forall|a: Seq<char>| !(#[trigger] name_order()(a, a)) by {
        lemma_chars_lt_irreflexive(a);
    }
    assert forall|a: Seq<char>, b: Seq<char>, c: Seq<char>|
        #[trigger] name_order()(a, b) && #[trigger] name_order()(b, c) implies name_order()(a, c) by {
        lemma_chars_lt_transitive(a, b, c);
    }
    assert forall|a: Seq<char>, b: Seq<char>|
        a != b implies #[trigger] name_order()(a, b) || #[trigger] name_order()(b, a) by {
        lemma_chars_lt_total(a, b);
    }
}

pub proof fn lemma_code_order()
    ensures
        strict_total_order(code_order()),
{
}

/// Two strictly sorted sequences with the same elements are equal.
pub proof fn lemma_sorted_unique<T>(q1: Seq<T>, q2: Seq<T>, lt: spec_fn(T, T) -> bool)
    requires
        strict_total_order(lt),
        strictly_sorted(q1, lt),
        strictly_sorted(q2, lt),
        q1.to_set() == q2.to_set(),
    ensures
        q1 == q2,
    decreases q1.len(),
{
    if q1.len() == 0 {
        if q2.len() > 0 {
            assert(q2.to_set().contains(q2[0]));
        }
        assert(q1 =~= q2);
    } else {
        assert(q1.to_set().contains(q1[0]));
        if q2.len() == 0 {
            assert(false);
        }
        assert(q2.to_set().contains(q2[0]));
        let i = choose|i: int| 0 <= i < q1.len() && q1[i] == q2[0];
        let j = choose|j: int| 0 <= j < q2.len() && q2[j] == q1[0];
        if q1[0] != q2[0] {
            assert(i > 0 && j > 0);
            assert(lt(q1[0], q1[i]));
            assert(lt(q2[0], q2[j]));
            assert(lt(q1[0], q1[0]));
        }
        let r1 = q1.drop_first();
        let r2 = q2.drop_first();
        assert forall|x: T| r1.to_set().contains(x) implies r2.to_set().contains(x) by {
            let k = choose|k: int| 0 <= k < r1.len() && r1[k] == x;
            assert(lt(q1[0], q1[k + 1]));
            assert(q2.to_set().contains(x));
            let l = choose|l: int| 0 <= l < q2.len() && q2[l] == x;
            if l == 0 {
                assert(lt(x, x));
            }
            assert(r2[l - 1] == x);
        }
        assert forall|x: T| r2.to_set().contains(x) implies r1.to_set().contains(x) by {
            let k = choose|k: int| 0 <= k < r2.len() && r2[k] == x;
            assert(lt(q2[0], q2[k + 1]));
            assert(q1.to_set().contains(x));
            let l = choose|l: int| 0 <= l < q1.len() && q1[l] == x;
            if l == 0 {
                assert(lt(x, x));
            }
            assert(r1[l - 1] == x);
        }
        assert(r1.to_set() =~= r2.to_set());
        lemma_sorted_unique(r1, r2, lt);
        assert(q1 =~= seq![q1[0]] + r1);
        assert(q2 =~= seq![q2[0]] + r2);
    }
}

/// A strictly sorted sequence is the sorted enumeration of its elements.
pub proof fn lemma_sorted_enumeration<T>(q: Seq<T>, lt: spec_fn(T, T) -> bool)
    requires
        strict_total_order(lt),
        strictly_sorted(q, lt),
    ensures
        sorted_enumeration(q.to_set(), lt) == q,
{
    let e = sorted_enumeration(q.to_set(), lt);
    assert(strictly_sorted(e, lt) && e.to_set() == q.to_set());
    lemma_sorted_unique(e, q, lt);
}

proof fn lemma_insert_sorted<T>(s: Seq<T>, i: int, x: T, lt: spec_fn(T, T) -> bool)
    requires
        strict_total_order(lt),
        strictly_sorted(s, lt),
        0 <= i <= s.len(),
        forall|k: int| 0 <= k < i ==> #[trigger] lt(s[k], x),
        i < s.len() ==> lt(x, s[i]),
    ensures
        strictly_sorted(s.insert(i, x), lt),
        s.insert(i, x).to_set() == s.to_set().insert(x),
{
    let t = s.insert(i, x);
    assert forall|a: int, b: int| 0 <= a < b < t.len() implies #[trigger] lt(t[a], t[b]) by {
        if b < i {
        } else if a < i && b == i {
        } else if a < i && b > i {
            assert(lt(s[a], s[b - 1]));
        } else if a == i {
            if b - 1 > i {
                assert(lt(s[i], s[b - 1]));
            }
        } else {
            assert(lt(s[a - 1], s[b - 1]));
        }
    }
    assert forall|y: T| t.to_set().contains(y) <==> s.to_set().insert(x).contains(y) by {
        if t.to_set().contains(y) {
            let k = choose|k: int| 0 <= k < t.len() && t[k] == y;
            if k < i {
                assert(s[k] == y);
            } else if k > i {
                assert(s[k - 1] == y);
            }
        }
        if s.to_set().contains(y) {
            let k = choose|k: int| 0 <= k < s.len() && s[k] == y;
            if k < i {
                assert(t[k] == y);
            } else {
                assert(t[k + 1] == y);
            }
        }
        if y == x {
            assert(t[i] == x);
        }
    }
    assert(t.to_set() =~= s.to_set().insert(x));
}

pub open spec fn vviews(s: Seq<Vec<char>>) -> Seq<Seq<char>> {
    s.map_values(|v: Vec<char>| v@)
}

pub fn chars_less(a: &Vec<char>, b: &Vec<char>) -> (r: bool)
    ensures
        r == chars_lt(a@, b@),
{
    assert(a@.skip(0) =~= a@);
    assert(b@.skip(0) =~= b@);
    let mut i: usize = 0;
    while i < a.len() && i < b.len() && a[i] == b[i]
        invariant
            i <= a.len(),
            i <= b.len(),
            chars_lt(a@, b@) == chars_lt(a@.skip(i as int), b@.skip(i as int)),
        decreases a.len() - i,
    {
        assert(a@.skip(i as int).drop_first() =~= a@.skip(i + 1));
        assert(b@.skip(i as int).drop_first() =~= b@.skip(i + 1));
        i = i + 1;
    }
    if i == a.len() {
        i < b.len()
    } else if i == b.len() {
        false
    } else {
        (a[i] as u32) < (b[i] as u32)
    }
}

pub fn chars_equal(a: &Vec<char>, b: &Vec<char>) -> (r: bool)
    ensures
        r == (a@ == b@),
{
    if a.len() != b.len() {
        return false;
    }
    let mut i: usize = 0;
    while i < a.len()
        invariant
            i <= a.len(),
            a.len() == b.len(),
            a@.take(i as int) == b@.take(i as int),
        decreases a.len() - i,
    {
        if a[i] != b[i] {
            return false;
        }
        assert(a@.take(i + 1) =~= a@.take(i as int).push(a[i as int]));
        assert(b@.take(i + 1) =~= b@.take(i as int).push(b[i as int]));
        i = i + 1;
    }
    assert(a@ =~= a@.take(i as int));
    assert(b@ =~= b@.take(i as int));
    true
}

/// Adds a name to a sorted list of distinct names, keeping it sorted and distinct.
pub fn insert_name(names: &mut Vec<Vec<char>>, x: Vec<char>)
    requires
        strictly_sorted(vviews(old(names)@), name_order()),
    ensures
        strictly_sorted(vviews(final(names)@), name_order()),
        vviews(final(names)@).to_set() == vviews(old(names)@).to_set().insert(x@),
{
    proof {
        lemma_name_order();
    }
    let ghost s = vviews(names@);
    let mut i: usize = 0;
    while i < names.len() && chars_less(&names[i], &x)
        invariant
            i <= names.len(),
            names@ == old(names)@,
            s == vviews(names@),
            forall|k: int| 0 <= k < i ==> #[trigger] name_order()(s[k], x@),
        decreases names.len() - i,
    {
        i = i + 1;
    }
    if i < names.len() && chars_equal(&names[i], &x) {
        assert(s.to_set().contains(s[i as int]));
        assert(s.to_set().insert(x@) =~= s.to_set());
        return;
    }
    proof {
        if i < names.len() {
            assert(!name_order()(s[i as int], x@));
            assert(s[i as int] != x@);
        }
        lemma_insert_sorted(s, i as int, x@, name_order());
    }
    let ghost xv = x@;
    names.insert(i, x);
    assert(vviews(names@) =~= s.insert(i as int, xv));
}

/// Adds a code to a sorted list of distinct codes, keeping it sorted and distinct.
pub fn insert_code(codes: &mut Vec<u64>, x: u64)
    requires
        strictly_sorted(old(codes)@, code_order()),
    ensures
        strictly_sorted(final(codes)@, code_order()),
        final(codes)@.to_set() == old(codes)@.to_set().insert(x),
{
    proof {
        lemma_code_order();
    }
    let ghost s = codes@;
    let mut i: usize = 0;
    while i < codes.len() && codes[i] < x
        invariant
            i <= codes.len(),
            codes@ == s,
            forall|k: int| 0 <= k < i ==> #[trigger] code_order()(s[k], x),
        decreases codes.len() - i,
    {
        i = i + 1;
    }
    if i < codes.len() && codes[i] == x {
        assert(s.to_set().contains(s[i as int]));
        assert(s.to_set().insert(x) =~= s.to_set());
        return;
    }
    proof {
        lemma_insert_sorted(s, i as int, x, code_order());
    }
    codes.insert(i, x);
}

pub proof fn lemma_push_to_set<T>(s: Seq<T>, x: T)
    ensures
        s.push(x).to_set() == s.to_set().insert(x),
{
    let t = s.push(x);
    assert forall|y: T| t.to_set().contains(y) <==> s.to_set().insert(x).contains(y) by {
        if t.to_set().contains(y) {
            let k = choose|k: int| 0 <= k < t.len() && t[k] == y;
            if k < s.len() {
                assert(s[k] == y);
            }
        }
        if s.to_set().contains(y) {
            let k = choose|k: int| 0 <= k < s.len() && s[k] == y;
            assert(t[k] == y);
        }
        if y == x {
            assert(t[s.len() as int] == x);
        }
    }
    assert(t.to_set() =~= s.to_set().insert(x));
}

} // verus!
