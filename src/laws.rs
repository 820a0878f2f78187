//! Properties that relate several calls of the library.
use crate::diff::{
    bit_field_diff, concat_all, dbc_diff, description_diff, descriptions_diff, encoding_diff,
    initial_diff, message_diff, message_field_diff, message_names, mirror, mirror_all, opt,
    scaling_diff, signal_diff, signal_field_diff, signal_names, signals_diff, RecordView,
};
use crate::model::{DbcView, MessageView, SignalView};
use crate::order::{chars_lt, lemma_chars_lt_irreflexive, lemma_chars_lt_transitive, lemma_name_order, name_order};
use crate::similarity::{
    ascii_lower, at_threshold, equivalent, insert_sorted, is_alnum, is_ascii_char, join_words, lower_all,
    lower_char, normalized, ordered_score, seps_to_spaces, signature_words, similarity_bits, sort_words,
    split_state, split_ws, trim_end, trim_start, trim_word, trimmed_words, ONE_BITS,
};
use crate::text::is_ws;
use vstd::prelude::*;

verus! {

/// Every text counts as equivalent to itself.
pub proof fn lemma_equivalent_reflexive(s: Seq<char>)
    ensures
        equivalent(s, s),
{
    assert(similarity_bits(s, s) == ONE_BITS);
    assert(at_threshold(ONE_BITS));
}

/// Equivalence of two texts does not depend on their order.
pub proof fn lemma_equivalent_symmetric(a: Seq<char>, b: Seq<char>)
    ensures
        equivalent(a, b) == equivalent(b, a),
{
    lemma_name_order();
    let na = normalized(a);
    let nb = normalized(b);
    if na != nb {
        assert(name_order()(na, nb) || name_order()(nb, na));
        if name_order()(na, nb) && name_order()(nb, na) {
            assert(name_order()(na, na));
        }
        assert(ordered_score(na, nb) == ordered_score(nb, na));
    }
}

proof fn lemma_concat_all_empty(s: Seq<Seq<RecordView>>)
    requires
        forall|i: int| 0 <= i < s.len() ==> #[trigger] s[i] == Seq::<RecordView>::empty(),
    ensures
        concat_all(s) == Seq::<RecordView>::empty(),
    decreases s.len(),
{
    if s.len() > 0 {
        lemma_concat_all_empty(s.drop_last());
        assert(s.last() == Seq::<RecordView>::empty());
        assert(concat_all(s) =~= Seq::<RecordView>::empty());
    }
}

proof fn lemma_signal_self_empty(n: Seq<char>, sn: Seq<char>, s: SignalView)
    ensures
        signal_field_diff(n, sn, s, s) == Seq::<RecordView>::empty(),
{
    let d = s.value_descriptions;
    let codes = crate::order::sorted_enumeration(
        crate::diff::description_codes(d).union(crate::diff::description_codes(d)),
        crate::order::code_order(),
    );
    let pieces = codes.map_values(|c: u64| description_diff(n, sn, d, d, c));
    assert forall|i: int| 0 <= i < pieces.len() implies #[trigger] pieces[i] == Seq::<RecordView>::empty() by {
        let c = codes[i];
        if let Some(t) = crate::diff::find_description(d, c) {
            lemma_equivalent_reflexive(crate::diff::description_display(t));
        }
        assert(pieces[i] =~= Seq::<RecordView>::empty());
    }
    lemma_concat_all_empty(pieces);
    assert(bit_field_diff(n, sn, s, s) =~= Seq::<RecordView>::empty());
    assert(scaling_diff(n, sn, s, s) =~= Seq::<RecordView>::empty());
    assert(encoding_diff(n, sn, s, s) =~= Seq::<RecordView>::empty());
    assert(initial_diff(n, sn, s, s) =~= Seq::<RecordView>::empty());
    assert(signal_field_diff(n, sn, s, s) =~= Seq::<RecordView>::empty());
}

proof fn lemma_message_self_empty(n: Seq<char>, m: MessageView)
    ensures
        message_field_diff(n, m, m) + signals_diff(n, m, m) == Seq::<RecordView>::empty(),
{
    let names = crate::order::sorted_enumeration(signal_names(m).union(signal_names(m)), name_order());
    let pieces = names.map_values(|sn: Seq<char>| signal_diff(n, m, m, sn));
    assert forall|i: int| 0 <= i < pieces.len() implies #[trigger] pieces[i] == Seq::<RecordView>::empty() by {
        if let Some(s) = crate::diff::find_signal(m.signals, names[i]) {
            lemma_signal_self_empty(n, names[i], s);
        }
    }
    lemma_concat_all_empty(pieces);
    assert(message_field_diff(n, m, m) =~= Seq::<RecordView>::empty());
    assert(message_field_diff(n, m, m) + signals_diff(n, m, m) =~= Seq::<RecordView>::empty());
}

/// A database compared with itself shows no difference.
pub proof fn lemma_diff_self_empty(d: DbcView)
    ensures
        dbc_diff(d, d) == Seq::<RecordView>::empty(),
{
    let names = crate::order::sorted_enumeration(message_names(d).union(message_names(d)), name_order());
    let pieces = names.map_values(|n: Seq<char>| message_diff(d, d, n));
    assert forall|i: int| 0 <= i < pieces.len() implies #[trigger] pieces[i] == Seq::<RecordView>::empty() by {
        if let Some(m) = crate::diff::find_message(d.messages, names[i]) {
            lemma_message_self_empty(names[i], m);
        }
    }
    lemma_concat_all_empty(pieces);
}

proof fn lemma_mirror_add(a: Seq<RecordView>, b: Seq<RecordView>)
    ensures
        mirror_all(a + b) == mirror_all(a) + mirror_all(b),
{
    assert(mirror_all(a + b) =~= mirror_all(a) + mirror_all(b));
}

proof fn lemma_mirror_concat(s: Seq<Seq<RecordView>>, t: Seq<Seq<RecordView>>)
    requires
        s.len() == t.len(),
        forall|i: int| 0 <= i < s.len() ==> #[trigger] t[i] == mirror_all(s[i]),
    ensures
        concat_all(t) == mirror_all(concat_all(s)),
    decreases s.len(),
{
    if s.len() == 0 {
        assert(mirror_all(concat_all(s)) =~= Seq::<RecordView>::empty());
    } else {
        lemma_mirror_concat(s.drop_last(), t.drop_last());
        lemma_mirror_add(concat_all(s.drop_last()), s.last());
    }
}

proof fn lemma_mirror_opt(c: bool, r: RecordView, r2: RecordView)
    requires
        r2 == mirror(r),
    ensures
        opt(c, r2) == mirror_all(opt(c, r)),
{
    assert(opt(c, r2) =~= mirror_all(opt(c, r)));
}

proof fn lemma_descriptions_mirror(n: Seq<char>, sn: Seq<char>, d1: Seq<(u64, Seq<char>)>, d2: Seq<(u64, Seq<char>)>)
    ensures
        descriptions_diff(n, sn, d2, d1) == mirror_all(descriptions_diff(n, sn, d1, d2)),
{
    assert(crate::diff::description_codes(d2).union(crate::diff::description_codes(d1))
        =~= crate::diff::description_codes(d1).union(crate::diff::description_codes(d2)));
    let codes = crate::order::sorted_enumeration(
        crate::diff::description_codes(d1).union(crate::diff::description_codes(d2)),
        crate::order::code_order(),
    );
    let forward = codes.map_values(|c: u64| description_diff(n, sn, d1, d2, c));
    let backward = codes.map_values(|c: u64| description_diff(n, sn, d2, d1, c));
    assert forall|i: int| 0 <= i < forward.len() implies #[trigger] backward[i] == mirror_all(forward[i]) by {
        let c = codes[i];
        match (crate::diff::find_description(d1, c), crate::diff::find_description(d2, c)) {
            (Some(t1), Some(t2)) => {
                lemma_equivalent_symmetric(
                    crate::diff::description_display(t1),
                    crate::diff::description_display(t2),
                );
            },
            _ => {},
        }
        assert(backward[i] =~= mirror_all(forward[i]));
    }
    lemma_mirror_concat(forward, backward);
}

proof fn lemma_bits_mirror(n: Seq<char>, sn: Seq<char>, s1: SignalView, s2: SignalView)
    ensures
        bit_field_diff(n, sn, s2, s1) == mirror_all(bit_field_diff(n, sn, s1, s2)),
{
    assert(bit_field_diff(n, sn, s2, s1) =~= mirror_all(bit_field_diff(n, sn, s1, s2)));
}

proof fn lemma_scaling_mirror(n: Seq<char>, sn: Seq<char>, s1: SignalView, s2: SignalView)
    ensures
        scaling_diff(n, sn, s2, s1) == mirror_all(scaling_diff(n, sn, s1, s2)),
{
    assert(scaling_diff(n, sn, s2, s1) =~= mirror_all(scaling_diff(n, sn, s1, s2)));
}

proof fn lemma_encoding_mirror(n: Seq<char>, sn: Seq<char>, s1: SignalView, s2: SignalView)
    ensures
        encoding_diff(n, sn, s2, s1) == mirror_all(encoding_diff(n, sn, s1, s2)),
{
    assert(encoding_diff(n, sn, s2, s1) =~= mirror_all(encoding_diff(n, sn, s1, s2)));
}

proof fn lemma_initial_mirror(n: Seq<char>, sn: Seq<char>, s1: SignalView, s2: SignalView)
    ensures
        initial_diff(n, sn, s2, s1) == mirror_all(initial_diff(n, sn, s1, s2)),
{
    assert(initial_diff(n, sn, s2, s1) =~= mirror_all(initial_diff(n, sn, s1, s2)));
}

proof fn lemma_signal_fields_mirror(n: Seq<char>, sn: Seq<char>, s1: SignalView, s2: SignalView)
    ensures
        signal_field_diff(n, sn, s2, s1) == mirror_all(signal_field_diff(n, sn, s1, s2)),
{
    let a = bit_field_diff(n, sn, s1, s2);
    let b = scaling_diff(n, sn, s1, s2);
    let c = encoding_diff(n, sn, s1, s2);
    let d = initial_diff(n, sn, s1, s2);
    let e = descriptions_diff(n, sn, s1.value_descriptions, s2.value_descriptions);
    lemma_bits_mirror(n, sn, s1, s2);
    lemma_scaling_mirror(n, sn, s1, s2);
    lemma_encoding_mirror(n, sn, s1, s2);
    lemma_initial_mirror(n, sn, s1, s2);
    lemma_descriptions_mirror(n, sn, s1.value_descriptions, s2.value_descriptions);
    lemma_mirror_add(a, b);
    lemma_mirror_add(a + b, c);
    lemma_mirror_add(a + b + c, d);
    lemma_mirror_add(a + b + c + d, e);
}

proof fn lemma_message_mirror(n: Seq<char>, m1: MessageView, m2: MessageView)
    ensures
        message_field_diff(n, m2, m1) + signals_diff(n, m2, m1) == mirror_all(
            message_field_diff(n, m1, m2) + signals_diff(n, m1, m2),
        ),
{
    assert(signal_names(m2).union(signal_names(m1)) =~= signal_names(m1).union(signal_names(m2)));
    let names = crate::order::sorted_enumeration(signal_names(m1).union(signal_names(m2)), name_order());
    let forward = names.map_values(|sn: Seq<char>| signal_diff(n, m1, m2, sn));
    let backward = names.map_values(|sn: Seq<char>| signal_diff(n, m2, m1, sn));
    assert forall|i: int| 0 <= i < forward.len() implies #[trigger] backward[i] == mirror_all(forward[i]) by {
        let sn = names[i];
        match (crate::diff::find_signal(m1.signals, sn), crate::diff::find_signal(m2.signals, sn)) {
            (Some(s1), Some(s2)) => {
                lemma_signal_fields_mirror(n, sn, s1, s2);
            },
            _ => {
                assert(backward[i] =~= mirror_all(forward[i]));
            },
        }
    }
    lemma_mirror_concat(forward, backward);
    assert(message_field_diff(n, m2, m1) =~= mirror_all(message_field_diff(n, m1, m2)));
    lemma_mirror_add(message_field_diff(n, m1, m2), signals_diff(n, m1, m2));
}

/// Exchanging the two databases gives the same records, in the same order,
/// with the values of the two sides exchanged.
pub proof fn lemma_diff_mirror(a: DbcView, b: DbcView)
    ensures
        dbc_diff(b, a) == mirror_all(dbc_diff(a, b)),
{
    assert(message_names(b).union(message_names(a)) =~= message_names(a).union(message_names(b)));
    let names = crate::order::sorted_enumeration(message_names(a).union(message_names(b)), name_order());
    let forward = names.map_values(|n: Seq<char>| message_diff(a, b, n));
    let backward = names.map_values(|n: Seq<char>| message_diff(b, a, n));
    assert forall|i: int| 0 <= i < forward.len() implies #[trigger] backward[i] == mirror_all(forward[i]) by {
        let n = names[i];
        match (crate::diff::find_message(a.messages, n), crate::diff::find_message(b.messages, n)) {
            (Some(m1), Some(m2)) => {
                lemma_message_mirror(n, m1, m2);
            },
            _ => {
                assert(backward[i] =~= mirror_all(forward[i]));
            },
        }
    }
    lemma_mirror_concat(forward, backward);
}

pub open spec fn is_ascii_text(s: Seq<char>) -> bool {
    forall|i: int| 0 <= i < s.len() ==> is_ascii_char(#[trigger] s[i])
}

spec fn lowered_char(c: char) -> bool {
    is_ascii_char(c) && !('A' <= c && c <= 'Z')
}

spec fn plain(c: char) -> bool {
    lowered_char(c) && c != '-' && c != '_'
}

spec fn word_char(c: char) -> bool {
    plain(c) && !is_ws(c)
}

spec fn word_chars(w: Seq<char>) -> bool {
    forall|i: int| 0 <= i < w.len() ==> word_char(#[trigger] w[i])
}

spec fn good_word(w: Seq<char>) -> bool {
    w.len() > 0 && word_chars(w) && is_alnum(w[0]) && is_alnum(w.last())
}

spec fn all_good(ws: Seq<Seq<char>>) -> bool {
    forall|i: int| 0 <= i < ws.len() ==> good_word(#[trigger] ws[i])
}

spec fn sorted_words(ws: Seq<Seq<char>>) -> bool {
    forall|i: int, j: int| 0 <= i < j < ws.len() ==> !chars_lt(#[trigger] ws[j], #[trigger] ws[i])
}

proof fn lemma_lower_ascii(s: Seq<char>)
    requires
        is_ascii_text(s),
    ensures
        forall|i: int| 0 <= i < lower_all(s).len() ==> lowered_char(#[trigger] lower_all(s)[i]),
    decreases s.len(),
{
    if s.len() > 0 {
        let p = s.drop_last();
        assert(is_ascii_text(p)) by {
            assert forall|i: int| 0 <= i < p.len() implies is_ascii_char(#[trigger] p[i]) by {
                assert(p[i] == s[i]);
            }
        }
        lemma_lower_ascii(p);
        let c = s.last();
        assert(is_ascii_char(c));
        assert(lower_char(c) == seq![ascii_lower(c)]);
        assert(lowered_char(ascii_lower(c)));
        let l = lower_all(s);
        assert(l == lower_all(p) + seq![ascii_lower(c)]);
        assert forall|i: int| 0 <= i < l.len() implies lowered_char(#[trigger] l[i]) by {
            if i < lower_all(p).len() {
                assert(l[i] == lower_all(p)[i]);
            }
        }
    }
}

proof fn lemma_lower_identity(x: Seq<char>)
    requires
        forall|i: int| 0 <= i < x.len() ==> lowered_char(#[trigger] x[i]),
    ensures
        lower_all(x) == x,
    decreases x.len(),
{
    if x.len() > 0 {
        let p = x.drop_last();
        assert forall|i: int| 0 <= i < p.len() implies lowered_char(#[trigger] p[i]) by {
            assert(p[i] == x[i]);
        }
        lemma_lower_identity(p);
        assert(lowered_char(x.last()));
        assert(x =~= p + seq![x.last()]);
    }
}

proof fn lemma_split_chars(x: Seq<char>)
    requires
        forall|i: int| 0 <= i < x.len() ==> plain(#[trigger] x[i]),
    ensures
        forall|k: int| 0 <= k < split_state(x).0.len() ==> (#[trigger] split_state(x).0[k]).len() > 0
            && word_chars(split_state(x).0[k]),
        word_chars(split_state(x).1),
    decreases x.len(),
{
    if x.len() > 0 {
        let p = x.drop_last();
        assert forall|i: int| 0 <= i < p.len() implies plain(#[trigger] p[i]) by {
            assert(p[i] == x[i]);
        }
        lemma_split_chars(p);
        assert(plain(x.last()));
    }
}

proof fn lemma_split_words(x: Seq<char>)
    requires
        forall|i: int| 0 <= i < x.len() ==> plain(#[trigger] x[i]),
    ensures
        forall|k: int| 0 <= k < split_ws(x).len() ==> (#[trigger] split_ws(x)[k]).len() > 0 && word_chars(
            split_ws(x)[k],
        ),
{
    lemma_split_chars(x);
}

proof fn lemma_trim_start(w: Seq<char>)
    requires
        word_chars(w),
    ensures
        word_chars(trim_start(w)),
        trim_start(w).len() > 0 ==> is_alnum(trim_start(w)[0]),
    decreases w.len(),
{
    if w.len() > 0 && !is_alnum(w[0]) {
        let r = w.drop_first();
        assert forall|i: int| 0 <= i < r.len() implies word_char(#[trigger] r[i]) by {
            assert(r[i] == w[i + 1]);
        }
        lemma_trim_start(r);
    }
}

proof fn lemma_trim_end(v: Seq<char>)
    requires
        word_chars(v),
    ensures
        word_chars(trim_end(v)),
        trim_end(v).len() > 0 ==> is_alnum(trim_end(v).last()),
        v.len() > 0 && is_alnum(v[0]) ==> trim_end(v).len() > 0 && trim_end(v)[0] == v[0],
    decreases v.len(),
{
    if v.len() > 0 && !is_alnum(v.last()) {
        let r = v.drop_last();
        assert forall|i: int| 0 <= i < r.len() implies word_char(#[trigger] r[i]) by {
            assert(r[i] == v[i]);
        }
        lemma_trim_end(r);
        if is_alnum(v[0]) {
            assert(v.len() > 1);
            assert(r[0] == v[0]);
        }
    }
}

proof fn lemma_trim_good(w: Seq<char>)
    requires
        word_chars(w),
    ensures
        trim_word(w).len() > 0 ==> good_word(trim_word(w)),
{
    lemma_trim_start(w);
    lemma_trim_end(trim_start(w));
}

proof fn lemma_trimmed_good(ws: Seq<Seq<char>>)
    requires
        forall|k: int| 0 <= k < ws.len() ==> word_chars(#[trigger] ws[k]),
    ensures
        all_good(trimmed_words(ws)),
    decreases ws.len(),
{
    if ws.len() > 0 {
        let p = ws.drop_last();
        assert forall|k: int| 0 <= k < p.len() implies word_chars(#[trigger] p[k]) by {
            assert(p[k] == ws[k]);
        }
        lemma_trimmed_good(p);
        assert(word_chars(ws.last()));
        lemma_trim_good(ws.last());
        let r = trimmed_words(p);
        let t = trim_word(ws.last());
        if t.len() > 0 {
            assert forall|k: int| 0 <= k < r.push(t).len() implies good_word(#[trigger] r.push(t)[k]) by {
                if k < r.len() {
                    assert(r.push(t)[k] == r[k]);
                }
            }
        }
    }
}

proof fn lemma_insert_sorted_props(s: Seq<Seq<char>>, x: Seq<char>)
    requires
        sorted_words(s),
        all_good(s),
        good_word(x),
    ensures
        sorted_words(insert_sorted(s, x)),
        all_good(insert_sorted(s, x)),
        insert_sorted(s, x).len() == s.len() + 1,
        forall|k: int| 0 <= k < insert_sorted(s, x).len() ==> #[trigger] insert_sorted(s, x)[k] == x
            || s.contains(insert_sorted(s, x)[k]),
    decreases s.len(),
{
    let r = insert_sorted(s, x);
    if s.len() == 0 {
    } else if chars_lt(x, s[0]) {
        assert(r == seq![x] + s);
        assert forall|i: int, j: int| 0 <= i < j < r.len() implies !chars_lt(#[trigger] r[j], #[trigger] r[i]) by {
            if i == 0 {
                if chars_lt(r[j], x) {
                    if j == 1 {
                        lemma_chars_lt_transitive(x, s[0], x);
                        lemma_chars_lt_irreflexive(x);
                    } else {
                        lemma_chars_lt_transitive(s[j - 1], x, s[0]);
                        assert(!chars_lt(s[j - 1], s[0]));
                    }
                }
            } else {
                assert(r[i] == s[i - 1] && r[j] == s[j - 1]);
            }
        }
        assert forall|k: int| 0 <= k < r.len() implies #[trigger] r[k] == x || s.contains(r[k]) by {
            if k > 0 {
                assert(r[k] == s[k - 1]);
            }
        }
    } else {
        let t = s.drop_first();
        assert(sorted_words(t)) by {
            assert forall|i: int, j: int| 0 <= i < j < t.len() implies !chars_lt(#[trigger] t[j], #[trigger] t[i]) by {
                assert(t[i] == s[i + 1] && t[j] == s[j + 1]);
            }
        }
        assert(all_good(t)) by {
            assert forall|i: int| 0 <= i < t.len() implies good_word(#[trigger] t[i]) by {
                assert(t[i] == s[i + 1]);
            }
        }
        lemma_insert_sorted_props(t, x);
        let q = insert_sorted(t, x);
        assert(r == seq![s[0]] + q);
        assert forall|k: int| 0 <= k < r.len() implies #[trigger] r[k] == x || s.contains(r[k]) by {
            if k == 0 {
                assert(s[0] == r[0]);
            } else {
                assert(r[k] == q[k - 1]);
                if q[k - 1] != x {
                    let m = choose|m: int| 0 <= m < t.len() && t[m] == q[k - 1];
                    assert(s[m + 1] == r[k]);
                }
            }
        }
        assert forall|i: int, j: int| 0 <= i < j < r.len() implies !chars_lt(#[trigger] r[j], #[trigger] r[i]) by {
            if i == 0 {
                assert(r[j] == q[j - 1]);
                if q[j - 1] != x {
                    let m = choose|m: int| 0 <= m < t.len() && t[m] == q[j - 1];
                    assert(s[m + 1] == r[j]);
                }
            } else {
                assert(r[i] == q[i - 1] && r[j] == q[j - 1]);
            }
        }
        assert forall|k: int| 0 <= k < r.len() implies good_word(#[trigger] r[k]) by {
            if k > 0 {
                assert(r[k] == q[k - 1]);
            }
        }
    }
}

proof fn lemma_sort_props(ws: Seq<Seq<char>>)
    requires
        all_good(ws),
    ensures
        sorted_words(sort_words(ws)),
        all_good(sort_words(ws)),
    decreases ws.len(),
{
    if ws.len() > 0 {
        let p = ws.drop_last();
        assert forall|k: int| 0 <= k < p.len() implies good_word(#[trigger] p[k]) by {
            assert(p[k] == ws[k]);
        }
        lemma_sort_props(p);
        lemma_insert_sorted_props(sort_words(p), ws.last());
    }
}

proof fn lemma_insert_sorted_last(s: Seq<Seq<char>>, x: Seq<char>)
    requires
        forall|i: int| 0 <= i < s.len() ==> !chars_lt(x, #[trigger] s[i]),
    ensures
        insert_sorted(s, x) == s.push(x),
    decreases s.len(),
{
    if s.len() > 0 {
        let t = s.drop_first();
        assert forall|i: int| 0 <= i < t.len() implies !chars_lt(x, #[trigger] t[i]) by {
            assert(t[i] == s[i + 1]);
        }
        lemma_insert_sorted_last(t, x);
        assert(s.push(x) =~= seq![s[0]] + t.push(x));
    } else {
        assert(s.push(x) =~= seq![x]);
    }
}

proof fn lemma_sort_sorted(ws: Seq<Seq<char>>)
    requires
        sorted_words(ws),
    ensures
        sort_words(ws) == ws,
    decreases ws.len(),
{
    if ws.len() > 0 {
        let p = ws.drop_last();
        assert(sorted_words(p)) by {
            assert forall|i: int, j: int| 0 <= i < j < p.len() implies !chars_lt(#[trigger] p[j], #[trigger] p[i]) by {
                assert(p[i] == ws[i] && p[j] == ws[j]);
            }
        }
        lemma_sort_sorted(p);
        assert forall|i: int| 0 <= i < p.len() implies !chars_lt(ws.last(), #[trigger] p[i]) by {
            assert(p[i] == ws[i]);
            assert(!chars_lt(ws[ws.len() - 1], ws[i]));
        }
        lemma_insert_sorted_last(p, ws.last());
        assert(p.push(ws.last()) =~= ws);
    }
}

proof fn lemma_trimmed_identity(ws: Seq<Seq<char>>)
    requires
        all_good(ws),
    ensures
        trimmed_words(ws) == ws,
    decreases ws.len(),
{
    if ws.len() > 0 {
        let p = ws.drop_last();
        assert forall|k: int| 0 <= k < p.len() implies good_word(#[trigger] p[k]) by {
            assert(p[k] == ws[k]);
        }
        lemma_trimmed_identity(p);
        let w = ws.last();
        assert(good_word(w));
        assert(trim_start(w) == w);
        assert(trim_end(w) == w);
        assert(p.push(w) =~= ws);
    }
}

proof fn lemma_split_append(x: Seq<char>, w: Seq<char>)
    requires
        forall|i: int| 0 <= i < w.len() ==> !is_ws(#[trigger] w[i]),
    ensures
        split_state(x + w) == (split_state(x).0, split_state(x).1 + w),
    decreases w.len(),
{
    if w.len() == 0 {
        assert(x + w =~= x);
        assert(split_state(x).1 + w =~= split_state(x).1);
    } else {
        let p = w.drop_last();
        assert forall|i: int| 0 <= i < p.len() implies !is_ws(#[trigger] p[i]) by {
            assert(p[i] == w[i]);
        }
        lemma_split_append(x, p);
        assert((x + w).drop_last() =~= x + p);
        assert((x + w).last() == w.last());
        assert(!is_ws(w.last()));
        assert((split_state(x).1 + p).push(w.last()) =~= split_state(x).1 + w);
    }
}

proof fn lemma_split_join(g: Seq<Seq<char>>)
    requires
        g.len() > 0,
        all_good(g),
    ensures
        split_state(join_words(g)) == (g.drop_last(), g.last()),
    decreases g.len(),
{
    let w = g.last();
    assert(good_word(w));
    assert forall|i: int| 0 <= i < w.len() implies !is_ws(#[trigger] w[i]) by {
        assert(word_char(w[i]));
    }
    if g.len() == 1 {
        lemma_split_append(Seq::empty(), w);
        assert(Seq::<char>::empty() + w =~= w);
        assert(Seq::<char>::empty() + w =~= g[0]);
        assert(g.drop_last() =~= Seq::<Seq<char>>::empty());
    } else {
        let p = g.drop_last();
        assert forall|k: int| 0 <= k < p.len() implies good_word(#[trigger] p[k]) by {
            assert(p[k] == g[k]);
        }
        lemma_split_join(p);
        let x = join_words(p) + seq![' '];
        assert(x.drop_last() =~= join_words(p));
        assert(is_ws(' '));
        assert(good_word(p.last()));
        assert(p.drop_last().push(p.last()) =~= p);
        lemma_split_append(x, w);
        assert(join_words(g) == x + w);
        assert(Seq::<char>::empty() + w =~= w);
    }
}

proof fn lemma_join_plain(g: Seq<Seq<char>>)
    requires
        all_good(g),
    ensures
        forall|i: int| 0 <= i < join_words(g).len() ==> plain(#[trigger] join_words(g)[i]),
    decreases g.len(),
{
    if g.len() == 1 {
        assert(good_word(g[0]));
        assert forall|i: int| 0 <= i < join_words(g).len() implies plain(#[trigger] join_words(g)[i]) by {
            assert(word_char(g[0][i]));
        }
    } else if g.len() > 1 {
        let p = g.drop_last();
        assert forall|k: int| 0 <= k < p.len() implies good_word(#[trigger] p[k]) by {
            assert(p[k] == g[k]);
        }
        lemma_join_plain(p);
        let w = g.last();
        assert(good_word(w));
        let j = join_words(g);
        let jp = join_words(p);
        assert(j == jp + seq![' '] + w);
        assert forall|i: int| 0 <= i < j.len() implies plain(#[trigger] j[i]) by {
            if i < jp.len() {
                assert(j[i] == jp[i]);
            } else if i == jp.len() {
                assert(j[i] == ' ');
            } else {
                assert(j[i] == w[i - jp.len() - 1]);
                assert(word_char(w[i - jp.len() - 1]));
            }
        }
    }
}

/// Normalizing an ASCII text a second time changes nothing.
pub proof fn lemma_normalize_idempotent_ascii(s: Seq<char>)
    requires
        is_ascii_text(s),
    ensures
        normalized(normalized(s)) == normalized(s),
{
    let l = lower_all(s);
    lemma_lower_ascii(s);
    let x = seps_to_spaces(l);
    assert forall|i: int| 0 <= i < x.len() implies plain(#[trigger] x[i]) by {
        assert(lowered_char(l[i]));
    }
    lemma_split_words(x);
    let sp = split_ws(x);
    assert forall|k: int| 0 <= k < sp.len() implies word_chars(#[trigger] sp[k]) by {}
    lemma_trimmed_good(sp);
    let w = signature_words(s);
    lemma_sort_props(w);
    let g = sort_words(w);
    let n = join_words(g);
    lemma_join_plain(g);
    assert forall|i: int| 0 <= i < n.len() implies lowered_char(#[trigger] n[i]) by {
        assert(plain(n[i]));
    }
    lemma_lower_identity(n);
    assert(seps_to_spaces(n) =~= n) by {
        assert forall|i: int| 0 <= i < n.len() implies #[trigger] seps_to_spaces(n)[i] == n[i] by {
            assert(plain(n[i]));
        }
    }
    if g.len() > 0 {
        lemma_split_join(g);
        assert(g.drop_last().push(g.last()) =~= g);
        assert(split_ws(n) == g);
    } else {
        assert(n == Seq::<char>::empty());
        assert(split_ws(n) =~= g);
    }
    lemma_trimmed_identity(g);
    lemma_sort_sorted(g);
}

} // verus!
