//! The database text grammar and its parser.
//!
//! The text is read line by line. Five directives are recognised, each on a
//! line of its own (blanks are spaces, tabs and carriage returns):
//!
//! - `BO_ <id> <name>: <size> [<transmitter>]` declares a message;
//! - `SG_ <name> [M | m<value>] : <start>|<length>@<0|1><+|-> (<factor>,<offset>)
//!   [<min>|<max>] "<unit>" <receivers>` declares a signal of the message
//!   declared last;
//! - `BA_DEF_DEF_ "GenMsgCycleTime" <value>;` sets the default cycle time;
//! - `BA_ "GenMsgCycleTime" BO_ <id> <value>;` sets the cycle time of a message;
//! - `VAL_ <id> <signal> (<code> "<label>")* ;` gives value labels of a signal.
//!
//! Other lines, and lines that do not follow these shapes, are skipped. A
//! later message or signal of a name already declared replaces the earlier
//! one; so does a later label of a code. The first default cycle time and
//! the last cycle time of each message count.
use crate::model::{
    descriptions_view, messages_view, signals_view, strings_view, ByteOrder, Dbc, DbcView, Decimal,
    Error, id_written, MessageID, MessageView, Messages, MultiplexerType, Signal, SignalView, ValueType,
};
use crate::scan::{
    byte_at, checked_value, ident_at, ident_at_exec, ident_end, is_ident_byte, is_space,
    keyword_at, keyword_at_exec, lemma_scan_bounds, number_at, number_at_exec, punct_at,
    punct_at_exec, quoted_at, quoted_at_exec, skip_ws, skip_ws_exec, uint_at, uint_at_exec,
};
use crate::text::string_of;
use vstd::prelude::*;

verus! {

/// The text of a label or unit, decoded as UTF-8 with invalid sequences
/// replaced, as `String::from_utf8_lossy` does.
pub uninterp spec fn lossy_text(b: Seq<u8>) -> Seq<char>;

/// Relies on `String::from_utf8_lossy`: valid UTF-8 is decoded as it stands.
#[verifier::external_body]
fn lossy_string(b: &[u8]) -> (r: String)
    ensures
        r@ == lossy_text(b@),
        vstd::utf8::valid_utf8(b@) ==> r@ == vstd::utf8::decode_utf8(b@),
{
    String::from_utf8_lossy(b).into_owned()
}

/// ASCII bytes as characters.
pub open spec fn ascii_text(b: Seq<u8>) -> Seq<char> {
    b.map_values(|x: u8| x as char)
}

fn ascii_string(b: &Vec<u8>) -> (r: String)
    ensures
        r@ == ascii_text(b@),
{
    let mut v: Vec<char> = Vec::new();
    let mut i: usize = 0;
    while i < b.len()
        invariant
            i <= b.len(),
            v@ == ascii_text(b@.take(i as int)),
        decreases b.len() - i,
    {
        v.push(b[i] as char);
        i = i + 1;
        assert(v@ =~= ascii_text(b@.take(i as int)));
    }
    assert(b@.take(i as int) =~= b@);
    string_of(&v)
}

pub open spec fn kw_message() -> Seq<u8> {
    seq![66, 79, 95]
}

pub open spec fn kw_signal() -> Seq<u8> {
    seq![83, 71, 95]
}

pub open spec fn kw_default() -> Seq<u8> {
    seq![66, 65, 95, 68, 69, 70, 95, 68, 69, 70, 95]
}

pub open spec fn kw_attribute() -> Seq<u8> {
    seq![66, 65, 95]
}

pub open spec fn kw_values() -> Seq<u8> {
    seq![86, 65, 76, 95]
}

/// `GenMsgCycleTime`, the attribute that holds cycle times.
pub open spec fn cycle_attribute() -> Seq<u8> {
    seq![71, 101, 110, 77, 115, 103, 67, 121, 99, 108, 101, 84, 105, 109, 101]
}

/// Identifiers from 0x800 on are extended.
pub open spec fn message_id_of(id: u32) -> MessageID {
    if id < 0x800 {
        MessageID::Standard(id as u16)
    } else {
        MessageID::Extended(id)
    }
}

pub open spec fn message_line(l: Seq<u8>) -> Option<MessageView> {
    match keyword_at(l, skip_ws(l, 0), kw_message()) {
        None => None,
        Some(i1) => match uint_at(l, i1, u32::MAX as nat) {
            None => None,
            Some((id, i2)) => if !(i2 < l.len() && is_space(l[i2])) {
                None
            } else {
                match ident_at(l, skip_ws(l, i2)) {
                    None => None,
                    Some((name, i3)) => match punct_at(l, i3, 58) {
                        None => None,
                        Some(i4) => match uint_at(l, i4, u64::MAX as nat) {
                            None => None,
                            Some((size, i5)) => {
                                let tx = match ident_at(l, skip_ws(l, i5)) {
                                    Some((t, _)) => t,
                                    None => Seq::empty(),
                                };
                                Some(
                                    MessageView {
                                        name: ascii_text(name),
                                        id: message_id_of(id as u32),
                                        cycle_time: 0,
                                        size: size as u64,
                                        transmitter: ascii_text(tx),
                                        signals: Seq::empty(),
                                    },
                                )
                            },
                        },
                    },
                }
            },
        },
    }
}

/// The multiplexer marker before the colon of a signal line.
pub open spec fn mux_at(l: Seq<u8>, i: int) -> Option<(MultiplexerType, int)> {
    if 0 <= i < l.len() && l[i] == 58 {
        Some((MultiplexerType::NotMultiplexed, i))
    } else {
        match ident_at(l, i) {
            None => None,
            Some((t, j)) => if t == seq![77u8] {
                Some((MultiplexerType::Switch, skip_ws(l, j)))
            } else if t.len() > 1 && t[0] == 109 && (forall|k: int|
                1 <= k < t.len() ==> 48 <= #[trigger] t[k] <= 57) {
                match checked_value(t.drop_first(), u64::MAX as nat) {
                    Some(v) => Some((MultiplexerType::Multiplexed(v as u64), skip_ws(l, j))),
                    None => None,
                }
            } else {
                None
            },
        }
    }
}

/// Start bit, length, byte order and sign: `<start>|<length>@<0|1><+|->`.
pub open spec fn layout_at(l: Seq<u8>, i: int) -> Option<(u64, u64, ByteOrder, ValueType, int)> {
    match uint_at(l, i, u32::MAX as nat) {
        None => None,
        Some((start, i1)) => match byte_at(l, i1, 124) {
            None => None,
            Some(i2) => match uint_at(l, i2, u32::MAX as nat) {
                None => None,
                Some((len, i3)) => match byte_at(l, i3, 64) {
                    None => None,
                    Some(i4) => if i4 + 1 < l.len() && (l[i4] == 48 || l[i4] == 49) && (l[i4 + 1] == 43
                        || l[i4 + 1] == 45) {
                        let order = if l[i4] == 49 {
                            ByteOrder::LittleEndian
                        } else {
                            ByteOrder::BigEndian
                        };
                        let vt = if l[i4 + 1] == 43 {
                            ValueType::Unsigned
                        } else {
                            ValueType::Signed
                        };
                        Some((start as u64, len as u64, order, vt, i4 + 2))
                    } else {
                        None
                    },
                },
            },
        },
    }
}

/// Factor, offset, minimum and maximum: `(<factor>,<offset>) [<min>|<max>]`.
pub open spec fn scaling_at(l: Seq<u8>, i: int) -> Option<(Decimal, Decimal, Decimal, Decimal, int)> {
    match punct_at(l, i, 40) {
        None => None,
        Some(i1) => match number_at(l, i1) {
            None => None,
            Some((f, i2)) => match punct_at(l, i2, 44) {
                None => None,
                Some(i3) => match number_at(l, i3) {
                    None => None,
                    Some((o, i4)) => match punct_at(l, i4, 41) {
                        None => None,
                        Some(i5) => match punct_at(l, i5, 91) {
                            None => None,
                            Some(i6) => match number_at(l, i6) {
                                None => None,
                                Some((mn, i7)) => match punct_at(l, i7, 124) {
                                    None => None,
                                    Some(i8) => match number_at(l, i8) {
                                        None => None,
                                        Some((mx, i9)) => match punct_at(l, i9, 93) {
                                            None => None,
                                            Some(i10) => Some((f, o, mn, mx, i10)),
                                        },
                                    },
                                },
                            },
                        },
                    },
                },
            },
        },
    }
}

#[via_fn]
proof fn receivers_decreases(l: Seq<u8>, i: int) {
    if 0 <= i < l.len() && is_ident_byte(l[i]) {
        lemma_scan_bounds(l, i + 1);
        assert(ident_end(l, i) == ident_end(l, i + 1));
    }
}

/// The receiver names from `i` to the end of the line, separated by
/// blanks or commas; anything else ends the list.
pub open spec fn receivers_at(l: Seq<u8>, i: int) -> Seq<Seq<u8>>
    decreases l.len() - i
    via receivers_decreases
{
    if i < 0 || i >= l.len() {
        Seq::empty()
    } else if is_space(l[i]) || l[i] == 44 {
        receivers_at(l, i + 1)
    } else if is_ident_byte(l[i]) {
        let j = ident_end(l, i);
        seq![l.subrange(i, j)] + receivers_at(l, j)
    } else {
        Seq::empty()
    }
}

/// The least significant bit of a big-endian signal whose most significant
/// bit is `start`, under the sawtooth numbering of bits within bytes.
pub open spec fn big_endian_lsb(start: u64, len: u64) -> u64 {
    let t = (start / 8) * 8 + 7 - start % 8;
    let u = if len == 0 {
        t
    } else {
        t + len - 1
    };
    ((u / 8) * 8 + 7 - u % 8) as u64
}

pub open spec fn vector_start(start: u64, len: u64, order: ByteOrder) -> u64 {
    match order {
        ByteOrder::LittleEndian => start,
        ByteOrder::BigEndian => big_endian_lsb(start, len),
    }
}

pub open spec fn zero_decimal() -> Decimal {
    Decimal { negative: false, mantissa: 0, exponent: 0 }
}

pub open spec fn signal_line(l: Seq<u8>) -> Option<SignalView> {
    match keyword_at(l, skip_ws(l, 0), kw_signal()) {
        None => None,
        Some(i1) => match ident_at(l, i1) {
            None => None,
            Some((name, i2)) => match mux_at(l, skip_ws(l, i2)) {
                None => None,
                Some((mux, i3)) => match punct_at(l, i3, 58) {
                    None => None,
                    Some(i4) => match layout_at(l, i4) {
                        None => None,
                        Some((start, len, order, vt, i5)) => match scaling_at(l, i5) {
                            None => None,
                            Some((f, o, mn, mx, i6)) => match quoted_at(l, i6) {
                                None => None,
                                Some((unit, i7)) => Some(
                                    SignalView {
                                        name: ascii_text(name),
                                        start_bit: start,
                                        vector_start_bit: vector_start(start, len, order),
                                        signal_size: len,
                                        byte_order: order,
                                        value_type: vt,
                                        factor: f,
                                        offset: o,
                                        min: mn,
                                        max: mx,
                                        unit: lossy_text(unit),
                                        receivers: receivers_at(l, i7).map_values(
                                            |r: Seq<u8>| ascii_text(r),
                                        ),
                                        multiplexer_type: mux,
                                        initial_value: zero_decimal(),
                                        vector_initial_value: zero_decimal(),
                                        value_descriptions: Seq::empty(),
                                    },
                                ),
                            },
                        },
                    },
                },
            },
        },
    }
}

pub open spec fn default_cycle_line(l: Seq<u8>) -> Option<u32> {
    match keyword_at(l, skip_ws(l, 0), kw_default()) {
        None => None,
        Some(i1) => match quoted_at(l, i1) {
            None => None,
            Some((q, i2)) => if q != cycle_attribute() {
                None
            } else {
                match uint_at(l, skip_ws(l, i2), u32::MAX as nat) {
                    None => None,
                    Some((v, i3)) => match punct_at(l, i3, 59) {
                        None => None,
                        Some(_) => Some(v as u32),
                    },
                }
            },
        },
    }
}

pub open spec fn cycle_override_line(l: Seq<u8>) -> Option<(u32, u32)> {
    match keyword_at(l, skip_ws(l, 0), kw_attribute()) {
        None => None,
        Some(i1) => match quoted_at(l, i1) {
            None => None,
            Some((q, i2)) => if q != cycle_attribute() {
                None
            } else {
                match keyword_at(l, skip_ws(l, i2), kw_message()) {
                    None => None,
                    Some(i3) => match uint_at(l, i3, u32::MAX as nat) {
                        None => None,
                        Some((id, i4)) => match uint_at(l, skip_ws(l, i4), u32::MAX as nat) {
                            None => None,
                            Some((v, i5)) => match punct_at(l, i5, 59) {
                                None => None,
                                Some(_) => Some((id as u32, v as u32)),
                            },
                        },
                    },
                }
            },
        },
    }
}

#[via_fn]
proof fn entries_decreases(l: Seq<u8>, i: int) {
    if 0 <= i <= l.len() {
        lemma_scan_bounds(l, i);
        let j = skip_ws(l, i);
        lemma_scan_bounds(l, j);
        if let Some((c, k)) = uint_at(l, j, u64::MAX as nat) {
            lemma_scan_bounds(l, k);
            let k2 = skip_ws(l, k);
            if 0 <= k2 < l.len() {
                lemma_scan_bounds(l, k2 + 1);
            }
        }
    }
}

/// The `<code> "<label>"` pairs from `i` up to the closing semicolon.
pub open spec fn entries_at(l: Seq<u8>, i: int) -> Option<Seq<(u64, Seq<u8>)>>
    decreases l.len() - i
    via entries_decreases
{
    if i < 0 || i > l.len() {
        None
    } else {
        let j = skip_ws(l, i);
        if j < l.len() && l[j] == 59 {
            Some(Seq::empty())
        } else {
            match uint_at(l, j, u64::MAX as nat) {
                None => None,
                Some((c, k)) => match quoted_at(l, skip_ws(l, k)) {
                    None => None,
                    Some((t, m)) => match entries_at(l, m) {
                        None => None,
                        Some(rest) => Some(seq![(c as u64, t)] + rest),
                    },
                },
            }
        }
    }
}

pub open spec fn values_line(l: Seq<u8>) -> Option<(u32, Seq<char>, Seq<(u64, Seq<char>)>)> {
    match keyword_at(l, skip_ws(l, 0), kw_values()) {
        None => None,
        Some(i1) => match uint_at(l, i1, u32::MAX as nat) {
            None => None,
            Some((id, i2)) => match ident_at(l, skip_ws(l, i2)) {
                None => None,
                Some((name, i3)) => match entries_at(l, i3) {
                    None => None,
                    Some(es) => Some(
                        (
                            id as u32,
                            ascii_text(name),
                            es.map_values(|e: (u64, Seq<u8>)| (e.0, lossy_text(e.1))),
                        ),
                    ),
                },
            },
        },
    }
}

/// The position of the first element with key `k`, or the length when none has it.
pub open spec fn is_slot<T, K>(s: Seq<T>, key: spec_fn(T) -> K, k: K, i: int) -> bool {
    &&& 0 <= i <= s.len()
    &&& i < s.len() ==> key(s[i]) == k
    &&& forall|j: int| 0 <= j < i ==> key(#[trigger] s[j]) != k
}

pub open spec fn slot<T, K>(s: Seq<T>, key: spec_fn(T) -> K, k: K) -> int {
    choose|i: int| is_slot(s, key, k, i)
}

/// `x` in place of the first element with its key, or appended when none has it.
pub open spec fn put<T, K>(s: Seq<T>, key: spec_fn(T) -> K, x: T) -> Seq<T> {
    let i = slot(s, key, key(x));
    if i < s.len() {
        s.update(i, x)
    } else {
        s.push(x)
    }
}

pub proof fn lemma_slot<T, K>(s: Seq<T>, key: spec_fn(T) -> K, k: K, i: int)
    requires
        is_slot(s, key, k, i),
    ensures
        slot(s, key, k) == i,
{
    let c = slot(s, key, k);
    assert(is_slot(s, key, k, c));
    if c < i {
        assert(key(s[c]) != k);
    } else if c > i {
        assert(key(s[i]) != k);
    }
}

pub open spec fn message_key() -> spec_fn(MessageView) -> Seq<char> {
    |m: MessageView| m.name
}

pub open spec fn signal_key() -> spec_fn(SignalView) -> Seq<char> {
    |s: SignalView| s.name
}

pub open spec fn description_key() -> spec_fn((u64, Seq<char>)) -> u64 {
    |d: (u64, Seq<char>)| d.0
}

/// The state of a parse after some lines: the messages so far, the one that
/// signal lines go to, the default cycle time and the cycle-time overrides.
pub struct ParseState {
    pub messages: Seq<MessageView>,
    pub current: Option<int>,
    pub default_cycle: Option<u32>,
    pub overrides: Seq<(u32, u32)>,
}

pub open spec fn initial_state() -> ParseState {
    ParseState { messages: Seq::empty(), current: None, default_cycle: None, overrides: Seq::empty() }
}

/// The last message whose identifier is written as `id`.
pub open spec fn message_with_id(ms: Seq<MessageView>, id: u32) -> Option<int>
    decreases ms.len(),
{
    if ms.len() == 0 {
        None
    } else if id_written(ms.last().id) == id {
        Some(ms.len() - 1)
    } else {
        message_with_id(ms.drop_last(), id)
    }
}

/// The labels put one after the other.
pub open spec fn put_all(ds: Seq<(u64, Seq<char>)>, es: Seq<(u64, Seq<char>)>) -> Seq<(u64, Seq<char>)>
    decreases es.len(),
{
    if es.len() == 0 {
        ds
    } else {
        put(put_all(ds, es.drop_last()), description_key(), es.last())
    }
}

pub open spec fn apply_values(ms: Seq<MessageView>, id: u32, sn: Seq<char>, es: Seq<(u64, Seq<char>)>) -> Seq<MessageView> {
    match message_with_id(ms, id) {
        None => ms,
        Some(i) => {
            let m = ms[i];
            let k = slot(m.signals, signal_key(), sn);
            if k < m.signals.len() {
                let sg = m.signals[k];
                let sg2 = SignalView { value_descriptions: put_all(sg.value_descriptions, es), ..sg };
                ms.update(i, MessageView { signals: m.signals.update(k, sg2), ..m })
            } else {
                ms
            }
        },
    }
}

pub open spec fn apply_line(st: ParseState, l: Seq<u8>) -> ParseState {
    match message_line(l) {
        Some(m) => ParseState {
            messages: put(st.messages, message_key(), m),
            current: Some(slot(st.messages, message_key(), m.name)),
            ..st
        },
        None => match signal_line(l) {
            Some(sg) => match st.current {
                Some(c) => if 0 <= c < st.messages.len() {
                    let m = st.messages[c];
                    ParseState {
                        messages: st.messages.update(
                            c,
                            MessageView { signals: put(m.signals, signal_key(), sg), ..m },
                        ),
                        ..st
                    }
                } else {
                    st
                },
                None => st,
            },
            None => match default_cycle_line(l) {
                Some(v) => if st.default_cycle is None {
                    ParseState { default_cycle: Some(v), ..st }
                } else {
                    st
                },
                None => match cycle_override_line(l) {
                    Some(p) => ParseState { overrides: st.overrides.push(p), ..st },
                    None => match values_line(l) {
                        Some((id, sn, es)) => ParseState {
                            messages: apply_values(st.messages, id, sn, es),
                            ..st
                        },
                        None => st,
                    },
                },
            },
        },
    }
}

/// The end of the line that starts at `i`: the next newline, or the end of the text.
pub open spec fn line_end(t: Seq<u8>, i: int) -> int
    decreases t.len() - i,
{
    if 0 <= i < t.len() && t[i] != 10 {
        line_end(t, i + 1)
    } else {
        i
    }
}

#[via_fn]
proof fn fold_lines_decreases(t: Seq<u8>, i: int, st: ParseState) {
    if !(i < 0 || i >= t.len()) {
        lemma_line_end_bounds(t, i);
        assert(0 <= t.len() + 1 - (line_end(t, i) + 1) < t.len() + 1 - i);
    }
}

pub proof fn lemma_line_end_bounds(t: Seq<u8>, i: int)
    requires
        0 <= i <= t.len(),
    ensures
        i <= line_end(t, i) <= t.len(),
    decreases t.len() - i,
{
    if i < t.len() && t[i] != 10 {
        lemma_line_end_bounds(t, i + 1);
    }
}

/// The state after the lines from position `i` on.
pub open spec fn fold_lines(t: Seq<u8>, i: int, st: ParseState) -> ParseState
    decreases t.len() + 1 - i
    via fold_lines_decreases
{
    if i < 0 || i >= t.len() {
        st
    } else {
        let j = line_end(t, i);
        fold_lines(t, j + 1, apply_line(st, t.subrange(i, j)))
    }
}

/// The last override for the identifier written as `id`.
pub open spec fn override_for(ov: Seq<(u32, u32)>, id: u32) -> Option<u32>
    decreases ov.len(),
{
    if ov.len() == 0 {
        None
    } else if ov.last().0 == id {
        Some(ov.last().1)
    } else {
        override_for(ov.drop_last(), id)
    }
}

/// The cycle time of a message: its override, else the default, else zero.
pub open spec fn resolved_cycle(st: ParseState, id: MessageID) -> u32 {
    match override_for(st.overrides, id_written(id)) {
        Some(v) => v,
        None => match st.default_cycle {
            Some(d) => d,
            None => 0,
        },
    }
}

pub open spec fn resolved_messages(st: ParseState) -> Seq<MessageView> {
    st.messages.map_values(|m: MessageView| MessageView { cycle_time: resolved_cycle(st, m.id), ..m })
}

/// The database that a text describes, or `None` when it declares no message.
pub open spec fn parse_text(t: Seq<u8>) -> Option<DbcView> {
    let st = fold_lines(t, 0, initial_state());
    if st.messages.len() == 0 {
        None
    } else {
        Some(DbcView { messages: resolved_messages(st) })
    }
}

fn is_space_exec(b: u8) -> (r: bool)
    ensures
        r == is_space(b),
{
    b == 32 || b == 9 || b == 13
}

fn parse_message_line(l: &Vec<u8>) -> (r: Option<Messages>)
    ensures
        match r {
            Some(m) => message_line(l@) == Some(m@),
            None => message_line(l@) is None,
        },
{
    let i0 = skip_ws_exec(l, 0);
    let kw = vec![66u8, 79, 95];
    assert(kw@ =~= kw_message());
    let i1 = match keyword_at_exec(l, i0, &kw) {
        Some(j) => j,
        None => return None,
    };
    let (id, i2) = match uint_at_exec(l, i1, u32::MAX as u64) {
        Some(p) => p,
        None => return None,
    };
    if !(i2 < l.len() && is_space_exec(l[i2])) {
        return None;
    }
    let (name, i3) = match ident_at_exec(l, skip_ws_exec(l, i2)) {
        Some(p) => p,
        None => return None,
    };
    let i4 = match punct_at_exec(l, i3, 58) {
        Some(j) => j,
        None => return None,
    };
    let (size, i5) = match uint_at_exec(l, i4, u64::MAX) {
        Some(p) => p,
        None => return None,
    };
    let tx = match ident_at_exec(l, skip_ws_exec(l, i5)) {
        Some((t, _)) => t,
        None => Vec::new(),
    };
    let id32 = id as u32;
    let mid = if id32 < 0x800 {
        MessageID::Standard(id32 as u16)
    } else {
        MessageID::Extended(id32)
    };
    let m = Messages {
        messages_name: ascii_string(&name),
        messages_id: mid,
        cycle_time: 0,
        message_size: size,
        transmitter: ascii_string(&tx),
        signals: Vec::new(),
    };
    assert(signals_view(m.signals@) =~= Seq::<SignalView>::empty());
    assert(ascii_text(Seq::<u8>::empty()) =~= Seq::<char>::empty());
    Some(m)
}

proof fn lemma_digits_to_end(t: Seq<u8>, k: int)
    requires
        0 <= k <= t.len(),
    ensures
        (crate::scan::digits_end(t, k) == t.len()) <==> (forall|m: int|
            k <= m < t.len() ==> crate::scan::is_digit(#[trigger] t[m])),
    decreases t.len() - k,
{
    if k < t.len() {
        lemma_digits_to_end(t, k + 1);
        lemma_scan_bounds(t, k + 1);
    }
}

fn mux_at_exec(l: &Vec<u8>, i: usize) -> (r: Option<(MultiplexerType, usize)>)
    requires
        i <= l.len(),
    ensures
        match r {
            Some((x, j)) => mux_at(l@, i as int) == Some((x, j as int)) && j <= l.len(),
            None => mux_at(l@, i as int) is None,
        },
{
    if i < l.len() && l[i] == 58 {
        return Some((MultiplexerType::NotMultiplexed, i));
    }
    let (t, j) = match ident_at_exec(l, i) {
        Some(p) => p,
        None => return None,
    };
    if t.len() == 1 && t[0] == 77 {
        assert(t@ =~= seq![77u8]);
        return Some((MultiplexerType::Switch, skip_ws_exec(l, j)));
    }
    assert(t@ != seq![77u8]);
    if !(t.len() > 1 && t[0] == 109) {
        return None;
    }
    proof {
        lemma_digits_to_end(t@, 1);
        assert(t@.subrange(1, t.len() as int) =~= t@.drop_first());
    }
    match uint_at_exec(&t, 1, u64::MAX) {
        Some((v, e)) => {
            if e == t.len() {
                Some((MultiplexerType::Multiplexed(v), skip_ws_exec(l, j)))
            } else {
                None
            }
        },
        None => {
            proof {
                lemma_scan_bounds(t@, 2);
                if crate::scan::digits_end(t@, 1) == 1 {
                    assert(!crate::scan::is_digit(t@[1]));
                }
            }
            None
        },
    }
}

fn layout_at_exec(l: &Vec<u8>, i: usize) -> (r: Option<(u64, u64, ByteOrder, ValueType, usize)>)
    requires
        i <= l.len(),
    ensures
        match r {
            Some((a, b, c, d, j)) => layout_at(l@, i as int) == Some((a, b, c, d, j as int)) && j <= l.len()
                && a <= u32::MAX && b <= u32::MAX,
            None => layout_at(l@, i as int) is None,
        },
{
    let (start, i1) = match uint_at_exec(l, i, u32::MAX as u64) {
        Some(p) => p,
        None => return None,
    };
    if !(i1 < l.len() && l[i1] == 124) {
        return None;
    }
    let (len, i3) = match uint_at_exec(l, i1 + 1, u32::MAX as u64) {
        Some(p) => p,
        None => return None,
    };
    if !(i3 < l.len() && l[i3] == 64) {
        return None;
    }
    let i4 = i3 + 1;
    if !(i4 < l.len() && i4 + 1 < l.len() && (l[i4] == 48 || l[i4] == 49) && (l[i4 + 1] == 43 || l[i4 + 1] == 45)) {
        return None;
    }
    let order = if l[i4] == 49 {
        ByteOrder::LittleEndian
    } else {
        ByteOrder::BigEndian
    };
    let vt = if l[i4 + 1] == 43 {
        ValueType::Unsigned
    } else {
        ValueType::Signed
    };
    Some((start, len, order, vt, i4 + 2))
}

fn scaling_at_exec(l: &Vec<u8>, i: usize) -> (r: Option<(Decimal, Decimal, Decimal, Decimal, usize)>)
    requires
        i <= l.len(),
    ensures
        match r {
            Some((a, b, c, d, j)) => scaling_at(l@, i as int) == Some((a, b, c, d, j as int)) && j <= l.len(),
            None => scaling_at(l@, i as int) is None,
        },
{
    let i1 = match punct_at_exec(l, i, 40) {
        Some(j) => j,
        None => return None,
    };
    let (f, i2) = match number_at_exec(l, i1) {
        Some(p) => p,
        None => return None,
    };
    let i3 = match punct_at_exec(l, i2, 44) {
        Some(j) => j,
        None => return None,
    };
    let (o, i4) = match number_at_exec(l, i3) {
        Some(p) => p,
        None => return None,
    };
    let i5 = match punct_at_exec(l, i4, 41) {
        Some(j) => j,
        None => return None,
    };
    let i6 = match punct_at_exec(l, i5, 91) {
        Some(j) => j,
        None => return None,
    };
    let (mn, i7) = match number_at_exec(l, i6) {
        Some(p) => p,
        None => return None,
    };
    let i8 = match punct_at_exec(l, i7, 124) {
        Some(j) => j,
        None => return None,
    };
    let (mx, i9) = match number_at_exec(l, i8) {
        Some(p) => p,
        None => return None,
    };
    let i10 = match punct_at_exec(l, i9, 93) {
        Some(j) => j,
        None => return None,
    };
    Some((f, o, mn, mx, i10))
}

fn receivers_exec(l: &Vec<u8>, i: usize) -> (r: Vec<String>)
    requires
        i <= l.len(),
    ensures
        strings_view(r@) == receivers_at(l@, i as int).map_values(|x: Seq<u8>| ascii_text(x)),
{
    let ghost f = |x: Seq<u8>| ascii_text(x);
    let mut out: Vec<String> = Vec::new();
    let mut k = i;
    assert(strings_view(out@) =~= Seq::<Seq<char>>::empty());
    assert(receivers_at(l@, i as int).map_values(f) =~= strings_view(out@) + receivers_at(
        l@,
        k as int,
    ).map_values(f));
    while k < l.len()
        invariant
            i <= k <= l.len(),
            f == (|x: Seq<u8>| ascii_text(x)),
            receivers_at(l@, i as int).map_values(f) == strings_view(out@) + receivers_at(
                l@,
                k as int,
            ).map_values(f),
        decreases l.len() - k,
    {
        let b = l[k];
        if is_space_exec(b) || b == 44 {
            k = k + 1;
        } else if (65 <= b && b <= 90) || (97 <= b && b <= 122) || (48 <= b && b <= 57) || b == 95 {
            proof {
                lemma_scan_bounds(l@, k + 1);
                assert(ident_end(l@, k as int) == ident_end(l@, k + 1));
            }
            let (name, j) = match ident_at_exec(l, k) {
                Some(p) => p,
                None => {
                    return out;
                },
            };
            let ghost ov = strings_view(out@);
            let ghost rest = receivers_at(l@, j as int).map_values(f);
            let sname = ascii_string(&name);
            out.push(sname);
            assert(strings_view(out@) =~= ov.push(ascii_text(name@)));
            assert(receivers_at(l@, k as int) == seq![name@] + receivers_at(l@, j as int));
            assert((seq![name@] + receivers_at(l@, j as int)).map_values(f) =~= seq![ascii_text(name@)]
                + rest);
            k = j;
        } else {
            assert(receivers_at(l@, k as int) =~= Seq::<Seq<u8>>::empty());
            assert(receivers_at(l@, i as int).map_values(f) =~= strings_view(out@));
            return out;
        }
    }
    assert(receivers_at(l@, k as int).map_values(f) =~= Seq::<Seq<char>>::empty());
    assert(receivers_at(l@, i as int).map_values(f) =~= strings_view(out@));
    out
}

fn parse_signal_line(l: &Vec<u8>) -> (r: Option<Signal>)
    ensures
        match r {
            Some(sg) => signal_line(l@) == Some(sg@),
            None => signal_line(l@) is None,
        },
{
    let i0 = skip_ws_exec(l, 0);
    let kw = vec![83u8, 71, 95];
    assert(kw@ =~= kw_signal());
    let i1 = match keyword_at_exec(l, i0, &kw) {
        Some(j) => j,
        None => return None,
    };
    let (name, i2) = match ident_at_exec(l, i1) {
        Some(p) => p,
        None => return None,
    };
    let (mux, i3) = match mux_at_exec(l, skip_ws_exec(l, i2)) {
        Some(p) => p,
        None => return None,
    };
    let i4 = match punct_at_exec(l, i3, 58) {
        Some(j) => j,
        None => return None,
    };
    let (start, len, order, vt, i5) = match layout_at_exec(l, i4) {
        Some(p) => p,
        None => return None,
    };
    let (f, o, mn, mx, i6) = match scaling_at_exec(l, i5) {
        Some(p) => p,
        None => return None,
    };
    let (unit, i7) = match quoted_at_exec(l, i6) {
        Some(p) => p,
        None => return None,
    };
    let receivers = receivers_exec(l, i7);
    let vstart = match order {
        ByteOrder::LittleEndian => start,
        ByteOrder::BigEndian => big_endian_lsb_exec(start, len),
    };
    let sg = Signal {
        name: ascii_string(&name),
        start_bit: start,
        vector_start_bit: vstart,
        signal_size: len,
        byte_order: order,
        value_type: vt,
        factor: f,
        offset: o,
        min: mn,
        max: mx,
        unit: lossy_string(unit.as_slice()),
        receivers,
        multiplexer_type: mux,
        initial_value: Decimal { negative: false, mantissa: 0, exponent: 0 },
        vector_initial_value: Decimal { negative: false, mantissa: 0, exponent: 0 },
        value_descriptions: Vec::new(),
    };
    assert(descriptions_view(sg.value_descriptions@) =~= Seq::<(u64, Seq<char>)>::empty());
    Some(sg)
}

/// The least significant bit of a big-endian signal, both values within 32 bits.
pub fn big_endian_lsb_exec(start: u64, len: u64) -> (r: u64)
    requires
        start <= u32::MAX,
        len <= u32::MAX,
    ensures
        r == big_endian_lsb(start, len),
{
    let t = (start / 8) * 8 + 7 - start % 8;
    let u = if len == 0 {
        t
    } else {
        t + len - 1
    };
    (u / 8) * 8 + 7 - u % 8
}

fn bytes_equal(a: &Vec<u8>, b: &Vec<u8>) -> (r: bool)
    ensures
        r == (a@ == b@),
{
    if a.len() != b.len() {
        return false;
    }
    let mut i: usize = 0;
    while i < a.len()
        invariant
            i <= a.len(),
            a.len() == b.len(),
            a@.take(i as int) == b@.take(i as int),
        decreases a.len() - i,
    {
        if a[i] != b[i] {
            return false;
        }
        assert(a@.take(i + 1) =~= a@.take(i as int).push(a[i as int]));
        assert(b@.take(i + 1) =~= b@.take(i as int).push(b[i as int]));
        i = i + 1;
    }
    assert(a@ =~= a@.take(i as int));
    assert(b@ =~= b@.take(i as int));
    true
}

fn cycle_attribute_exec() -> (r: Vec<u8>)
    ensures
        r@ == cycle_attribute(),
{
    let v = vec![71u8, 101, 110, 77, 115, 103, 67, 121, 99, 108, 101, 84, 105, 109, 101];
    assert(v@ =~= cycle_attribute());
    v
}

fn parse_default_cycle_line(l: &Vec<u8>) -> (r: Option<u32>)
    ensures
        r == default_cycle_line(l@),
{
    let kw = vec![66u8, 65, 95, 68, 69, 70, 95, 68, 69, 70, 95];
    assert(kw@ =~= kw_default());
    let i1 = match keyword_at_exec(l, skip_ws_exec(l, 0), &kw) {
        Some(j) => j,
        None => return None,
    };
    let (q, i2) = match quoted_at_exec(l, i1) {
        Some(p) => p,
        None => return None,
    };
    if !bytes_equal(&q, &cycle_attribute_exec()) {
        return None;
    }
    let (v, i3) = match uint_at_exec(l, skip_ws_exec(l, i2), u32::MAX as u64) {
        Some(p) => p,
        None => return None,
    };
    match punct_at_exec(l, i3, 59) {
        Some(_) => Some(v as u32),
        None => None,
    }
}

fn parse_cycle_override_line(l: &Vec<u8>) -> (r: Option<(u32, u32)>)
    ensures
        r == cycle_override_line(l@),
{
    let kw = vec![66u8, 65, 95];
    assert(kw@ =~= kw_attribute());
    let i1 = match keyword_at_exec(l, skip_ws_exec(l, 0), &kw) {
        Some(j) => j,
        None => return None,
    };
    let (q, i2) = match quoted_at_exec(l, i1) {
        Some(p) => p,
        None => return None,
    };
    if !bytes_equal(&q, &cycle_attribute_exec()) {
        return None;
    }
    let kw2 = vec![66u8, 79, 95];
    assert(kw2@ =~= kw_message());
    let i3 = match keyword_at_exec(l, skip_ws_exec(l, i2), &kw2) {
        Some(j) => j,
        None => return None,
    };
    let (id, i4) = match uint_at_exec(l, i3, u32::MAX as u64) {
        Some(p) => p,
        None => return None,
    };
    let (v, i5) = match uint_at_exec(l, skip_ws_exec(l, i4), u32::MAX as u64) {
        Some(p) => p,
        None => return None,
    };
    match punct_at_exec(l, i5, 59) {
        Some(_) => Some((id as u32, v as u32)),
        None => None,
    }
}

pub open spec fn lossy_entries(es: Seq<(u64, Seq<u8>)>) -> Seq<(u64, Seq<char>)> {
    es.map_values(|e: (u64, Seq<u8>)| (e.0, lossy_text(e.1)))
}

fn entries_exec(l: &Vec<u8>, i: usize) -> (r: Option<Vec<(u64, String)>>)
    requires
        i <= l.len(),
    ensures
        match r {
            Some(v) => entries_at(l@, i as int) matches Some(es) && descriptions_view(v@) == lossy_entries(es),
            None => entries_at(l@, i as int) is None,
        },
{
    let mut out: Vec<(u64, String)> = Vec::new();
    let ghost mut acc: Seq<(u64, Seq<u8>)> = Seq::empty();
    let mut k = i;
    assert(descriptions_view(out@) =~= lossy_entries(acc));
    assert(entries_at(l@, i as int) == match entries_at(l@, k as int) {
        Some(rest) => Some(acc + rest),
        None => None,
    }) by {
        if let Some(rest) = entries_at(l@, k as int) {
            assert(acc + rest =~= rest);
        }
    }
    loop
        invariant
            i <= k <= l.len(),
            descriptions_view(out@) == lossy_entries(acc),
            entries_at(l@, i as int) == match entries_at(l@, k as int) {
                Some(rest) => Some(acc + rest),
                None => None,
            },
        decreases l.len() - k,
    {
        let j = skip_ws_exec(l, k);
        if j < l.len() && l[j] == 59 {
            assert(acc + Seq::<(u64, Seq<u8>)>::empty() =~= acc);
            return Some(out);
        }
        let (c, k2) = match uint_at_exec(l, j, u64::MAX) {
            Some(p) => p,
            None => return None,
        };
        let p0 = skip_ws_exec(l, k2);
        let (t, m) = match quoted_at_exec(l, p0) {
            Some(p) => p,
            None => return None,
        };
        proof {
            lemma_scan_bounds(l@, k as int);
            lemma_scan_bounds(l@, j as int);
            lemma_scan_bounds(l@, k2 as int);
            lemma_scan_bounds(l@, p0 + 1);
            assert(m > k);
            if let Some(rest) = entries_at(l@, m as int) {
                assert(acc + (seq![(c as u64, t@)] + rest) =~= acc.push((c as u64, t@)) + rest);
            }
        }
        let ghost ov = descriptions_view(out@);
        let text = lossy_string(t.as_slice());
        out.push((c, text));
        proof {
            acc = acc.push((c as u64, t@));
            assert(descriptions_view(out@) =~= ov.push((c, lossy_text(t@))));
            assert(lossy_entries(acc) =~= ov.push((c, lossy_text(t@))));
        }
        k = m;
    }
}

fn parse_values_line(l: &Vec<u8>) -> (r: Option<(u32, String, Vec<(u64, String)>)>)
    ensures
        match r {
            Some((id, sn, es)) => values_line(l@) == Some((id, sn@, descriptions_view(es@))),
            None => values_line(l@) is None,
        },
{
    let kw = vec![86u8, 65, 76, 95];
    assert(kw@ =~= kw_values());
    let i1 = match keyword_at_exec(l, skip_ws_exec(l, 0), &kw) {
        Some(j) => j,
        None => return None,
    };
    let (id, i2) = match uint_at_exec(l, i1, u32::MAX as u64) {
        Some(p) => p,
        None => return None,
    };
    let (name, i3) = match ident_at_exec(l, skip_ws_exec(l, i2)) {
        Some(p) => p,
        None => return None,
    };
    match entries_exec(l, i3) {
        Some(es) => Some((id as u32, ascii_string(&name), es)),
        None => None,
    }
}

fn put_message(ms: &mut Vec<Messages>, m: Messages) -> (k: usize)
    ensures
        messages_view(final(ms)@) == put(messages_view(old(ms)@), message_key(), m@),
        k as int == slot(messages_view(old(ms)@), message_key(), m@.name),
        k < final(ms)@.len(),
{
    let ghost mv = messages_view(ms@);
    let mut k: usize = 0;
    while k < ms.len() && ms[k].messages_name != m.messages_name
        invariant
            k <= ms.len(),
            mv == messages_view(ms@),
            ms@ == old(ms)@,
            forall|j: int| 0 <= j < k ==> message_key()(#[trigger] mv[j]) != m@.name,
        decreases ms.len() - k,
    {
        k = k + 1;
    }
    proof {
        assert(is_slot(mv, message_key(), m@.name, k as int));
        lemma_slot(mv, message_key(), m@.name, k as int);
        assert(message_key()(m@) == m@.name);
    }
    let ghost v = m@;
    if k < ms.len() {
        ms.set(k, m);
        assert(messages_view(ms@) =~= mv.update(k as int, v));
    } else {
        ms.push(m);
        assert(messages_view(ms@) =~= mv.push(v));
    }
    k
}

fn put_signal(ss: &mut Vec<Signal>, sg: Signal)
    ensures
        signals_view(final(ss)@) == put(signals_view(old(ss)@), signal_key(), sg@),
{
    let ghost sv = signals_view(ss@);
    let mut k: usize = 0;
    while k < ss.len() && ss[k].name != sg.name
        invariant
            k <= ss.len(),
            sv == signals_view(ss@),
            ss@ == old(ss)@,
            forall|j: int| 0 <= j < k ==> signal_key()(#[trigger] sv[j]) != sg@.name,
        decreases ss.len() - k,
    {
        k = k + 1;
    }
    proof {
        assert(is_slot(sv, signal_key(), sg@.name, k as int));
        lemma_slot(sv, signal_key(), sg@.name, k as int);
        assert(signal_key()(sg@) == sg@.name);
    }
    let ghost v = sg@;
    if k < ss.len() {
        ss.set(k, sg);
        assert(signals_view(ss@) =~= sv.update(k as int, v));
    } else {
        ss.push(sg);
        assert(signals_view(ss@) =~= sv.push(v));
    }
}

fn put_description(ds: &mut Vec<(u64, String)>, e: (u64, String))
    ensures
        descriptions_view(final(ds)@) == put(descriptions_view(old(ds)@), description_key(), (e.0, e.1@)),
{
    let ghost dv = descriptions_view(ds@);
    let mut k: usize = 0;
    while k < ds.len() && ds[k].0 != e.0
        invariant
            k <= ds.len(),
            dv == descriptions_view(ds@),
            ds@ == old(ds)@,
            forall|j: int| 0 <= j < k ==> description_key()(#[trigger] dv[j]) != e.0,
        decreases ds.len() - k,
    {
        k = k + 1;
    }
    let ghost v = (e.0, e.1@);
    proof {
        assert(is_slot(dv, description_key(), e.0, k as int));
        lemma_slot(dv, description_key(), e.0, k as int);
        assert(description_key()(v) == e.0);
    }
    if k < ds.len() {
        ds.set(k, e);
        assert(descriptions_view(ds@) =~= dv.update(k as int, v));
    } else {
        ds.push(e);
        assert(descriptions_view(ds@) =~= dv.push(v));
    }
}

fn put_all_descriptions(ds: &mut Vec<(u64, String)>, es: Vec<(u64, String)>)
    ensures
        descriptions_view(final(ds)@) == put_all(descriptions_view(old(ds)@), descriptions_view(es@)),
{
    let ghost ev = descriptions_view(es@);
    let mut rest = es;
    let mut i: usize = 0;
    let n = rest.len();
    assert(descriptions_view(rest@) =~= ev.skip(0));
    assert(ev.take(0) =~= Seq::<(u64, Seq<char>)>::empty());
    while i < n
        invariant
            n == ev.len(),
            i <= n,
            descriptions_view(rest@) == ev.skip(i as int),
            descriptions_view(ds@) == put_all(descriptions_view(old(ds)@), ev.take(i as int)),
        decreases n - i,
    {
        assert(descriptions_view(rest@).len() == rest@.len());
        let ghost before = rest@;
        let e = rest.remove(0);
        assert(rest@ =~= before.subrange(1, before.len() as int));
        assert((e.0, e.1@) == ev[i as int]) by {
            assert(descriptions_view(before)[0] == ev.skip(i as int)[0]);
        }
        assert forall|j: int| 0 <= j < rest@.len() implies #[trigger] descriptions_view(rest@)[j] == ev.skip(
            i + 1,
        )[j] by {
            assert(rest@[j] == before[j + 1]);
            assert(descriptions_view(before)[j + 1] == ev.skip(i as int)[j + 1]);
        }
        assert(descriptions_view(rest@) =~= ev.skip(i + 1));
        put_description(ds, e);
        assert(ev.take(i + 1).drop_last() =~= ev.take(i as int));
        i = i + 1;
    }
    assert(ev.take(n as int) =~= ev);
}

fn written_id(id: MessageID) -> (r: u32)
    ensures
        r == id_written(id),
{
    match id {
        MessageID::Standard(v) => v as u32,
        MessageID::Extended(v) => v,
    }
}

fn message_with_id_exec(ms: &Vec<Messages>, id: u32) -> (r: Option<usize>)
    ensures
        match r {
            Some(i) => message_with_id(messages_view(ms@), id) == Some(i as int) && i < ms.len(),
            None => message_with_id(messages_view(ms@), id) is None,
        },
{
    let ghost mv = messages_view(ms@);
    let mut found: Option<usize> = None;
    let mut i: usize = 0;
    while i < ms.len()
        invariant
            i <= ms.len(),
            mv == messages_view(ms@),
            match found {
                Some(j) => j < i && message_with_id(mv.take(i as int), id) == Some(j as int),
                None => message_with_id(mv.take(i as int), id) is None,
            },
        decreases ms.len() - i,
    {
        proof {
            assert(mv.take(i + 1).drop_last() =~= mv.take(i as int));
            lemma_message_with_id_take(mv.take(i + 1), mv.take(i as int), id);
        }
        if written_id(ms[i].messages_id) == id {
            found = Some(i);
        }
        i = i + 1;
    }
    assert(mv.take(i as int) =~= mv);
    found
}

proof fn lemma_message_with_id_take(a: Seq<MessageView>, b: Seq<MessageView>, id: u32)
    requires
        a.len() > 0,
        a.drop_last() == b,
    ensures
        message_with_id(a, id) == (if id_written(a.last().id) == id {
            Some(a.len() - 1)
        } else {
            message_with_id(b, id)
        }),
{
}

/// The state of a parse in progress.
struct LineState {
    messages: Vec<Messages>,
    current: Option<usize>,
    default_cycle: Option<u32>,
    overrides: Vec<(u32, u32)>,
}

impl LineState {
    spec fn view(&self) -> ParseState {
        ParseState {
            messages: messages_view(self.messages@),
            current: match self.current {
                Some(c) => Some(c as int),
                None => None,
            },
            default_cycle: self.default_cycle,
            overrides: self.overrides@,
        }
    }
}

fn apply_values_exec(ms: &mut Vec<Messages>, id: u32, sn: &String, es: Vec<(u64, String)>)
    ensures
        messages_view(final(ms)@) == apply_values(messages_view(old(ms)@), id, sn@, descriptions_view(es@)),
{
    let ghost mv = messages_view(ms@);
    let i = match message_with_id_exec(ms, id) {
        Some(i) => i,
        None => return,
    };
    let ghost m = mv[i as int];
    let mut k: usize = 0;
    while k < ms[i].signals.len() && ms[i].signals[k].name != *sn
        invariant
            i < ms.len(),
            ms@ == old(ms)@,
            mv == messages_view(ms@),
            m == mv[i as int],
            k <= m.signals.len(),
            m.signals == signals_view(ms@[i as int].signals@),
            forall|j: int| 0 <= j < k ==> signal_key()(#[trigger] m.signals[j]) != sn@,
        decreases ms[i as int].signals.len() - k,
    {
        k = k + 1;
    }
    proof {
        assert(is_slot(m.signals, signal_key(), sn@, k as int));
        lemma_slot(m.signals, signal_key(), sn@, k as int);
    }
    if k == ms[i].signals.len() {
        return;
    }
    let mut msg = ms.remove(i);
    let mut sg = msg.signals.remove(k);
    put_all_descriptions(&mut sg.value_descriptions, es);
    let ghost sgv = sg@;
    msg.signals.insert(k, sg);
    assert(signals_view(msg.signals@) =~= m.signals.update(k as int, sgv));
    let ghost msgv = msg@;
    ms.insert(i, msg);
    assert(messages_view(ms@) =~= mv.update(i as int, msgv));
}

fn apply_line_exec(st: &mut LineState, l: &Vec<u8>)
    ensures
        final(st).view() == apply_line(old(st).view(), l@),
{
    match parse_message_line(l) {
        Some(m) => {
            let ghost mname = m@.name;
            let k = put_message(&mut st.messages, m);
            st.current = Some(k);
            return;
        },
        None => {},
    }
    match parse_signal_line(l) {
        Some(sg) => {
            match st.current {
                Some(c) => {
                    if c < st.messages.len() {
                        let ghost mv = messages_view(st.messages@);
                        let mut msg = st.messages.remove(c);
                        put_signal(&mut msg.signals, sg);
                        let ghost msgv = msg@;
                        st.messages.insert(c, msg);
                        assert(messages_view(st.messages@) =~= mv.update(c as int, msgv));
                    }
                },
                None => {},
            }
            return;
        },
        None => {},
    }
    match parse_default_cycle_line(l) {
        Some(v) => {
            if st.default_cycle.is_none() {
                st.default_cycle = Some(v);
            }
            return;
        },
        None => {},
    }
    match parse_cycle_override_line(l) {
        Some(p) => {
            st.overrides.push(p);
            return;
        },
        None => {},
    }
    match parse_values_line(l) {
        Some((id, sn, es)) => {
            apply_values_exec(&mut st.messages, id, &sn, es);
        },
        None => {},
    }
}

fn override_for_exec(ov: &Vec<(u32, u32)>, id: u32) -> (r: Option<u32>)
    ensures
        r == override_for(ov@, id),
{
    let mut found: Option<u32> = None;
    let mut i: usize = 0;
    while i < ov.len()
        invariant
            i <= ov.len(),
            found == override_for(ov@.take(i as int), id),
        decreases ov.len() - i,
    {
        assert(ov@.take(i + 1).drop_last() =~= ov@.take(i as int));
        if ov[i].0 == id {
            found = Some(ov[i].1);
        }
        i = i + 1;
    }
    assert(ov@.take(i as int) =~= ov@);
    found
}

/// Every message with its cycle time resolved.
fn resolve_cycles(st: LineState) -> (r: Vec<Messages>)
    ensures
        messages_view(r@) == resolved_messages(st.view()),
{
    let ghost sv = st.view();
    let ghost target = resolved_messages(sv);
    let LineState { messages: mut ms, current: _, default_cycle, overrides } = st;
    let mut i: usize = 0;
    while i < ms.len()
        invariant
            i <= ms.len(),
            ms@.len() == sv.messages.len(),
            sv.default_cycle == default_cycle,
            sv.overrides == overrides@,
            target == resolved_messages(sv),
            forall|j: int| 0 <= j < i ==> #[trigger] ms@[j]@ == target[j],
            forall|j: int| i <= j < ms@.len() ==> #[trigger] ms@[j]@ == sv.messages[j],
        decreases ms.len() - i,
    {
        let over = override_for_exec(&overrides, written_id(ms[i].messages_id));
        let c = match over {
            Some(v) => v,
            None => match default_cycle {
                Some(d) => d,
                None => 0,
            },
        };
        let ghost old_ms = ms@;
        let mut m = ms.remove(i);
        let ghost mv0 = m@;
        assert(mv0 == sv.messages[i as int]);
        assert(c == resolved_cycle(sv, mv0.id));
        m.cycle_time = c;
        assert(m@ == MessageView { cycle_time: resolved_cycle(sv, mv0.id), ..mv0 });
        ms.insert(i, m);
        assert(target[i as int] == MessageView { cycle_time: resolved_cycle(sv, mv0.id), ..mv0 });
        assert(ms@ =~= old_ms.update(i as int, ms@[i as int]));
        i = i + 1;
    }
    assert(messages_view(ms@) =~= target);
    ms
}

/// The messages of a database text, or none when it declares no message.
fn parse_messages(dbc_input: &[u8]) -> (r: Vec<Messages>)
    ensures
        match parse_text(dbc_input@) {
            Some(d) => messages_view(r@) == d.messages,
            None => r@.len() == 0,
        },
{
    let mut st = LineState { messages: Vec::new(), current: None, default_cycle: None, overrides: Vec::new() };
    assert(st.view().messages =~= initial_state().messages);
    assert(st.view().overrides =~= initial_state().overrides);
    let ghost t = dbc_input@;
    let n = dbc_input.len();
    let mut i: usize = 0;
    while i < n
        invariant
            i <= n,
            n == t.len(),
            t == dbc_input@,
            fold_lines(t, 0, initial_state()) == fold_lines(t, i as int, st.view()),
        decreases n - i,
    {
        let mut line: Vec<u8> = Vec::new();
        let mut j = i;
        while j < n && dbc_input[j] != 10
            invariant
                i <= j <= n,
                n == t.len(),
                t == dbc_input@,
                line_end(t, i as int) == line_end(t, j as int),
                line@ == t.subrange(i as int, j as int),
            decreases n - j,
        {
            line.push(dbc_input[j]);
            j = j + 1;
            assert(line@ =~= t.subrange(i as int, j as int));
        }
        apply_line_exec(&mut st, &line);
        if j == n {
            assert(fold_lines(t, j + 1, st.view()) == st.view());
            i = n;
            assert(fold_lines(t, i as int, st.view()) == st.view());
        } else {
            i = j + 1;
        }
    }
    assert(fold_lines(t, i as int, st.view()) == st.view());
    if st.messages.len() == 0 {
        return Vec::new();
    }
    resolve_cycles(st)
}

impl Dbc {
    /// Parses a database text given as UTF-8.
    pub fn from_slice(buffer: &[u8]) -> (r: Result<Dbc, Error>)
        requires
            vstd::utf8::valid_utf8(buffer@),
        ensures
            match r {
                Ok(d) => parse_text(buffer@) == Some(d@),
                Err(_) => parse_text(buffer@) is None,
            },
    {
        Self::parse(buffer)
    }

    /// Parses a database text; invalid UTF-8 in labels and units is replaced.
    pub fn from_slice_lossy(buffer: &[u8]) -> (r: Result<Dbc, Error>)
        ensures
            match r {
                Ok(d) => parse_text(buffer@) == Some(d@),
                Err(_) => parse_text(buffer@) is None,
            },
    {
        Self::parse(buffer)
    }

    /// Parses a database text: an error when it declares no message.
    pub fn parse(dbc_input: &[u8]) -> (r: Result<Dbc, Error>)
        ensures
            match r {
                Ok(d) => parse_text(dbc_input@) == Some(d@),
                Err(_) => parse_text(dbc_input@) is None,
            },
    {
        let messages = parse_messages(dbc_input);
        if messages.len() == 0 {
            proof {
                if let Some(d) = parse_text(dbc_input@) {
                    assert(messages_view(messages@).len() == 0);
                }
            }
            return Err(Error::Invalid(Dbc { messages }, lossy_string(dbc_input)));
        }
        let d = Dbc { messages };
        assert(d@ =~= DbcView { messages: messages_view(d.messages@) });
        Ok(d)
    }
}

} // verus!
