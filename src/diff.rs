//! Structural comparison of two databases into an ordered list of
//! difference records.
//!
//! Messages are visited in ordinal order of their names, the union of both
//! sides; signals likewise within a message; value-table entries in
//! increasing order of their codes. A key present on one side only gives an
//! `Exists` record; a key present on both gives one record per differing
//! field, in a fixed order.
use crate::model::{
    descriptions_view, id_kind_spec, id_raw_spec, messages_view, signals_view, strings_view, ByteOrder,
    Dbc, DbcView, Decimal, MessageID, MessageView, Messages, MultiplexerType, Signal, SignalView, ValueType,
};
use crate::order::{
    code_order, insert_code, insert_name, lemma_code_order, lemma_name_order, lemma_push_to_set,
    lemma_sorted_enumeration, name_order, sorted_enumeration, strictly_sorted, vviews,
};
use crate::similarity::{descriptions_match, equivalent};
use crate::text::{
    blank, chars_of, decimal_string, decimal_text, decimal_to_string, digits, hex_string, is_blank,
    string_from, string_of,
};
use vstd::prelude::*;

verus! {

/// Whether a record concerns a message or a signal.
#[derive(Copy, Clone, Debug, PartialEq, Eq, Structural)]
pub enum ResultType {
    Message,
    Signal,
}

/// One difference: where it is, which field, and the value on each side.
#[derive(Clone, Debug, PartialEq)]
pub struct ComparisonResult {
    pub result_type: ResultType,
    pub message: String,
    pub signal: String,
    pub field: String,
    pub dbc1: String,
    pub dbc2: String,
}

pub struct RecordView {
    pub kind: ResultType,
    pub message: Seq<char>,
    pub signal: Seq<char>,
    pub field: Seq<char>,
    pub dbc1: Seq<char>,
    pub dbc2: Seq<char>,
}

impl View for ComparisonResult {
    type V = RecordView;

    open spec fn view(&self) -> RecordView {
        RecordView {
            kind: self.result_type,
            message: self.message@,
            signal: self.signal@,
            field: self.field@,
            dbc1: self.dbc1@,
            dbc2: self.dbc2@,
        }
    }
}

pub open spec fn rviews(s: Seq<ComparisonResult>) -> Seq<RecordView> {
    s.map_values(|r: ComparisonResult| r@)
}

pub open spec fn rec(
    kind: ResultType,
    message: Seq<char>,
    signal: Seq<char>,
    field: Seq<char>,
    dbc1: Seq<char>,
    dbc2: Seq<char>,
) -> RecordView {
    RecordView { kind, message, signal, field, dbc1, dbc2 }
}

/// The same record with the two sides exchanged.
pub open spec fn mirror(r: RecordView) -> RecordView {
    RecordView { dbc1: r.dbc2, dbc2: r.dbc1, ..r }
}

pub open spec fn mirror_all(s: Seq<RecordView>) -> Seq<RecordView> {
    s.map_values(|r: RecordView| mirror(r))
}

pub open spec fn opt(cond: bool, r: RecordView) -> Seq<RecordView> {
    if cond {
        seq![r]
    } else {
        Seq::empty()
    }
}

/// The concatenation of record lists, in order.
pub open spec fn concat_all(s: Seq<Seq<RecordView>>) -> Seq<RecordView>
    decreases s.len(),
{
    if s.len() == 0 {
        Seq::empty()
    } else {
        concat_all(s.drop_last()) + s.last()
    }
}

/// The last message of that name.
pub open spec fn find_message(ms: Seq<MessageView>, n: Seq<char>) -> Option<MessageView>
    decreases ms.len(),
{
    if ms.len() == 0 {
        None
    } else if ms.last().name == n {
        Some(ms.last())
    } else {
        find_message(ms.drop_last(), n)
    }
}

/// The last signal of that name.
pub open spec fn find_signal(ss: Seq<SignalView>, n: Seq<char>) -> Option<SignalView>
    decreases ss.len(),
{
    if ss.len() == 0 {
        None
    } else if ss.last().name == n {
        Some(ss.last())
    } else {
        find_signal(ss.drop_last(), n)
    }
}

/// The label of the last value-table entry with that code.
pub open spec fn find_description(ds: Seq<(u64, Seq<char>)>, c: u64) -> Option<Seq<char>>
    decreases ds.len(),
{
    if ds.len() == 0 {
        None
    } else if ds.last().0 == c {
        Some(ds.last().1)
    } else {
        find_description(ds.drop_last(), c)
    }
}

pub open spec fn message_names(d: DbcView) -> Set<Seq<char>> {
    d.messages.map_values(|m: MessageView| m.name).to_set()
}

pub open spec fn signal_names(m: MessageView) -> Set<Seq<char>> {
    m.signals.map_values(|s: SignalView| s.name).to_set()
}

pub open spec fn description_codes(ds: Seq<(u64, Seq<char>)>) -> Set<u64> {
    ds.map_values(|p: (u64, Seq<char>)| p.0).to_set()
}

pub open spec fn exists_record(kind: ResultType, message: Seq<char>, signal: Seq<char>, first: bool) -> RecordView {
    if first {
        rec(kind, message, signal, "Exists"@, "Yes"@, "No"@)
    } else {
        rec(kind, message, signal, "Exists"@, "No"@, "Yes"@)
    }
}

/// The differing message-level fields of size, cycle time and transmitter.
pub open spec fn message_layout_diff(n: Seq<char>, m1: MessageView, m2: MessageView) -> Seq<RecordView> {
    let e = Seq::<char>::empty();
    let k = ResultType::Message;
    opt(m1.size != m2.size, rec(k, n, e, "DLC"@, digits(m1.size as nat, 10), digits(m2.size as nat, 10)))
        + opt(
        m1.cycle_time != m2.cycle_time,
        rec(k, n, e, "Cycle Time"@, digits(m1.cycle_time as nat, 10), digits(m2.cycle_time as nat, 10)),
    ) + opt(m1.transmitter != m2.transmitter, rec(k, n, e, "Transmitter"@, m1.transmitter, m2.transmitter))
}

/// The differing identifier fields: the number, in hexadecimal, and its kind.
pub open spec fn message_id_diff(n: Seq<char>, m1: MessageView, m2: MessageView) -> Seq<RecordView> {
    let e = Seq::<char>::empty();
    let k = ResultType::Message;
    opt(
        id_raw_spec(m1.id) != id_raw_spec(m2.id),
        rec(
            k,
            n,
            e,
            "Message ID"@,
            seq!['0', 'x'] + digits(id_raw_spec(m1.id) as nat, 16),
            seq!['0', 'x'] + digits(id_raw_spec(m2.id) as nat, 16),
        ),
    ) + opt(
        id_kind_spec(m1.id) != id_kind_spec(m2.id),
        rec(k, n, e, "ID Format"@, id_kind_spec(m1.id), id_kind_spec(m2.id)),
    )
}

/// The differing message-level fields: size, cycle time, transmitter,
/// identifier and identifier kind.
pub open spec fn message_field_diff(n: Seq<char>, m1: MessageView, m2: MessageView) -> Seq<RecordView> {
    message_layout_diff(n, m1, m2) + message_id_diff(n, m1, m2)
}

pub open spec fn unit_display(u: Seq<char>) -> Seq<char> {
    if is_blank(u) {
        "No Unit"@
    } else {
        u
    }
}

pub open spec fn description_display(t: Seq<char>) -> Seq<char> {
    if is_blank(t) {
        "No Description"@
    } else {
        t
    }
}

pub open spec fn byte_order_text(b: ByteOrder) -> Seq<char> {
    match b {
        ByteOrder::LittleEndian => "LittleEndian"@,
        ByteOrder::BigEndian => "BigEndian"@,
    }
}

pub open spec fn value_type_text(v: ValueType) -> Seq<char> {
    match v {
        ValueType::Signed => "Signed"@,
        ValueType::Unsigned => "Unsigned"@,
        ValueType::Float => "Float"@,
        ValueType::Double => "Double"@,
    }
}

pub open spec fn multiplexer_text(m: MultiplexerType) -> Seq<char> {
    match m {
        MultiplexerType::NotMultiplexed => "None"@,
        MultiplexerType::Switch => "Switch"@,
        MultiplexerType::Multiplexed(v) => "Multiplexed("@ + digits(v as nat, 10) + ")"@,
    }
}

/// The node name that stands for "no explicit receiver".
pub open spec fn placeholder_node() -> Seq<char> {
    "Vector__XXX"@
}

/// The receivers other than the placeholder, in order.
pub open spec fn listed_receivers(r: Seq<Seq<char>>) -> Seq<Seq<char>>
    decreases r.len(),
{
    if r.len() == 0 {
        Seq::empty()
    } else if r.last() == placeholder_node() {
        listed_receivers(r.drop_last())
    } else {
        listed_receivers(r.drop_last()).push(r.last())
    }
}

pub open spec fn same_receivers(r1: Seq<Seq<char>>, r2: Seq<Seq<char>>) -> bool {
    listed_receivers(r1).to_set() == listed_receivers(r2).to_set()
}

/// Names joined by commas.
pub open spec fn join_commas(r: Seq<Seq<char>>) -> Seq<char>
    decreases r.len(),
{
    if r.len() == 0 {
        Seq::empty()
    } else if r.len() == 1 {
        r[0]
    } else {
        join_commas(r.drop_last()) + seq![','] + r.last()
    }
}

/// The receivers for display: `No Receivers` when none is listed, the one
/// name, or the names joined by commas inside double quotes.
pub open spec fn receivers_text(r: Seq<Seq<char>>) -> Seq<char> {
    let l = listed_receivers(r);
    if l.len() == 0 {
        "No Receivers"@
    } else if l.len() == 1 {
        l[0]
    } else {
        seq!['"'] + join_commas(l) + seq!['"']
    }
}

pub open spec fn value_field(c: u64) -> Seq<char> {
    "Value "@ + (seq!['0', 'x'] + digits(c as nat, 16)) + " Description"@
}

/// The differing fields of position and length. Under the precedence rule
/// for the two start-bit representations, each is reported on its own.
pub open spec fn bit_field_diff(n: Seq<char>, sn: Seq<char>, s1: SignalView, s2: SignalView) -> Seq<RecordView> {
    let k = ResultType::Signal;
    opt(
        s1.vector_start_bit != s2.vector_start_bit,
        rec(
            k,
            n,
            sn,
            "Start Bit (Vector)"@,
            digits(s1.vector_start_bit as nat, 10),
            digits(s2.vector_start_bit as nat, 10),
        ),
    ) + opt(
        s1.start_bit != s2.start_bit,
        rec(k, n, sn, "Start Bit (Raw)"@, digits(s1.start_bit as nat, 10), digits(s2.start_bit as nat, 10)),
    ) + opt(
        s1.signal_size != s2.signal_size,
        rec(k, n, sn, "Length"@, digits(s1.signal_size as nat, 10), digits(s2.signal_size as nat, 10)),
    )
}

/// The differing scaling fields, compared by value.
pub open spec fn scaling_diff(n: Seq<char>, sn: Seq<char>, s1: SignalView, s2: SignalView) -> Seq<RecordView> {
    let k = ResultType::Signal;
    opt(
        !s1.factor.same_value(s2.factor),
        rec(k, n, sn, "Factor"@, decimal_text(s1.factor), decimal_text(s2.factor)),
    ) + opt(
        !s1.offset.same_value(s2.offset),
        rec(k, n, sn, "Offset"@, decimal_text(s1.offset), decimal_text(s2.offset)),
    ) + opt(
        !s1.min.same_value(s2.min),
        rec(k, n, sn, "Min Value"@, decimal_text(s1.min), decimal_text(s2.min)),
    ) + opt(
        !s1.max.same_value(s2.max),
        rec(k, n, sn, "Max Value"@, decimal_text(s1.max), decimal_text(s2.max)),
    )
}

/// The differing fields of unit, encoding, receivers and multiplexing.
pub open spec fn encoding_diff(n: Seq<char>, sn: Seq<char>, s1: SignalView, s2: SignalView) -> Seq<RecordView> {
    let k = ResultType::Signal;
    opt(
        unit_display(s1.unit) != unit_display(s2.unit),
        rec(k, n, sn, "Unit"@, unit_display(s1.unit), unit_display(s2.unit)),
    ) + opt(
        s1.byte_order != s2.byte_order,
        rec(k, n, sn, "Byte Order"@, byte_order_text(s1.byte_order), byte_order_text(s2.byte_order)),
    ) + opt(
        s1.value_type != s2.value_type,
        rec(k, n, sn, "Value Type"@, value_type_text(s1.value_type), value_type_text(s2.value_type)),
    ) + opt(
        !same_receivers(s1.receivers, s2.receivers),
        rec(k, n, sn, "Receivers"@, receivers_text(s1.receivers), receivers_text(s2.receivers)),
    ) + opt(
        s1.multiplexer_type != s2.multiplexer_type,
        rec(
            k,
            n,
            sn,
            "Multiplexer Type"@,
            multiplexer_text(s1.multiplexer_type),
            multiplexer_text(s2.multiplexer_type),
        ),
    )
}

/// The differing initial values, each representation on its own.
pub open spec fn initial_diff(n: Seq<char>, sn: Seq<char>, s1: SignalView, s2: SignalView) -> Seq<RecordView> {
    let k = ResultType::Signal;
    opt(
        !s1.vector_initial_value.same_value(s2.vector_initial_value),
        rec(
            k,
            n,
            sn,
            "Initial Value (Vector)"@,
            decimal_text(s1.vector_initial_value),
            decimal_text(s2.vector_initial_value),
        ),
    ) + opt(
        !s1.initial_value.same_value(s2.initial_value),
        rec(
            k,
            n,
            sn,
            "Initial Value (Raw)"@,
            decimal_text(s1.initial_value),
            decimal_text(s2.initial_value),
        ),
    )
}

pub open spec fn description_diff(
    n: Seq<char>,
    sn: Seq<char>,
    d1: Seq<(u64, Seq<char>)>,
    d2: Seq<(u64, Seq<char>)>,
    c: u64,
) -> Seq<RecordView> {
    let k = ResultType::Signal;
    match (find_description(d1, c), find_description(d2, c)) {
        (Some(t1), Some(t2)) => opt(
            !equivalent(description_display(t1), description_display(t2)),
            rec(k, n, sn, value_field(c), description_display(t1), description_display(t2)),
        ),
        (Some(t1), None) => seq![rec(k, n, sn, value_field(c), description_display(t1), "No Description"@)],
        (None, Some(t2)) => seq![rec(k, n, sn, value_field(c), "No Description"@, description_display(t2))],
        (None, None) => Seq::empty(),
    }
}

pub open spec fn descriptions_diff(
    n: Seq<char>,
    sn: Seq<char>,
    d1: Seq<(u64, Seq<char>)>,
    d2: Seq<(u64, Seq<char>)>,
) -> Seq<RecordView> {
    let codes = sorted_enumeration(description_codes(d1).union(description_codes(d2)), code_order());
    concat_all(codes.map_values(|c: u64| description_diff(n, sn, d1, d2, c)))
}

/// All differences between two signals of one name.
pub open spec fn signal_field_diff(n: Seq<char>, sn: Seq<char>, s1: SignalView, s2: SignalView) -> Seq<RecordView> {
    bit_field_diff(n, sn, s1, s2) + scaling_diff(n, sn, s1, s2) + encoding_diff(n, sn, s1, s2)
        + initial_diff(n, sn, s1, s2) + descriptions_diff(
        n,
        sn,
        s1.value_descriptions,
        s2.value_descriptions,
    )
}

pub open spec fn signal_diff(n: Seq<char>, m1: MessageView, m2: MessageView, sn: Seq<char>) -> Seq<RecordView> {
    match (find_signal(m1.signals, sn), find_signal(m2.signals, sn)) {
        (Some(s1), Some(s2)) => signal_field_diff(n, sn, s1, s2),
        (Some(_), None) => seq![exists_record(ResultType::Signal, n, sn, true)],
        (None, Some(_)) => seq![exists_record(ResultType::Signal, n, sn, false)],
        (None, None) => Seq::empty(),
    }
}

/// The differences among the signals of two messages of one name.
pub open spec fn signals_diff(n: Seq<char>, m1: MessageView, m2: MessageView) -> Seq<RecordView> {
    let names = sorted_enumeration(signal_names(m1).union(signal_names(m2)), name_order());
    concat_all(names.map_values(|sn: Seq<char>| signal_diff(n, m1, m2, sn)))
}

pub open spec fn message_diff(a: DbcView, b: DbcView, n: Seq<char>) -> Seq<RecordView> {
    match (find_message(a.messages, n), find_message(b.messages, n)) {
        (Some(m1), Some(m2)) => message_field_diff(n, m1, m2) + signals_diff(n, m1, m2),
        (Some(_), None) => seq![exists_record(ResultType::Message, n, Seq::empty(), true)],
        (None, Some(_)) => seq![exists_record(ResultType::Message, n, Seq::empty(), false)],
        (None, None) => Seq::empty(),
    }
}

/// All differences between two databases, in order.
pub open spec fn dbc_diff(a: DbcView, b: DbcView) -> Seq<RecordView> {
    let names = sorted_enumeration(message_names(a).union(message_names(b)), name_order());
    concat_all(names.map_values(|n: Seq<char>| message_diff(a, b, n)))
}

proof fn lemma_found_message_named(ms: Seq<MessageView>, n: Seq<char>)
    ensures
        find_message(ms, n) matches Some(m) ==> m.name == n,
    decreases ms.len(),
{
    if ms.len() > 0 {
        lemma_found_message_named(ms.drop_last(), n);
    }
}

proof fn lemma_found_signal_named(ss: Seq<SignalView>, n: Seq<char>)
    ensures
        find_signal(ss, n) matches Some(s) ==> s.name == n,
    decreases ss.len(),
{
    if ss.len() > 0 {
        lemma_found_signal_named(ss.drop_last(), n);
    }
}

fn record(
    kind: ResultType,
    message: &String,
    signal: &String,
    field: &str,
    dbc1: String,
    dbc2: String,
) -> (r: ComparisonResult)
    ensures
        r@ == rec(kind, message@, signal@, field@, dbc1@, dbc2@),
{
    ComparisonResult {
        result_type: kind,
        message: message.clone(),
        signal: signal.clone(),
        field: string_from(field),
        dbc1,
        dbc2,
    }
}

fn emit(results: &mut Vec<ComparisonResult>, r: ComparisonResult)
    ensures
        rviews(final(results)@) == rviews(old(results)@).push(r@),
{
    let ghost v = r@;
    results.push(r);
    assert(rviews(results@) =~= rviews(old(results)@).push(v));
}

fn exists_result(kind: ResultType, message: &String, signal: &String, first: bool) -> (r: ComparisonResult)
    ensures
        r@ == exists_record(kind, message@, signal@, first),
{
    if first {
        record(kind, message, signal, "Exists", string_from("Yes"), string_from("No"))
    } else {
        record(kind, message, signal, "Exists", string_from("No"), string_from("Yes"))
    }
}

fn find_message_index(ms: &Vec<Messages>, name: &String) -> (r: Option<usize>)
    ensures
        match r {
            Some(j) => j < ms.len() && find_message(messages_view(ms@), name@) == Some(ms@[j as int]@),
            None => find_message(messages_view(ms@), name@) is None,
        },
{
    let ghost mv = messages_view(ms@);
    let mut found: Option<usize> = None;
    let mut i: usize = 0;
    while i < ms.len()
        invariant
            i <= ms.len(),
            mv == messages_view(ms@),
            match found {
                Some(j) => j < i && find_message(mv.take(i as int), name@) == Some(ms@[j as int]@),
                None => find_message(mv.take(i as int), name@) is None,
            },
        decreases ms.len() - i,
    {
        assert(mv.take(i + 1).drop_last() =~= mv.take(i as int));
        if ms[i].messages_name == *name {
            found = Some(i);
        }
        i = i + 1;
    }
    assert(mv.take(i as int) =~= mv);
    found
}

fn find_signal_index(ss: &Vec<Signal>, name: &String) -> (r: Option<usize>)
    ensures
        match r {
            Some(j) => j < ss.len() && find_signal(signals_view(ss@), name@) == Some(ss@[j as int]@),
            None => find_signal(signals_view(ss@), name@) is None,
        },
{
    let ghost sv = signals_view(ss@);
    let mut found: Option<usize> = None;
    let mut i: usize = 0;
    while i < ss.len()
        invariant
            i <= ss.len(),
            sv == signals_view(ss@),
            match found {
                Some(j) => j < i && find_signal(sv.take(i as int), name@) == Some(ss@[j as int]@),
                None => find_signal(sv.take(i as int), name@) is None,
            },
        decreases ss.len() - i,
    {
        assert(sv.take(i + 1).drop_last() =~= sv.take(i as int));
        if ss[i].name == *name {
            found = Some(i);
        }
        i = i + 1;
    }
    assert(sv.take(i as int) =~= sv);
    found
}

fn find_description_index(ds: &Vec<(u64, String)>, code: u64) -> (r: Option<usize>)
    ensures
        match r {
            Some(j) => j < ds.len() && find_description(descriptions_view(ds@), code) == Some(ds@[j as int].1@),
            None => find_description(descriptions_view(ds@), code) is None,
        },
{
    let ghost dv = descriptions_view(ds@);
    let mut found: Option<usize> = None;
    let mut i: usize = 0;
    while i < ds.len()
        invariant
            i <= ds.len(),
            dv == descriptions_view(ds@),
            match found {
                Some(j) => j < i && find_description(dv.take(i as int), code) == Some(ds@[j as int].1@),
                None => find_description(dv.take(i as int), code) is None,
            },
        decreases ds.len() - i,
    {
        assert(dv.take(i + 1).drop_last() =~= dv.take(i as int));
        if ds[i].0 == code {
            found = Some(i);
        }
        i = i + 1;
    }
    assert(dv.take(i as int) =~= dv);
    found
}

pub open spec fn names_of_messages(ms: Seq<MessageView>) -> Seq<Seq<char>> {
    ms.map_values(|m: MessageView| m.name)
}

fn add_message_names(names: &mut Vec<Vec<char>>, ms: &Vec<Messages>)
    requires
        strictly_sorted(vviews(old(names)@), name_order()),
    ensures
        strictly_sorted(vviews(final(names)@), name_order()),
        vviews(final(names)@).to_set() == vviews(old(names)@).to_set().union(
            names_of_messages(messages_view(ms@)).to_set(),
        ),
{
    let ghost mv = messages_view(ms@);
    let ghost start = vviews(names@).to_set();
    let mut i: usize = 0;
    assert(names_of_messages(mv.take(0)).to_set() =~= Set::empty());
    assert(start.union(Set::empty()) =~= start);
    while i < ms.len()
        invariant
            i <= ms.len(),
            mv == messages_view(ms@),
            strictly_sorted(vviews(names@), name_order()),
            vviews(names@).to_set() == start.union(names_of_messages(mv.take(i as int)).to_set()),
        decreases ms.len() - i,
    {
        let x = chars_of(ms[i].messages_name.as_str());
        proof {
            assert(names_of_messages(mv.take(i + 1)) =~= names_of_messages(mv.take(i as int)).push(
                mv[i as int].name,
            ));
            lemma_push_to_set(names_of_messages(mv.take(i as int)), mv[i as int].name);
        }
        insert_name(names, x);
        i = i + 1;
        assert(vviews(names@).to_set() =~= start.union(names_of_messages(mv.take(i as int)).to_set()));
    }
    assert(mv.take(i as int) =~= mv);
}

proof fn lemma_concat_step(pieces: Seq<Seq<RecordView>>, k: int)
    requires
        0 <= k < pieces.len(),
    ensures
        concat_all(pieces.take(k + 1)) == concat_all(pieces.take(k)) + pieces[k],
{
    assert(pieces.take(k + 1).drop_last() =~= pieces.take(k));
}

/// Compares two databases: one record per difference, messages in ordinal
/// order of their names.
#[verifier::rlimit(100)]
pub fn compare_dbc_files(dbc1: &Dbc, dbc2: &Dbc) -> (r: Vec<ComparisonResult>)
    ensures
        rviews(r@) == dbc_diff(dbc1@, dbc2@),
{
    let mut names: Vec<Vec<char>> = Vec::new();
    assert(vviews(names@).to_set() =~= Set::empty());
    add_message_names(&mut names, &dbc1.messages);
    add_message_names(&mut names, &dbc2.messages);
    let ghost nv = vviews(names@);
    proof {
        assert(Set::<Seq<char>>::empty().union(message_names(dbc1@)) =~= message_names(dbc1@));
        assert(nv.to_set() == message_names(dbc1@).union(message_names(dbc2@)));
        lemma_name_order();
        lemma_sorted_enumeration(nv, name_order());
    }
    let ghost pieces = nv.map_values(|n: Seq<char>| message_diff(dbc1@, dbc2@, n));
    let mut results: Vec<ComparisonResult> = Vec::new();
    let empty = String::new();
    let mut k: usize = 0;
    assert(rviews(results@) =~= concat_all(pieces.take(0)));
    while k < names.len()
        invariant
            k <= names.len(),
            nv == vviews(names@),
            pieces == nv.map_values(|n: Seq<char>| message_diff(dbc1@, dbc2@, n)),
            empty@ == Seq::<char>::empty(),
            rviews(results@) == concat_all(pieces.take(k as int)),
        decreases names.len() - k,
    {
        let name = string_of(&names[k]);
        let ghost before = rviews(results@);
        let i1 = find_message_index(&dbc1.messages, &name);
        let i2 = find_message_index(&dbc2.messages, &name);
        proof {
            lemma_found_message_named(dbc1@.messages, name@);
        }
        match (i1, i2) {
            (Some(j1), Some(j2)) => {
                compare_message_properties_for_results(&mut results, &dbc1.messages[j1], &dbc2.messages[j2]);
                compare_signals_for_results(&mut results, &dbc1.messages[j1], &dbc2.messages[j2]);
            },
            (Some(_), None) => {
                emit(&mut results, exists_result(ResultType::Message, &name, &empty, true));
            },
            (None, Some(_)) => {
                emit(&mut results, exists_result(ResultType::Message, &name, &empty, false));
            },
            (None, None) => {},
        }
        proof {
            lemma_concat_step(pieces, k as int);
            assert(rviews(results@) =~= before + pieces[k as int]);
        }
        k = k + 1;
    }
    assert(pieces.take(k as int) =~= pieces);
    results
}

/// Appends the differing message-level fields of two messages of one name.
pub fn compare_message_properties_for_results(
    results: &mut Vec<ComparisonResult>,
    msg1: &Messages,
    msg2: &Messages,
)
    ensures
        rviews(final(results)@) == rviews(old(results)@) + message_field_diff(
            msg1@.name,
            msg1@,
            msg2@,
        ),
{
    compare_message_layout(results, msg1, msg2);
    compare_message_ids(results, msg1, msg2);
    assert(rviews(results@) =~= rviews(old(results)@) + message_field_diff(msg1@.name, msg1@, msg2@));
}

fn compare_message_layout(results: &mut Vec<ComparisonResult>, msg1: &Messages, msg2: &Messages)
    ensures
        rviews(final(results)@) == rviews(old(results)@) + message_layout_diff(msg1@.name, msg1@, msg2@),
{
    let ghost start = rviews(results@);
    let n = &msg1.messages_name;
    let empty = String::new();
    let ghost e = Seq::<char>::empty();
    let ghost m1 = msg1@;
    let ghost m2 = msg2@;
    let ghost k = ResultType::Message;
    if msg1.message_size != msg2.message_size {
        emit(
            results,
            record(
                ResultType::Message,
                n,
                &empty,
                "DLC",
                decimal_string(msg1.message_size),
                decimal_string(msg2.message_size),
            ),
        );
    }
    let ghost part1 = opt(m1.size != m2.size, rec(k, m1.name, e, "DLC"@, digits(m1.size as nat, 10), digits(m2.size as nat, 10)));
    assert(rviews(results@) =~= start + part1);
    if msg1.cycle_time != msg2.cycle_time {
        emit(
            results,
            record(
                ResultType::Message,
                n,
                &empty,
                "Cycle Time",
                decimal_string(msg1.cycle_time as u64),
                decimal_string(msg2.cycle_time as u64),
            ),
        );
    }
    let ghost part2 = opt(
        m1.cycle_time != m2.cycle_time,
        rec(k, m1.name, e, "Cycle Time"@, digits(m1.cycle_time as nat, 10), digits(m2.cycle_time as nat, 10)),
    );
    assert(rviews(results@) =~= start + part1 + part2);
    if msg1.transmitter != msg2.transmitter {
        emit(
            results,
            record(
                ResultType::Message,
                n,
                &empty,
                "Transmitter",
                msg1.transmitter.clone(),
                msg2.transmitter.clone(),
            ),
        );
    }
    let ghost part3 = opt(m1.transmitter != m2.transmitter, rec(k, m1.name, e, "Transmitter"@, m1.transmitter, m2.transmitter));
    assert(rviews(results@) =~= start + part1 + part2 + part3);
    assert(message_layout_diff(m1.name, m1, m2) =~= part1 + part2 + part3);
}

fn compare_message_ids(results: &mut Vec<ComparisonResult>, msg1: &Messages, msg2: &Messages)
    ensures
        rviews(final(results)@) == rviews(old(results)@) + message_id_diff(msg1@.name, msg1@, msg2@),
{
    let ghost start = rviews(results@);
    let n = &msg1.messages_name;
    let empty = String::new();
    let ghost e = Seq::<char>::empty();
    let ghost m1 = msg1@;
    let ghost m2 = msg2@;
    let ghost k = ResultType::Message;
    let (id1, kind1) = msg1.messages_id();
    let (id2, kind2) = msg2.messages_id();
    if id1 != id2 {
        emit(
            results,
            record(ResultType::Message, n, &empty, "Message ID", hex_string(id1 as u64), hex_string(id2 as u64)),
        );
    }
    let ghost part4 = opt(
        id_raw_spec(m1.id) != id_raw_spec(m2.id),
        rec(
            k,
            m1.name,
            e,
            "Message ID"@,
            seq!['0', 'x'] + digits(id_raw_spec(m1.id) as nat, 16),
            seq!['0', 'x'] + digits(id_raw_spec(m2.id) as nat, 16),
        ),
    );
    assert(rviews(results@) =~= start + part4);
    let standard1 = match msg1.messages_id {
        MessageID::Standard(_) => true,
        MessageID::Extended(_) => false,
    };
    let standard2 = match msg2.messages_id {
        MessageID::Standard(_) => true,
        MessageID::Extended(_) => false,
    };
    proof {
        reveal_strlit("CAN Standard");
        reveal_strlit("CAN Extended");
        if standard1 != standard2 {
            assert("CAN Standard"@[4] != "CAN Extended"@[4]);
        }
    }
    if standard1 != standard2 {
        emit(
            results,
            record(ResultType::Message, n, &empty, "ID Format", string_from(kind1), string_from(kind2)),
        );
    }
    let ghost part5 = opt(
        id_kind_spec(m1.id) != id_kind_spec(m2.id),
        rec(k, m1.name, e, "ID Format"@, id_kind_spec(m1.id), id_kind_spec(m2.id)),
    );
    assert(rviews(results@) =~= start + part4 + part5);
    assert(message_id_diff(m1.name, m1, m2) =~= part4 + part5);
}

pub open spec fn names_of_signals(ss: Seq<SignalView>) -> Seq<Seq<char>> {
    ss.map_values(|s: SignalView| s.name)
}

fn add_signal_names(names: &mut Vec<Vec<char>>, ss: &Vec<Signal>)
    requires
        strictly_sorted(vviews(old(names)@), name_order()),
    ensures
        strictly_sorted(vviews(final(names)@), name_order()),
        vviews(final(names)@).to_set() == vviews(old(names)@).to_set().union(
            names_of_signals(signals_view(ss@)).to_set(),
        ),
{
    let ghost sv = signals_view(ss@);
    let ghost start = vviews(names@).to_set();
    let mut i: usize = 0;
    assert(names_of_signals(sv.take(0)).to_set() =~= Set::empty());
    assert(start.union(Set::empty()) =~= start);
    while i < ss.len()
        invariant
            i <= ss.len(),
            sv == signals_view(ss@),
            strictly_sorted(vviews(names@), name_order()),
            vviews(names@).to_set() == start.union(names_of_signals(sv.take(i as int)).to_set()),
        decreases ss.len() - i,
    {
        let x = chars_of(ss[i].name.as_str());
        proof {
            assert(names_of_signals(sv.take(i + 1)) =~= names_of_signals(sv.take(i as int)).push(
                sv[i as int].name,
            ));
            lemma_push_to_set(names_of_signals(sv.take(i as int)), sv[i as int].name);
        }
        insert_name(names, x);
        i = i + 1;
        assert(vviews(names@).to_set() =~= start.union(names_of_signals(sv.take(i as int)).to_set()));
    }
    assert(sv.take(i as int) =~= sv);
}

/// Appends the differences among the signals of two messages of one name.
pub fn compare_signals_for_results(results: &mut Vec<ComparisonResult>, msg1: &Messages, msg2: &Messages)
    ensures
        rviews(final(results)@) == rviews(old(results)@) + signals_diff(msg1@.name, msg1@, msg2@),
{
    let ghost m1 = msg1@;
    let ghost m2 = msg2@;
    let msg_name = &msg1.messages_name;
    let mut names: Vec<Vec<char>> = Vec::new();
    assert(vviews(names@).to_set() =~= Set::empty());
    add_signal_names(&mut names, &msg1.signals);
    add_signal_names(&mut names, &msg2.signals);
    let ghost nv = vviews(names@);
    proof {
        assert(Set::<Seq<char>>::empty().union(signal_names(m1)) =~= signal_names(m1));
        assert(nv.to_set() == signal_names(m1).union(signal_names(m2)));
        lemma_name_order();
        lemma_sorted_enumeration(nv, name_order());
    }
    let ghost pieces = nv.map_values(|sn: Seq<char>| signal_diff(m1.name, m1, m2, sn));
    let ghost start = rviews(results@);
    let mut k: usize = 0;
    assert(rviews(results@) =~= start + concat_all(pieces.take(0)));
    while k < names.len()
        invariant
            k <= names.len(),
            nv == vviews(names@),
            pieces == nv.map_values(|sn: Seq<char>| signal_diff(m1.name, m1, m2, sn)),
            m1 == msg1@,
            m2 == msg2@,
            msg_name@ == m1.name,
            rviews(results@) == start + concat_all(pieces.take(k as int)),
        decreases names.len() - k,
    {
        let name = string_of(&names[k]);
        let ghost before = rviews(results@);
        let i1 = find_signal_index(&msg1.signals, &name);
        let i2 = find_signal_index(&msg2.signals, &name);
        proof {
            lemma_found_signal_named(m1.signals, name@);
        }
        match (i1, i2) {
            (Some(j1), Some(j2)) => {
                compare_signal_properties_for_results(
                    results,
                    msg_name.as_str(),
                    &msg1.signals[j1],
                    &msg2.signals[j2],
                );
            },
            (Some(_), None) => {
                emit(results, exists_result(ResultType::Signal, msg_name, &name, true));
            },
            (None, Some(_)) => {
                emit(results, exists_result(ResultType::Signal, msg_name, &name, false));
            },
            (None, None) => {},
        }
        proof {
            lemma_concat_step(pieces, k as int);
            assert(rviews(results@) =~= before + pieces[k as int]);
        }
        k = k + 1;
    }
    assert(pieces.take(k as int) =~= pieces);
}

/// Appends every difference between two signals of one name: position,
/// scaling, encoding, initial value, then the value table.
#[verifier::rlimit(100)]
pub fn compare_signal_properties_for_results(
    results: &mut Vec<ComparisonResult>,
    msg_name: &str,
    sig1: &Signal,
    sig2: &Signal,
)
    ensures
        rviews(final(results)@) == rviews(old(results)@) + signal_field_diff(
            msg_name@,
            sig1@.name,
            sig1@,
            sig2@,
        ),
{
    let n = string_from(msg_name);
    let sn = &sig1.name;
    compare_bit_fields(results, &n, sn, sig1, sig2);
    compare_scaling(results, &n, sn, sig1, sig2);
    compare_encoding(results, &n, sn, sig1, sig2);
    compare_initial_values(results, &n, sn, sig1, sig2);
    compare_value_descriptions(results, &n, sn, sig1, sig2);
    assert(rviews(results@) =~= rviews(old(results)@) + signal_field_diff(msg_name@, sig1@.name, sig1@, sig2@));
}

fn compare_bit_fields(
    results: &mut Vec<ComparisonResult>,
    n: &String,
    sn: &String,
    sig1: &Signal,
    sig2: &Signal,
)
    ensures
        rviews(final(results)@) == rviews(old(results)@) + bit_field_diff(n@, sn@, sig1@, sig2@),
{
    let ghost start = rviews(results@);
    let ghost s1 = sig1@;
    let ghost s2 = sig2@;
    let ghost k = ResultType::Signal;
    if sig1.vector_start_bit != sig2.vector_start_bit {
        emit(
            results,
            record(
                ResultType::Signal,
                n,
                sn,
                "Start Bit (Vector)",
                decimal_string(sig1.vector_start_bit),
                decimal_string(sig2.vector_start_bit),
            ),
        );
    }
    let ghost part1 = opt(
        s1.vector_start_bit != s2.vector_start_bit,
        rec(k, n@, sn@, "Start Bit (Vector)"@, digits(s1.vector_start_bit as nat, 10), digits(s2.vector_start_bit as nat, 10)),
    );
    assert(rviews(results@) =~= start + part1);
    if sig1.start_bit != sig2.start_bit {
        emit(
            results,
            record(
                ResultType::Signal,
                n,
                sn,
                "Start Bit (Raw)",
                decimal_string(sig1.start_bit),
                decimal_string(sig2.start_bit),
            ),
        );
    }
    let ghost part2 = opt(
        s1.start_bit != s2.start_bit,
        rec(k, n@, sn@, "Start Bit (Raw)"@, digits(s1.start_bit as nat, 10), digits(s2.start_bit as nat, 10)),
    );
    assert(rviews(results@) =~= start + part1 + part2);
    if sig1.signal_size != sig2.signal_size {
        emit(
            results,
            record(
                ResultType::Signal,
                n,
                sn,
                "Length",
                decimal_string(sig1.signal_size),
                decimal_string(sig2.signal_size),
            ),
        );
    }
    let ghost part3 = opt(
        s1.signal_size != s2.signal_size,
        rec(k, n@, sn@, "Length"@, digits(s1.signal_size as nat, 10), digits(s2.signal_size as nat, 10)),
    );
    assert(rviews(results@) =~= start + part1 + part2 + part3);
    assert(bit_field_diff(n@, sn@, s1, s2) =~= part1 + part2 + part3);
}

fn emit_if_values_differ(
    results: &mut Vec<ComparisonResult>,
    n: &String,
    sn: &String,
    field: &str,
    a: &Decimal,
    b: &Decimal,
)
    ensures
        rviews(final(results)@) == rviews(old(results)@) + opt(
            !a.same_value(*b),
            rec(ResultType::Signal, n@, sn@, field@, decimal_text(*a), decimal_text(*b)),
        ),
{
    if !a.same_value_as(b) {
        emit(
            results,
            record(ResultType::Signal, n, sn, field, decimal_to_string(a), decimal_to_string(b)),
        );
    }
    assert(rviews(results@) =~= rviews(old(results)@) + opt(
        !a.same_value(*b),
        rec(ResultType::Signal, n@, sn@, field@, decimal_text(*a), decimal_text(*b)),
    ));
}

fn compare_scaling(
    results: &mut Vec<ComparisonResult>,
    n: &String,
    sn: &String,
    sig1: &Signal,
    sig2: &Signal,
)
    ensures
        rviews(final(results)@) == rviews(old(results)@) + scaling_diff(n@, sn@, sig1@, sig2@),
{
    emit_if_values_differ(results, n, sn, "Factor", &sig1.factor, &sig2.factor);
    emit_if_values_differ(results, n, sn, "Offset", &sig1.offset, &sig2.offset);
    emit_if_values_differ(results, n, sn, "Min Value", &sig1.min, &sig2.min);
    emit_if_values_differ(results, n, sn, "Max Value", &sig1.max, &sig2.max);
    assert(rviews(results@) =~= rviews(old(results)@) + scaling_diff(n@, sn@, sig1@, sig2@));
}

fn compare_initial_values(
    results: &mut Vec<ComparisonResult>,
    n: &String,
    sn: &String,
    sig1: &Signal,
    sig2: &Signal,
)
    ensures
        rviews(final(results)@) == rviews(old(results)@) + initial_diff(n@, sn@, sig1@, sig2@),
{
    emit_if_values_differ(
        results,
        n,
        sn,
        "Initial Value (Vector)",
        &sig1.vector_initial_value,
        &sig2.vector_initial_value,
    );
    emit_if_values_differ(results, n, sn, "Initial Value (Raw)", &sig1.initial_value, &sig2.initial_value);
    assert(rviews(results@) =~= rviews(old(results)@) + initial_diff(n@, sn@, sig1@, sig2@));
}

fn display_or(s: &String, fallback: &str) -> (r: String)
    ensures
        r@ == (if is_blank(s@) {
            fallback@
        } else {
            s@
        }),
{
    if blank(s.as_str()) {
        string_from(fallback)
    } else {
        s.clone()
    }
}

fn byte_order_string(b: ByteOrder) -> (r: String)
    ensures
        r@ == byte_order_text(b),
{
    match b {
        ByteOrder::LittleEndian => string_from("LittleEndian"),
        ByteOrder::BigEndian => string_from("BigEndian"),
    }
}

fn value_type_string(v: ValueType) -> (r: String)
    ensures
        r@ == value_type_text(v),
{
    match v {
        ValueType::Signed => string_from("Signed"),
        ValueType::Unsigned => string_from("Unsigned"),
        ValueType::Float => string_from("Float"),
        ValueType::Double => string_from("Double"),
    }
}

fn multiplexer_string(m: MultiplexerType) -> (r: String)
    ensures
        r@ == multiplexer_text(m),
{
    match m {
        MultiplexerType::NotMultiplexed => string_from("None"),
        MultiplexerType::Switch => string_from("Switch"),
        MultiplexerType::Multiplexed(v) => {
            let mut out = string_from("Multiplexed(");
            let d = decimal_string(v);
            out.append(d.as_str());
            out.append(")");
            out
        },
    }
}

fn listed(r: &Vec<String>) -> (out: Vec<String>)
    ensures
        strings_view(out@) == listed_receivers(strings_view(r@)),
{
    let ghost rv = strings_view(r@);
    let placeholder = string_from("Vector__XXX");
    let mut out: Vec<String> = Vec::new();
    let mut i: usize = 0;
    while i < r.len()
        invariant
            i <= r.len(),
            rv == strings_view(r@),
            placeholder@ == placeholder_node(),
            strings_view(out@) == listed_receivers(rv.take(i as int)),
        decreases r.len() - i,
    {
        assert(rv.take(i + 1).drop_last() =~= rv.take(i as int));
        if r[i] != placeholder {
            let ghost ov = strings_view(out@);
            let x = r[i].clone();
            out.push(x);
            assert(strings_view(out@) =~= ov.push(rv[i as int]));
        }
        i = i + 1;
    }
    assert(rv.take(i as int) =~= rv);
    out
}

fn contains_string(v: &Vec<String>, x: &String) -> (r: bool)
    ensures
        r == strings_view(v@).contains(x@),
{
    let mut i: usize = 0;
    while i < v.len()
        invariant
            i <= v.len(),
            forall|j: int| 0 <= j < i ==> strings_view(v@)[j] != x@,
        decreases v.len() - i,
    {
        if v[i] == *x {
            assert(strings_view(v@)[i as int] == x@);
            return true;
        }
        i = i + 1;
    }
    false
}

fn all_in(a: &Vec<String>, b: &Vec<String>) -> (r: bool)
    ensures
        r == strings_view(a@).to_set().subset_of(strings_view(b@).to_set()),
{
    let ghost av = strings_view(a@);
    let ghost bv = strings_view(b@);
    let mut i: usize = 0;
    while i < a.len()
        invariant
            i <= a.len(),
            av == strings_view(a@),
            bv == strings_view(b@),
            forall|j: int| 0 <= j < i ==> bv.contains(#[trigger] av[j]),
        decreases a.len() - i,
    {
        if !contains_string(b, &a[i]) {
            assert(av.to_set().contains(av[i as int]));
            return false;
        }
        i = i + 1;
    }
    assert forall|x: Seq<char>| av.to_set().contains(x) implies bv.to_set().contains(x) by {
        let j = choose|j: int| 0 <= j < av.len() && av[j] == x;
        assert(bv.contains(av[j]));
    }
    true
}

fn same_receiver_sets(r1: &Vec<String>, r2: &Vec<String>) -> (r: bool)
    ensures
        r == same_receivers(strings_view(r1@), strings_view(r2@)),
{
    let l1 = listed(r1);
    let l2 = listed(r2);
    let a = all_in(&l1, &l2);
    let b = all_in(&l2, &l1);
    proof {
        let s1 = strings_view(l1@).to_set();
        let s2 = strings_view(l2@).to_set();
        if a && b {
            assert(s1 =~= s2);
        }
    }
    a && b
}

/// The receivers for display: the placeholder node left out, `No Receivers`
/// when none remains, several names joined by commas inside double quotes.
pub fn format_receivers(receivers: &Vec<String>) -> (r: String)
    ensures
        r@ == receivers_text(strings_view(receivers@)),
{
    let l = listed(receivers);
    let ghost lv = strings_view(l@);
    if l.len() == 0 {
        return string_from("No Receivers");
    }
    if l.len() == 1 {
        return l[0].clone();
    }
    let mut out = string_from("\"");
    let mut i: usize = 0;
    proof {
        reveal_strlit("\"");
    }
    assert(out@ == seq!['"'] + join_commas(lv.take(0)));
    while i < l.len()
        invariant
            i <= l.len(),
            lv == strings_view(l@),
            out@ == seq!['"'] + join_commas(lv.take(i as int)),
        decreases l.len() - i,
    {
        let ghost before = out@;
        assert(lv.take(i + 1).drop_last() =~= lv.take(i as int));
        if i > 0 {
            out.append(",");
            proof {
                reveal_strlit(",");
            }
        }
        out.append(l[i].as_str());
        if i == 0 {
            assert(out@ =~= seq!['"'] + join_commas(lv.take(i + 1)));
        } else {
            assert(out@ =~= seq!['"'] + join_commas(lv.take(i + 1)));
        }
        i = i + 1;
    }
    out.append("\"");
    assert(lv.take(i as int) =~= lv);
    assert(out@ =~= seq!['"'] + join_commas(lv) + seq!['"']);
    out
}

fn compare_unit(
    results: &mut Vec<ComparisonResult>,
    n: &String,
    sn: &String,
    sig1: &Signal,
    sig2: &Signal,
)
    ensures
        rviews(final(results)@) == rviews(old(results)@) + opt(
            unit_display(sig1@.unit) != unit_display(sig2@.unit),
            rec(ResultType::Signal, n@, sn@, "Unit"@, unit_display(sig1@.unit), unit_display(sig2@.unit)),
        ),
{
    let unit1 = display_or(&sig1.unit, "No Unit");
    let unit2 = display_or(&sig2.unit, "No Unit");
    if unit1 != unit2 {
        emit(results, record(ResultType::Signal, n, sn, "Unit", unit1, unit2));
    }
    assert(rviews(results@) =~= rviews(old(results)@) + opt(
            unit_display(sig1@.unit) != unit_display(sig2@.unit),
            rec(ResultType::Signal, n@, sn@, "Unit"@, unit_display(sig1@.unit), unit_display(sig2@.unit)),
        ));
}

fn compare_byte_order(
    results: &mut Vec<ComparisonResult>,
    n: &String,
    sn: &String,
    sig1: &Signal,
    sig2: &Signal,
)
    ensures
        rviews(final(results)@) == rviews(old(results)@) + opt(
            sig1@.byte_order != sig2@.byte_order,
            rec(
                ResultType::Signal,
                n@,
                sn@,
                "Byte Order"@,
                byte_order_text(sig1@.byte_order),
                byte_order_text(sig2@.byte_order),
            ),
        ),
{
    if sig1.byte_order != sig2.byte_order {
        emit(
            results,
            record(
                ResultType::Signal,
                n,
                sn,
                "Byte Order",
                byte_order_string(sig1.byte_order),
                byte_order_string(sig2.byte_order),
            ),
        );
    }
    assert(rviews(results@) =~= rviews(old(results)@) + opt(
            sig1@.byte_order != sig2@.byte_order,
            rec(
                ResultType::Signal,
                n@,
                sn@,
                "Byte Order"@,
                byte_order_text(sig1@.byte_order),
                byte_order_text(sig2@.byte_order),
            ),
        ));
}

fn compare_value_type(
    results: &mut Vec<ComparisonResult>,
    n: &String,
    sn: &String,
    sig1: &Signal,
    sig2: &Signal,
)
    ensures
        rviews(final(results)@) == rviews(old(results)@) + opt(
            sig1@.value_type != sig2@.value_type,
            rec(
                ResultType::Signal,
                n@,
                sn@,
                "Value Type"@,
                value_type_text(sig1@.value_type),
                value_type_text(sig2@.value_type),
            ),
        ),
{
    if sig1.value_type != sig2.value_type {
        emit(
            results,
            record(
                ResultType::Signal,
                n,
                sn,
                "Value Type",
                value_type_string(sig1.value_type),
                value_type_string(sig2.value_type),
            ),
        );
    }
    assert(rviews(results@) =~= rviews(old(results)@) + opt(
            sig1@.value_type != sig2@.value_type,
            rec(
                ResultType::Signal,
                n@,
                sn@,
                "Value Type"@,
                value_type_text(sig1@.value_type),
                value_type_text(sig2@.value_type),
            ),
        ));
}

fn compare_receivers(
    results: &mut Vec<ComparisonResult>,
    n: &String,
    sn: &String,
    sig1: &Signal,
    sig2: &Signal,
)
    ensures
        rviews(final(results)@) == rviews(old(results)@) + opt(
            !same_receivers(sig1@.receivers, sig2@.receivers),
            rec(
                ResultType::Signal,
                n@,
                sn@,
                "Receivers"@,
                receivers_text(sig1@.receivers),
                receivers_text(sig2@.receivers),
            ),
        ),
{
    if !same_receiver_sets(&sig1.receivers, &sig2.receivers) {
        emit(
            results,
            record(
                ResultType::Signal,
                n,
                sn,
                "Receivers",
                format_receivers(&sig1.receivers),
                format_receivers(&sig2.receivers),
            ),
        );
    }
    assert(rviews(results@) =~= rviews(old(results)@) + opt(
            !same_receivers(sig1@.receivers, sig2@.receivers),
            rec(
                ResultType::Signal,
                n@,
                sn@,
                "Receivers"@,
                receivers_text(sig1@.receivers),
                receivers_text(sig2@.receivers),
            ),
        ));
}

fn compare_multiplexer(
    results: &mut Vec<ComparisonResult>,
    n: &String,
    sn: &String,
    sig1: &Signal,
    sig2: &Signal,
)
    ensures
        rviews(final(results)@) == rviews(old(results)@) + opt(
            sig1@.multiplexer_type != sig2@.multiplexer_type,
            rec(
                ResultType::Signal,
                n@,
                sn@,
                "Multiplexer Type"@,
                multiplexer_text(sig1@.multiplexer_type),
                multiplexer_text(sig2@.multiplexer_type),
            ),
        ),
{
    if sig1.multiplexer_type != sig2.multiplexer_type {
        emit(
            results,
            record(
                ResultType::Signal,
                n,
                sn,
                "Multiplexer Type",
                multiplexer_string(sig1.multiplexer_type),
                multiplexer_string(sig2.multiplexer_type),
            ),
        );
    }
    assert(rviews(results@) =~= rviews(old(results)@) + opt(
            sig1@.multiplexer_type != sig2@.multiplexer_type,
            rec(
                ResultType::Signal,
                n@,
                sn@,
                "Multiplexer Type"@,
                multiplexer_text(sig1@.multiplexer_type),
                multiplexer_text(sig2@.multiplexer_type),
            ),
        ));
}

fn compare_encoding(
    results: &mut Vec<ComparisonResult>,
    n: &String,
    sn: &String,
    sig1: &Signal,
    sig2: &Signal,
)
    ensures
        rviews(final(results)@) == rviews(old(results)@) + encoding_diff(n@, sn@, sig1@, sig2@),
{
    compare_unit(results, n, sn, sig1, sig2);
    compare_byte_order(results, n, sn, sig1, sig2);
    compare_value_type(results, n, sn, sig1, sig2);
    compare_receivers(results, n, sn, sig1, sig2);
    compare_multiplexer(results, n, sn, sig1, sig2);
    assert(rviews(results@) =~= rviews(old(results)@) + encoding_diff(n@, sn@, sig1@, sig2@));
}

pub open spec fn codes_of(ds: Seq<(u64, Seq<char>)>) -> Seq<u64> {
    ds.map_values(|p: (u64, Seq<char>)| p.0)
}

fn add_codes(codes: &mut Vec<u64>, ds: &Vec<(u64, String)>)
    requires
        strictly_sorted(old(codes)@, code_order()),
    ensures
        strictly_sorted(final(codes)@, code_order()),
        final(codes)@.to_set() == old(codes)@.to_set().union(description_codes(descriptions_view(ds@))),
{
    let ghost dv = descriptions_view(ds@);
    let ghost start = codes@.to_set();
    let mut i: usize = 0;
    assert(codes_of(dv.take(0)).to_set() =~= Set::empty());
    assert(start.union(Set::empty()) =~= start);
    while i < ds.len()
        invariant
            i <= ds.len(),
            dv == descriptions_view(ds@),
            strictly_sorted(codes@, code_order()),
            codes@.to_set() == start.union(codes_of(dv.take(i as int)).to_set()),
        decreases ds.len() - i,
    {
        proof {
            assert(codes_of(dv.take(i + 1)) =~= codes_of(dv.take(i as int)).push(dv[i as int].0));
            lemma_push_to_set(codes_of(dv.take(i as int)), dv[i as int].0);
        }
        insert_code(codes, ds[i].0);
        i = i + 1;
        assert(codes@.to_set() =~= start.union(codes_of(dv.take(i as int)).to_set()));
    }
    assert(dv.take(i as int) =~= dv);
}

fn value_field_string(c: u64) -> (r: String)
    ensures
        r@ == value_field(c),
{
    let mut f = string_from("Value ");
    let h = hex_string(c);
    f.append(h.as_str());
    f.append(" Description");
    f
}

/// Appends the value-table differences of two signals: a code on one side
/// only, or two labels that do not count as the same.
pub fn compare_value_descriptions(
    results: &mut Vec<ComparisonResult>,
    msg_name: &String,
    signal_name: &String,
    sig1: &Signal,
    sig2: &Signal,
)
    ensures
        rviews(final(results)@) == rviews(old(results)@) + descriptions_diff(
            msg_name@,
            signal_name@,
            sig1@.value_descriptions,
            sig2@.value_descriptions,
        ),
{
    let ghost d1 = sig1@.value_descriptions;
    let ghost d2 = sig2@.value_descriptions;
    let ghost n = msg_name@;
    let ghost sn = signal_name@;
    let mut codes: Vec<u64> = Vec::new();
    assert(codes@.to_set() =~= Set::empty());
    add_codes(&mut codes, &sig1.value_descriptions);
    add_codes(&mut codes, &sig2.value_descriptions);
    proof {
        assert(Set::<u64>::empty().union(description_codes(d1)) =~= description_codes(d1));
        lemma_code_order();
        lemma_sorted_enumeration(codes@, code_order());
    }
    let ghost pieces = codes@.map_values(|c: u64| description_diff(n, sn, d1, d2, c));
    let ghost start = rviews(results@);
    let mut k: usize = 0;
    assert(rviews(results@) =~= start + concat_all(pieces.take(0)));
    while k < codes.len()
        invariant
            k <= codes.len(),
            d1 == sig1@.value_descriptions,
            d2 == sig2@.value_descriptions,
            n == msg_name@,
            sn == signal_name@,
            pieces == codes@.map_values(|c: u64| description_diff(n, sn, d1, d2, c)),
            rviews(results@) == start + concat_all(pieces.take(k as int)),
        decreases codes.len() - k,
    {
        let c = codes[k];
        let ghost before = rviews(results@);
        let i1 = find_description_index(&sig1.value_descriptions, c);
        let i2 = find_description_index(&sig2.value_descriptions, c);
        match (i1, i2) {
            (Some(j1), Some(j2)) => {
                let t1 = display_or(&sig1.value_descriptions[j1].1, "No Description");
                let t2 = display_or(&sig2.value_descriptions[j2].1, "No Description");
                if !descriptions_match(t1.as_str(), t2.as_str()) {
                    emit(results, record(ResultType::Signal, msg_name, signal_name, value_field_string(c).as_str(), t1, t2));
                }
            },
            (Some(j1), None) => {
                let t1 = display_or(&sig1.value_descriptions[j1].1, "No Description");
                emit(
                    results,
                    record(
                        ResultType::Signal,
                        msg_name,
                        signal_name,
                        value_field_string(c).as_str(),
                        t1,
                        string_from("No Description"),
                    ),
                );
            },
            (None, Some(j2)) => {
                let t2 = display_or(&sig2.value_descriptions[j2].1, "No Description");
                emit(
                    results,
                    record(
                        ResultType::Signal,
                        msg_name,
                        signal_name,
                        value_field_string(c).as_str(),
                        string_from("No Description"),
                        t2,
                    ),
                );
            },
            (None, None) => {},
        }
        proof {
            lemma_concat_step(pieces, k as int);
            assert(rviews(results@) =~= before + pieces[k as int]);
        }
        k = k + 1;
    }
    assert(pieces.take(k as int) =~= pieces);
}

} // verus!
