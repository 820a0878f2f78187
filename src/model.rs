//! The entity model: messages, signals and their value tables.
use vstd::prelude::*;

verus! {

/// The failure of a parse: the text held no message directive.
/// It carries what was built and the text that was read.
#[derive(Debug)]
pub enum Error {
    Invalid(Dbc, String),
}

/// A frame identifier: 11-bit standard or 29-bit extended addressing.
#[derive(Copy, Clone, Debug, PartialEq, Eq, Structural)]
pub enum MessageID {
    Standard(u16),
    Extended(u32),
}

pub open spec fn id_raw_spec(id: MessageID) -> u32 {
    match id {
        MessageID::Standard(v) => v as u32,
        MessageID::Extended(v) => v | 0x8000_0000u32,
    }
}

pub open spec fn id_kind_spec(id: MessageID) -> Seq<char> {
    match id {
        MessageID::Standard(_) => "CAN Standard"@,
        MessageID::Extended(_) => "CAN Extended"@,
    }
}

/// The identifier as it is written in the database text.
pub open spec fn id_written(id: MessageID) -> u32 {
    match id {
        MessageID::Standard(v) => v as u32,
        MessageID::Extended(v) => v,
    }
}

impl MessageID {
    /// The numeric identifier; extended identifiers carry bit 31.
    pub fn raw(&self) -> (r: u32)
        ensures
            r == id_raw_spec(*self),
    {
        match self {
            MessageID::Standard(id) => *id as u32,
            MessageID::Extended(id) => *id | 0x8000_0000u32,
        }
    }

    /// The label of the addressing kind.
    pub fn kind(&self) -> (r: &'static str)
        ensures
            r@ == id_kind_spec(*self),
    {
        match self {
            MessageID::Standard(_) => "CAN Standard",
            MessageID::Extended(_) => "CAN Extended",
        }
    }
}

#[derive(Copy, Clone, Debug, PartialEq, Eq, Structural)]
pub enum ByteOrder {
    LittleEndian,
    BigEndian,
}

#[derive(Copy, Clone, Debug, PartialEq, Eq, Structural)]
pub enum ValueType {
    Signed,
    Unsigned,
    Float,
    Double,
}

/// The role of a signal in multiplexing: none, the selector, or a signal
/// that is present when the selector holds the given value.
#[derive(Copy, Clone, Debug, PartialEq, Eq, Structural)]
pub enum MultiplexerType {
    NotMultiplexed,
    Switch,
    Multiplexed(u64),
}

/// An exact decimal number: `(-1)^negative * mantissa * 10^exponent`.
#[derive(Copy, Clone, Debug, PartialEq, Eq, Structural)]
pub struct Decimal {
    pub negative: bool,
    pub mantissa: u64,
    pub exponent: i32,
}

/// The canonical form of a decimal: no trailing zero digit in the mantissa,
/// and zero written as an unsigned zero with exponent zero. Two decimals
/// have the same value exactly when their canonical forms agree.
pub open spec fn canonical_spec(negative: bool, mantissa: nat, exponent: int) -> (bool, nat, int)
    decreases mantissa,
{
    if mantissa == 0 {
        (false, 0, 0)
    } else if mantissa % 10 == 0 {
        canonical_spec(negative, mantissa / 10, exponent + 1)
    } else {
        (negative, mantissa, exponent)
    }
}

pub open spec fn pow10(k: nat) -> int
    decreases k,
{
    if k == 0 {
        1
    } else {
        10 * pow10((k - 1) as nat)
    }
}

pub proof fn lemma_pow10_grows(k: nat)
    ensures
        pow10(k) >= 4 * k + 1,
        k > 0 ==> pow10(k) == 10 * pow10((k - 1) as nat),
    decreases k,
{
    if k > 0 {
        lemma_pow10_grows((k - 1) as nat);
    }
}

impl Decimal {
    pub open spec fn canon(self) -> (bool, nat, int) {
        canonical_spec(self.negative, self.mantissa as nat, self.exponent as int)
    }

    /// Whether two decimals denote the same number.
    pub open spec fn same_value(self, other: Decimal) -> bool {
        self.canon() == other.canon()
    }

    /// The canonical form, with the exponent widened.
    pub fn canonical(&self) -> (r: (bool, u64, i64))
        ensures
            (r.0, r.1 as nat, r.2 as int) == self.canon(),
            r.2 >= self.exponent as int || r.2 == 0,
    {
        if self.mantissa == 0 {
            return (false, 0, 0);
        }
        let mut m: u64 = self.mantissa;
        let mut e: i64 = self.exponent as i64;
        let ghost mut k: nat = 0;
        while m % 10 == 0
            invariant
                m > 0,
                e == self.exponent as int + k,
                m as int * pow10(k) == self.mantissa as int,
                canonical_spec(self.negative, m as nat, e as int) == self.canon(),
            decreases m,
        {
            proof {
                lemma_pow10_grows(k + 1);
                assert(m as int * pow10(k) == (m / 10) as int * pow10(k + 1)) by (nonlinear_arith)
                    requires m % 10 == 0, pow10(k + 1) == 10 * pow10(k);
                assert((m / 10) as int * pow10(k + 1) >= pow10(k + 1)) by (nonlinear_arith)
                    requires m / 10 >= 1, pow10(k + 1) >= 0;
            }
            m = m / 10;
            e = e + 1;
            proof {
                k = k + 1;
            }
        }
        (self.negative, m, e)
    }

    /// Whether two decimals denote the same number.
    pub fn same_value_as(&self, other: &Decimal) -> (r: bool)
        ensures
            r == self.same_value(*other),
    {
        let a = self.canonical();
        let b = other.canonical();
        a.0 == b.0 && a.1 == b.1 && a.2 == b.2
    }
}

/// One value packed into a bit range of a message.
#[derive(Clone, Debug, PartialEq)]
pub struct Signal {
    pub name: String,
    /// The start bit as written in the text.
    pub start_bit: u64,
    /// The start bit under the tool-specific numbering of big-endian signals.
    pub vector_start_bit: u64,
    pub signal_size: u64,
    pub byte_order: ByteOrder,
    pub value_type: ValueType,
    pub factor: Decimal,
    pub offset: Decimal,
    pub min: Decimal,
    pub max: Decimal,
    pub unit: String,
    pub receivers: Vec<String>,
    pub multiplexer_type: MultiplexerType,
    pub initial_value: Decimal,
    pub vector_initial_value: Decimal,
    /// Code and label of each value-table entry.
    pub value_descriptions: Vec<(u64, String)>,
}

pub struct SignalView {
    pub name: Seq<char>,
    pub start_bit: u64,
    pub vector_start_bit: u64,
    pub signal_size: u64,
    pub byte_order: ByteOrder,
    pub value_type: ValueType,
    pub factor: Decimal,
    pub offset: Decimal,
    pub min: Decimal,
    pub max: Decimal,
    pub unit: Seq<char>,
    pub receivers: Seq<Seq<char>>,
    pub multiplexer_type: MultiplexerType,
    pub initial_value: Decimal,
    pub vector_initial_value: Decimal,
    pub value_descriptions: Seq<(u64, Seq<char>)>,
}

pub open spec fn strings_view(v: Seq<String>) -> Seq<Seq<char>> {
    v.map_values(|s: String| s@)
}

pub open spec fn descriptions_view(v: Seq<(u64, String)>) -> Seq<(u64, Seq<char>)> {
    v.map_values(|p: (u64, String)| (p.0, p.1@))
}

impl View for Signal {
    type V = SignalView;

    open spec fn view(&self) -> SignalView {
        SignalView {
            name: self.name@,
            start_bit: self.start_bit,
            vector_start_bit: self.vector_start_bit,
            signal_size: self.signal_size,
            byte_order: self.byte_order,
            value_type: self.value_type,
            factor: self.factor,
            offset: self.offset,
            min: self.min,
            max: self.max,
            unit: self.unit@,
            receivers: strings_view(self.receivers@),
            multiplexer_type: self.multiplexer_type,
            initial_value: self.initial_value,
            vector_initial_value: self.vector_initial_value,
            value_descriptions: descriptions_view(self.value_descriptions@),
        }
    }
}

/// One message (frame) of a database.
#[derive(Clone, Debug, PartialEq)]
pub struct Messages {
    pub messages_name: String,
    pub messages_id: MessageID,
    pub cycle_time: u32,
    pub message_size: u64,
    pub transmitter: String,
    pub signals: Vec<Signal>,
}

pub struct MessageView {
    pub name: Seq<char>,
    pub id: MessageID,
    pub cycle_time: u32,
    pub size: u64,
    pub transmitter: Seq<char>,
    pub signals: Seq<SignalView>,
}

pub open spec fn signals_view(v: Seq<Signal>) -> Seq<SignalView> {
    v.map_values(|s: Signal| s@)
}

impl View for Messages {
    type V = MessageView;

    open spec fn view(&self) -> MessageView {
        MessageView {
            name: self.messages_name@,
            id: self.messages_id,
            cycle_time: self.cycle_time,
            size: self.message_size,
            transmitter: self.transmitter@,
            signals: signals_view(self.signals@),
        }
    }
}

impl Messages {
    pub fn cycle_time(&self) -> (r: u32)
        ensures
            r == self.cycle_time,
    {
        self.cycle_time
    }

    /// The numeric identifier and the label of its addressing kind.
    pub fn messages_id(&self) -> (r: (u32, &'static str))
        ensures
            r.0 == id_raw_spec(self.messages_id),
            r.1@ == id_kind_spec(self.messages_id),
    {
        (self.messages_id.raw(), self.messages_id.kind())
    }
}

/// A parsed database: its messages.
#[derive(Clone, Debug, PartialEq)]
pub struct Dbc {
    pub messages: Vec<Messages>,
}

pub struct DbcView {
    pub messages: Seq<MessageView>,
}

pub open spec fn messages_view(v: Seq<Messages>) -> Seq<MessageView> {
    v.map_values(|m: Messages| m@)
}

impl View for Dbc {
    type V = DbcView;

    open spec fn view(&self) -> DbcView {
        DbcView { messages: messages_view(self.messages@) }
    }
}

} // verus!
