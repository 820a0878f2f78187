use dbc_diff::{ByteOrder, Dbc, Decimal, Error, MessageID, MultiplexerType, ValueType};

const SAMPLE: &str = "VERSION \"\"\n\
BA_DEF_ BO_ \"GenMsgCycleTime\" INT 0 65535;\n\
BA_DEF_DEF_  \"GenMsgCycleTime\" 100;\n\
BO_ 256 EngineData: 8 Engine\n \
SG_ EngineSpeed : 0|16@1+ (0.1,0) [0|6553.5] \"rpm\" Dash,Gateway\n \
SG_ Temp : 7|8@0- (1,-40) [-40|215] \"degC\" Vector__XXX\n\
BO_ 2147484000 ExtMsg: 4 Gateway\n \
SG_ Mode M : 0|2@1+ (1,0) [0|3] \"\" Dash\n \
SG_ Level m1 : 8|8@1+ (1,0) [0|255] \"\" Dash\n\
BA_ \"GenMsgCycleTime\" BO_ 256 50;\n\
VAL_ 256 EngineSpeed 1 \"Enabled\" 0 \"Disabled\" 1 \"On\" ;\n";

fn sample() -> Dbc {
    Dbc::from_slice(SAMPLE.as_bytes()).unwrap()
}

#[test]
fn parses_messages_and_ids() {
    let d = sample();
    assert_eq!(d.messages.len(), 2);
    let m = &d.messages[0];
    assert_eq!(m.messages_name, "EngineData");
    assert_eq!(m.messages_id, MessageID::Standard(256));
    assert_eq!(m.message_size, 8);
    assert_eq!(m.transmitter, "Engine");
    let e = &d.messages[1];
    assert_eq!(e.messages_id, MessageID::Extended(2147484000));
    assert_eq!(e.messages_id(), (2147484000u32 | (1 << 31), "CAN Extended"));
    assert_eq!(m.messages_id(), (256, "CAN Standard"));
}

#[test]
fn cycle_time_precedence() {
    let d = sample();
    assert_eq!(d.messages[0].cycle_time(), 50);
    assert_eq!(d.messages[1].cycle_time(), 100);
    let d2 = Dbc::from_slice(b"BO_ 1 A: 1 X\n").unwrap();
    assert_eq!(d2.messages[0].cycle_time, 0);
}

#[test]
fn parses_signals() {
    let d = sample();
    let s = &d.messages[0].signals[0];
    assert_eq!(s.name, "EngineSpeed");
    assert_eq!(s.start_bit, 0);
    assert_eq!(s.vector_start_bit, 0);
    assert_eq!(s.signal_size, 16);
    assert_eq!(s.byte_order, ByteOrder::LittleEndian);
    assert_eq!(s.value_type, ValueType::Unsigned);
    assert_eq!(dbc_diff::decimal_to_string(&s.factor), "0.1");
    assert_eq!(dbc_diff::decimal_to_string(&s.max), "6553.5");
    assert_eq!(s.unit, "rpm");
    assert_eq!(s.receivers, vec!["Dash".to_string(), "Gateway".to_string()]);
    assert_eq!(s.multiplexer_type, MultiplexerType::NotMultiplexed);
    let t = &d.messages[0].signals[1];
    assert_eq!(t.byte_order, ByteOrder::BigEndian);
    assert_eq!(t.value_type, ValueType::Signed);
    assert_eq!(t.start_bit, 7);
    assert_eq!(t.vector_start_bit, 0);
    assert_eq!(dbc_diff::decimal_to_string(&t.offset), "-40");
    let x = &d.messages[1];
    assert_eq!(x.signals[0].multiplexer_type, MultiplexerType::Switch);
    assert_eq!(x.signals[1].multiplexer_type, MultiplexerType::Multiplexed(1));
}

#[test]
fn value_table_later_label_wins() {
    let d = sample();
    let s = &d.messages[0].signals[0];
    assert_eq!(s.value_descriptions, vec![(1, "On".to_string()), (0, "Disabled".to_string())]);
}

#[test]
fn empty_text_is_rejected() {
    match Dbc::from_slice(b"VERSION \"\"\nBA_DEF_DEF_ \"GenMsgCycleTime\" 10;\n") {
        Err(Error::Invalid(d, _)) => assert!(d.messages.is_empty()),
        Ok(_) => panic!("expected an error"),
    }
}

#[test]
fn malformed_lines_are_skipped() {
    let d = Dbc::from_slice(b"BO_ 12 Broken 8 X\nBO_ 13 Good: 2 X\n SG_ S : 0|x@1+ (1,0) [0|1] \"\" X\n").unwrap();
    assert_eq!(d.messages.len(), 1);
    assert_eq!(d.messages[0].messages_name, "Good");
    assert!(d.messages[0].signals.is_empty());
}

#[test]
fn later_message_of_a_name_replaces() {
    let d = Dbc::from_slice(b"BO_ 1 A: 1 X\nBO_ 2 B: 1 X\nBO_ 3 A: 5 Y\n").unwrap();
    assert_eq!(d.messages.len(), 2);
    assert_eq!(d.messages[0].messages_name, "A");
    assert_eq!(d.messages[0].message_size, 5);
    assert_eq!(d.messages[0].messages_id.raw(), 3);
}

#[test]
fn lossy_text_in_units() {
    let d = Dbc::from_slice_lossy(b"BO_ 1 A: 1 X\n SG_ T : 0|8@1+ (1,0) [0|1] \"\xb0C\" X\n").unwrap();
    assert_eq!(d.messages[0].signals[0].unit, "\u{FFFD}C");
}

#[test]
fn decimal_rendering() {
    let d = Decimal { negative: false, mantissa: 1500, exponent: -3 };
    assert_eq!(dbc_diff::decimal_to_string(&d), "1.5");
    let z = Decimal { negative: true, mantissa: 0, exponent: 4 };
    assert_eq!(dbc_diff::decimal_to_string(&z), "0");
    let s = Decimal { negative: true, mantissa: 25, exponent: -4 };
    assert_eq!(dbc_diff::decimal_to_string(&s), "-0.0025");
    let b = Decimal { negative: false, mantissa: 12, exponent: 2 };
    assert_eq!(dbc_diff::decimal_to_string(&b), "1200");
    assert!(d.same_value_as(&Decimal { negative: false, mantissa: 15, exponent: -1 }));
    assert!(!d.same_value_as(&b));
    assert_eq!(dbc_diff::hex_string(255), "0xFF");
    assert_eq!(dbc_diff::decimal_string(0), "0");
}

#[test]
fn number_with_exponent() {
    let d = Dbc::from_slice(b"BO_ 1 A: 1 X\n SG_ T : 0|8@1+ (1E-3,+2.50) [-1.5e2|3.4E+2] \"\" X\n").unwrap();
    let s = &d.messages[0].signals[0];
    assert_eq!(dbc_diff::decimal_to_string(&s.factor), "0.001");
    assert_eq!(dbc_diff::decimal_to_string(&s.offset), "2.5");
    assert_eq!(dbc_diff::decimal_to_string(&s.min), "-150");
    assert_eq!(dbc_diff::decimal_to_string(&s.max), "340");
}

#[test]
fn standard_and_extended_boundary() {
    let d = Dbc::from_slice(b"BO_ 2047 A: 1 X\nBO_ 2048 B: 1 X\nBO_ 4294967296 C: 1 X\n").unwrap();
    assert_eq!(d.messages.len(), 2);
    assert_eq!(d.messages[0].messages_id, MessageID::Standard(2047));
    assert_eq!(d.messages[1].messages_id, MessageID::Extended(2048));
    assert_eq!(d.messages[1].messages_id.kind(), "CAN Extended");
}
