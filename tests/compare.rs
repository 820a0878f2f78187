use dbc_diff::{
    comparison_to_csv, compare_dbc_files, escape_csv_field, format_receivers, ComparisonResult, Dbc,
    ResultType,
};

fn dbc(text: &str) -> Dbc {
    Dbc::from_slice(text.as_bytes()).unwrap()
}

fn row(r: &ComparisonResult) -> (ResultType, &str, &str, &str, &str, &str) {
    (r.result_type, &r.message, &r.signal, &r.field, &r.dbc1, &r.dbc2)
}

const BASE: &str = "BO_ 256 EngineData: 8 Engine\n \
SG_ Speed : 0|16@1+ (0.1,0) [0|6553.5] \"rpm\" Dash\n\
VAL_ 256 Speed 1 \"Enabled\" 2 \"Off\" ;\n";

#[test]
fn identical_databases_have_no_difference() {
    let a = dbc(BASE);
    assert!(compare_dbc_files(&a, &a).is_empty());
}

#[test]
fn size_change_gives_one_record() {
    let a = dbc("BO_ 256 EngineData: 8 Engine\n");
    let b = dbc("BO_ 256 EngineData: 4 Engine\n");
    let r = compare_dbc_files(&a, &b);
    assert_eq!(r.len(), 1);
    assert_eq!(row(&r[0]), (ResultType::Message, "EngineData", "", "DLC", "8", "4"));
}

#[test]
fn message_on_one_side_only() {
    let a = dbc("BO_ 256 EngineData: 8 Engine\nBO_ 300 BrakeStatus: 2 Brake\n");
    let b = dbc("BO_ 256 EngineData: 8 Engine\n");
    let r = compare_dbc_files(&a, &b);
    assert_eq!(r.len(), 1);
    assert_eq!(row(&r[0]), (ResultType::Message, "BrakeStatus", "", "Exists", "Yes", "No"));
    let m = compare_dbc_files(&b, &a);
    assert_eq!(row(&m[0]), (ResultType::Message, "BrakeStatus", "", "Exists", "No", "Yes"));
}

#[test]
fn raw_start_bit_only() {
    let a = dbc(BASE);
    let mut b = dbc(BASE);
    b.messages[0].signals[0].start_bit = 3;
    let r = compare_dbc_files(&a, &b);
    assert_eq!(r.len(), 1);
    assert_eq!(row(&r[0]), (ResultType::Signal, "EngineData", "Speed", "Start Bit (Raw)", "0", "3"));
}

#[test]
fn both_start_bit_representations() {
    let a = dbc("BO_ 1 M: 8 X\n SG_ S : 7|8@0+ (1,0) [0|1] \"\" X\n");
    let b = dbc("BO_ 1 M: 8 X\n SG_ S : 15|8@0+ (1,0) [0|1] \"\" X\n");
    let r = compare_dbc_files(&a, &b);
    assert_eq!(r.len(), 2);
    assert_eq!(row(&r[0]), (ResultType::Signal, "M", "S", "Start Bit (Vector)", "0", "8"));
    assert_eq!(row(&r[1]), (ResultType::Signal, "M", "S", "Start Bit (Raw)", "7", "15"));
}

#[test]
fn label_case_is_ignored() {
    let a = dbc(BASE);
    let b = dbc(&BASE.replace("\"Enabled\"", "\"ENABLED\""));
    assert!(compare_dbc_files(&a, &b).is_empty());
}

#[test]
fn dissimilar_labels_are_reported() {
    let a = dbc(BASE);
    let b = dbc(&BASE.replace("\"Off\"", "\"Deactivated\""));
    let r = compare_dbc_files(&a, &b);
    assert_eq!(r.len(), 1);
    assert_eq!(
        row(&r[0]),
        (ResultType::Signal, "EngineData", "Speed", "Value 0x2 Description", "Off", "Deactivated")
    );
}

#[test]
fn label_on_one_side_only() {
    let a = dbc(BASE);
    let b = dbc(&BASE.replace(" 2 \"Off\"", ""));
    let r = compare_dbc_files(&a, &b);
    assert_eq!(r.len(), 1);
    assert_eq!(
        row(&r[0]),
        (ResultType::Signal, "EngineData", "Speed", "Value 0x2 Description", "Off", "No Description")
    );
}

#[test]
fn mirrored_comparison() {
    let a = dbc("BO_ 1 A: 8 X\n SG_ S : 0|8@1+ (1,0) [0|10] \"V\" P\nBO_ 2 B: 1 X\n");
    let b = dbc("BO_ 1 A: 4 Y\n SG_ S : 0|4@1- (2,1) [0|20] \"\" P,Q\nBO_ 3 C: 1 X\n");
    let ab = compare_dbc_files(&a, &b);
    let ba = compare_dbc_files(&b, &a);
    assert_eq!(ab.len(), ba.len());
    assert!(ab.len() > 5);
    for (x, y) in ab.iter().zip(ba.iter()) {
        assert_eq!((x.result_type, &x.message, &x.signal, &x.field), (y.result_type, &y.message, &y.signal, &y.field));
        assert_eq!(x.dbc1, y.dbc2);
        assert_eq!(x.dbc2, y.dbc1);
    }
}

#[test]
fn message_fields_in_order() {
    let a = dbc("BO_ 256 M: 8 X\nBA_ \"GenMsgCycleTime\" BO_ 256 10;\n");
    let b = dbc("BO_ 2304 M: 4 Y\n");
    let r = compare_dbc_files(&a, &b);
    let fields: Vec<&str> = r.iter().map(|x| x.field.as_str()).collect();
    assert_eq!(fields, vec!["DLC", "Cycle Time", "Transmitter", "Message ID", "ID Format"]);
    assert_eq!(r[3].dbc1, "0x100");
    assert_eq!(r[3].dbc2, "0x80000900");
    assert_eq!(r[4].dbc1, "CAN Standard");
    assert_eq!(r[4].dbc2, "CAN Extended");
}

#[test]
fn signal_fields_in_order() {
    let a = dbc("BO_ 1 A: 8 X\n SG_ S : 0|8@1+ (1,0) [0|10] \"V\" P\n");
    let b = dbc("BO_ 1 A: 8 X\n SG_ S M : 0|4@0- (2,1) [1|20] \" \" P,Q\n");
    let r = compare_dbc_files(&a, &b);
    let fields: Vec<&str> = r.iter().map(|x| x.field.as_str()).collect();
    assert_eq!(
        fields,
        vec![
            "Start Bit (Vector)", "Length", "Factor", "Offset", "Min Value", "Max Value", "Unit",
            "Byte Order", "Value Type", "Receivers", "Multiplexer Type"
        ]
    );
    assert_eq!(r[6].dbc2, "No Unit");
    assert_eq!(r[7].dbc1, "LittleEndian");
    assert_eq!(r[8].dbc2, "Signed");
    assert_eq!(r[9].dbc2, "\"P,Q\"");
    assert_eq!(r[10].dbc1, "None");
    assert_eq!(r[10].dbc2, "Switch");
}

#[test]
fn receivers_ignore_placeholder_and_order() {
    let a = dbc("BO_ 1 A: 8 X\n SG_ S : 0|8@1+ (1,0) [0|10] \"\" Q,P,Vector__XXX\n");
    let b = dbc("BO_ 1 A: 8 X\n SG_ S : 0|8@1+ (1,0) [0|10] \"\" P Q\n");
    assert!(compare_dbc_files(&a, &b).is_empty());
}

#[test]
fn equal_values_written_differently() {
    let a = dbc("BO_ 1 A: 8 X\n SG_ S : 0|8@1+ (1.0,-0) [0|1e1] \"\" P\n");
    let b = dbc("BO_ 1 A: 8 X\n SG_ S : 0|8@1+ (1,0) [0.0|10] \"\" P\n");
    assert!(compare_dbc_files(&a, &b).is_empty());
}

#[test]
fn receivers_display() {
    assert_eq!(format_receivers(&vec![]), "No Receivers");
    assert_eq!(format_receivers(&vec!["Vector__XXX".to_string()]), "No Receivers");
    assert_eq!(format_receivers(&vec!["A".to_string()]), "A");
    assert_eq!(format_receivers(&vec!["A".to_string(), "Vector__XXX".to_string(), "B".to_string()]), "\"A,B\"");
}

#[test]
fn csv_escaping() {
    assert_eq!(escape_csv_field("plain"), "plain");
    assert_eq!(escape_csv_field("a,b"), "\"a,b\"");
    assert_eq!(escape_csv_field("say \"hi\""), "\"say \"\"hi\"\"\"");
    assert_eq!(escape_csv_field("two\nlines"), "\"two\nlines\"");
}

#[test]
fn csv_document() {
    let a = dbc("BO_ 256 EngineData: 8 Engine\n");
    let b = dbc("BO_ 256 EngineData: 4 Engine\n");
    let r = compare_dbc_files(&a, &b);
    assert_eq!(comparison_to_csv(&r), "Type,Message,Signal,Field,DBC1,DBC2\nMessage,EngineData,,DLC,8,4\n");
}

#[test]
fn csv_of_two_databases() {
    let a = dbc("BO_ 1 A: 8 X\n SG_ S : 0|8@1+ (1,0) [0|10] \"\" P,Q\n");
    let b = dbc("BO_ 1 A: 8 X\n SG_ S : 0|8@1+ (1,0) [0|10] \"\" P\n");
    assert_eq!(
        dbc_diff::compare_dbc_to_csv(&a, &b),
        "Type,Message,Signal,Field,DBC1,DBC2\nSignal,A,S,Receivers,\"\"\"P,Q\"\"\",P\n"
    );
}
