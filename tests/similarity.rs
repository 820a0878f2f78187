use dbc_diff::{calculate_similarity, descriptions_match, is_equivalent, meets_threshold, normalize};

#[test]
fn normalize_sorts_and_folds() {
    assert_eq!(normalize("Engine Speed"), "engine speed");
    assert_eq!(normalize("speed_engine"), "engine speed");
    assert_eq!(normalize("Engine-Speed"), "engine speed");
    assert_eq!(normalize("  (Hello), world!  "), "hello world");
    assert_eq!(normalize(""), "");
    assert_eq!(normalize("--- !!"), "");
}

#[test]
fn normalize_twice() {
    for s in ["Engine Speed", "b_A-c  a", "Größe Ärger", "x"] {
        let n = normalize(s);
        assert_eq!(normalize(&n), n);
    }
}

#[test]
fn equivalence() {
    assert!(is_equivalent("Enabled", "ENABLED"));
    assert!(!is_equivalent("Off", "Deactivated"));
    assert!(descriptions_match("Some text", "Some text"));
    assert!(!descriptions_match("Off", "Deactivated"));
    assert!(descriptions_match("Enabled", "Enable"));
}

#[test]
fn similarity_scores() {
    assert_eq!(f64::from_bits(calculate_similarity("A b", "b a")), 1.0);
    let s = f64::from_bits(calculate_similarity("Enabled", "Enable"));
    assert!(s > 0.85 && s < 1.0);
    let t = f64::from_bits(calculate_similarity("Off", "Deactivated"));
    assert!(t < 0.85);
    assert_eq!(calculate_similarity("abc", "abd"), calculate_similarity("abd", "abc"));
}

#[test]
fn threshold() {
    assert!(meets_threshold(0.85f64.to_bits()));
    assert!(meets_threshold(1.0f64.to_bits()));
    assert!(!meets_threshold(0.84f64.to_bits()));
    assert!(!meets_threshold((-0.9f64).to_bits()));
    assert!(!meets_threshold(f64::NAN.to_bits()));
}

#[test]
fn normalize_beyond_ascii() {
    assert_eq!(normalize("ÄRGER Groß"), "groß ärger");
    assert_eq!(normalize("«Größe»"), "größe");
    assert_eq!(normalize("Ωmega\u{00A0}Δ"), "δ ωmega");
}
