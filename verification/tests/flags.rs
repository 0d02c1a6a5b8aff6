use axis::flags::Flags;

// Flag values are scaled by 100: gender 10 is 1000, breathiness 80 is
// 8000.

#[test]
fn test_flags_tokens() {
    let f = Flags::from_str("g10B80");
    assert_eq!(f.gender, 1000);
    assert_eq!(f.breathiness, 8000);
}

#[test]
fn test_flags_defaults() {
    let f = Flags::from_str("");
    assert_eq!(f.gender, 0);
    assert_eq!(f.breathiness, 5000);
}

#[test]
fn test_flags_separators_and_junk() {
    let f = Flags::from_str("x/g-3/e");
    assert_eq!(f.gender, -300);
    assert_eq!(f.breathiness, 5000);
}

#[test]
fn test_flags_fraction_and_case() {
    let f = Flags::from_str("G1.5b20.25");
    assert_eq!(f.gender, 150);
    assert_eq!(f.breathiness, 2025);
}

#[test]
fn test_flags_malformed_token_keeps_default() {
    let f = Flags::from_str("g1-2B7");
    assert_eq!(f.gender, 0);
    assert_eq!(f.breathiness, 700);
}

#[test]
fn test_flags_last_token_wins() {
    let f = Flags::from_str("g5g-5");
    assert_eq!(f.gender, -500);
}
