use axis::util::{get_analysis_path, pitch_parser, tempo_parser};

#[test]
fn test_pitch_parser() {
    assert_eq!(pitch_parser("C4"), Ok(60));
    assert_eq!(pitch_parser("C#4"), Ok(61));
    assert_eq!(pitch_parser("Cb4"), Ok(59));
    assert_eq!(pitch_parser("A4"), Ok(69));
    assert_eq!(pitch_parser("B3"), Ok(59));
    assert_eq!(pitch_parser("60"), Ok(60));
}

#[test]
fn test_pitch_parser_rejects() {
    assert!(pitch_parser("").is_err());
    assert!(pitch_parser("H4").is_err());
    assert!(pitch_parser("C").is_err());
    assert!(pitch_parser("C#").is_err());
    assert!(pitch_parser("C#x").is_err());
}

#[test]
fn test_pitch_parser_edges() {
    assert_eq!(pitch_parser("  A4  "), Ok(69));
    assert_eq!(pitch_parser("a-1"), Ok(9));
    assert_eq!(pitch_parser("bB2"), Ok(46));
    assert_eq!(pitch_parser("-12"), Ok(-12));
}

// Tempo values are in thousandths of a beat per minute.
#[test]
fn test_tempo_parser() {
    assert_eq!(tempo_parser("100"), Ok(100_000));
    assert_eq!(tempo_parser("150.5"), Ok(150_500));
    assert!(tempo_parser("0").is_err());
    assert!(tempo_parser("10").is_ok());
}

#[test]
fn test_tempo_parser_bang_and_sign() {
    assert_eq!(tempo_parser("!120"), Ok(120_000));
    assert_eq!(tempo_parser(" !90.25 "), Ok(90_250));
    assert!(tempo_parser("-100").is_err());
    assert!(tempo_parser("!").is_err());
    assert!(tempo_parser("abc").is_err());
}

#[test]
fn test_analysis_path() {
    assert_eq!(get_analysis_path("voice.wav"), "voice.wav.axxf");
    assert_eq!(get_analysis_path(""), ".axxf");
}
