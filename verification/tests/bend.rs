use axis::bend::{decode_pitchbend, encode_pitchbend};

// Decoded values are in hundredths of a semitone.
#[test]
fn test_decode_pitchbend() {
    assert_eq!(decode_pitchbend("AAAA"), vec![0, 0]);
    let decoded = decode_pitchbend("AAAA#2#");
    assert_eq!(decoded, vec![0, 0, 0, 0]);
}

#[test]
fn test_decode_values() {
    // 'A' = 0, 'B' = 1: one sample of 0.01 semitones.
    assert_eq!(decode_pitchbend("AB"), vec![1]);
    // '/' = 63: 63 * 64 + 63 = 4095, i.e. -1 in two's complement.
    assert_eq!(decode_pitchbend("//"), vec![-1]);
    // 'f' = 31, 'A' = 0: 31 * 64 = 1984.
    assert_eq!(decode_pitchbend("fA"), vec![1984]);
    // 'g' = 32: 32 * 64 = 2048 wraps to -2048.
    assert_eq!(decode_pitchbend("gA"), vec![-2048]);
}

#[test]
fn test_decode_edges() {
    // A trailing odd character is dropped.
    assert_eq!(decode_pitchbend("AAA"), vec![0]);
    // A repeat count with nothing decoded yet is ignored.
    assert_eq!(decode_pitchbend("#2#"), Vec::<i32>::new());
    // Unknown characters count as zero.
    assert_eq!(decode_pitchbend("!!"), vec![0]);
    assert_eq!(decode_pitchbend(""), Vec::<i32>::new());
    // A malformed repeat count is skipped.
    assert_eq!(decode_pitchbend("AB#x#AB"), vec![1, 1]);
}

#[test]
fn test_encode_decode_round_trip() {
    let curve: Vec<i32> = vec![0, 1, -1, 100, -100, 2047, -2048, 517];
    let encoded: String = encode_pitchbend(&curve).into_iter().collect();
    assert_eq!(encoded.len(), 2 * curve.len());
    assert_eq!(decode_pitchbend(&encoded), curve);
}

#[test]
fn test_encode_known() {
    let encoded: String = encode_pitchbend(&vec![0, 1]).into_iter().collect();
    assert_eq!(encoded, "AAAB");
}
