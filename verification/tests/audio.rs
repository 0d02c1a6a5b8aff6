use axis::api::AxisConfig;
use axis::audio::wav_bytes;

#[test]
fn test_wav_header_layout() {
    let bytes = wav_bytes(44100, &vec![0i16, 256, -1]);
    assert_eq!(bytes.len(), 44 + 6);
    assert_eq!(&bytes[0..4], b"RIFF");
    // Riff size: 36 + 6 bytes of data.
    assert_eq!(&bytes[4..8], &42u32.to_le_bytes());
    assert_eq!(&bytes[8..12], b"WAVE");
    assert_eq!(&bytes[12..16], b"fmt ");
    assert_eq!(&bytes[16..20], &16u32.to_le_bytes());
    // PCM, mono, 16 bits.
    assert_eq!(&bytes[20..22], &1u16.to_le_bytes());
    assert_eq!(&bytes[22..24], &1u16.to_le_bytes());
    assert_eq!(&bytes[24..28], &44100u32.to_le_bytes());
    assert_eq!(&bytes[28..32], &88200u32.to_le_bytes());
    assert_eq!(&bytes[32..34], &2u16.to_le_bytes());
    assert_eq!(&bytes[34..36], &16u16.to_le_bytes());
    assert_eq!(&bytes[36..40], b"data");
    assert_eq!(&bytes[40..44], &6u32.to_le_bytes());
    // Samples, little endian, two's complement.
    assert_eq!(&bytes[44..50], &[0, 0, 0, 1, 0xff, 0xff]);
}

#[test]
fn test_wav_empty_writes_one_silent_frame() {
    let bytes = wav_bytes(44100, &Vec::new());
    assert_eq!(bytes.len(), 46);
    assert_eq!(&bytes[40..44], &0u32.to_le_bytes());
    assert_eq!(&bytes[44..46], &[0, 0]);
}

#[test]
fn test_default_config() {
    let c = AxisConfig::default();
    let g = c.general.unwrap();
    assert_eq!(g.threads, Some(0));
    assert_eq!(g.analysis_enabled, Some(true));
    assert_eq!(g.log, Some(true));
    assert_eq!(g.stydl, Some(true));
    assert!(c.plugins.is_empty());
}
