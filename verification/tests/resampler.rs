use axis::resampler::{build_timeline, render_pitch, source_base_centihz, timeline_index};

// Times are microseconds; 5000 us is one analysis frame (5 ms).

#[test]
fn test_timeline_truncates_long_region() {
    // 1000 frames = 5 s of features, 1 s requested: the sustain is a
    // plain slice of 200 consecutive frame positions.
    let t = build_timeline(1000, 0, 0, 0, 1_000_000, 1000);
    assert_eq!(t.len(), 200);
    for (k, &pos) in t.iter().enumerate() {
        assert_eq!(pos, (k as u64) * 5000);
    }
}

#[test]
fn test_timeline_stretches_short_region() {
    // 100 frames = 0.5 s of features, 1 s requested: 200 positions
    // stretched over the whole region, endpoint included.
    let t = build_timeline(100, 0, 0, 0, 1_000_000, 1000);
    assert_eq!(t.len(), 200);
    // The last position reaches the region end, clamped to the last
    // frame.
    assert_eq!(*t.last().unwrap(), 99 * 5000);
    // Every position stays within the feature range.
    assert!(t.iter().all(|&p| p <= 99 * 5000));
    // Positions never decrease.
    assert!(t.windows(2).all(|w| w[0] <= w[1]));
}

#[test]
fn test_timeline_consonant_segment() {
    // 100 ms consonant at unit velocity: 20 positions spaced over
    // [offset, offset + consonant), right endpoint excluded.
    let t = build_timeline(1000, 10_000, 100_000, 0, 0, 1000);
    assert_eq!(t.len(), 20);
    assert_eq!(t[0], 10_000);
    assert_eq!(t[19], 10_000 + 19 * 100_000 / 20);
    assert!(t.iter().all(|&p| p < 110_000));
}

#[test]
fn test_timeline_rounds_sustain_count() {
    // Counts round to the nearest frame: 1007.5 ms is 201.5 frames,
    // so a truncated sustain takes 202 of them...
    let t = build_timeline(1000, 0, 0, 0, 1_007_500, 1000);
    assert_eq!(t.len(), 202);
    // ...and a stretched sustain over a short region takes 201 for
    // 1002.5 ms (200.5 frames).
    let s = build_timeline(100, 0, 0, 0, 1_002_500, 1000);
    assert_eq!(s.len(), 201);
}

#[test]
fn test_timeline_rounds_sustain_start() {
    // The truncated sustain starts at the rounded consonant end:
    // 12.5 ms is 2.5 frames, rounding to frame 3.
    let t = build_timeline(1000, 0, 12_500, 0, 10_000, 0);
    assert_eq!(t.len(), 2);
    assert_eq!(t[0], 3 * 5000);
    assert_eq!(t[1], 4 * 5000);
}

#[test]
fn test_timeline_velocity_scales_consonant() {
    // Velocity rate 0.5: half as many consonant frames.
    let slow = build_timeline(1000, 0, 100_000, 0, 0, 500);
    assert_eq!(slow.len(), 10);
    // Velocity rate 2.0: twice as many.
    let fast = build_timeline(1000, 0, 100_000, 0, 0, 2000);
    assert_eq!(fast.len(), 40);
}

#[test]
fn test_timeline_negative_cutoff() {
    // A negative cutoff measures the region from its start: offset
    // 0, cutoff -500 ms, so the region is [0, 0.5 s], shorter than
    // the requested 1 s: stretched.
    let t = build_timeline(1000, 0, 0, -500_000, 1_000_000, 1000);
    assert_eq!(t.len(), 200);
    assert_eq!(*t.last().unwrap(), 500_000);
}

#[test]
fn test_timeline_degenerate() {
    // Zero-length requests yield an empty timeline.
    let t = build_timeline(10, 0, 0, 100_000_000, 0, 1000);
    assert_eq!(t.len(), 0);
}

#[test]
fn test_timeline_index() {
    assert_eq!(timeline_index(0, 10), (0, 1, 0));
    assert_eq!(timeline_index(7000, 10), (1, 2, 400));
    assert_eq!(timeline_index(45_000, 10), (9, 9, 0));
}

#[test]
fn test_source_base_median() {
    // The median of the voiced values; frames at or below 40 Hz are
    // ignored.
    assert_eq!(source_base_centihz(&vec![20000, 0, 30000, 4000, 25000]), 25000);
    // No voiced frame: the 261.63 Hz default.
    assert_eq!(source_base_centihz(&vec![0, 0, 4000]), 26163);
    // Even count: the upper median.
    assert_eq!(source_base_centihz(&vec![10000, 20000]), 20000);
}

#[test]
fn test_render_pitch_voiced_and_unvoiced() {
    // Two frames: the first voiced at 440 Hz, the second unvoiced.
    let f0: Vec<u64> = vec![44000, 0];
    let off: Vec<i64> = vec![0, 0];
    let timeline: Vec<u64> = vec![0, 5000];
    let pb: Vec<i32> = Vec::new();
    let r = render_pitch(&timeline, &f0, &off, &pb, 60, 120_000, 0);
    assert_eq!(r.len(), 2);
    // No bend, no modulation: exactly the note pitch in cents.
    assert_eq!(r[0], Some(6000));
    assert_eq!(r[1], None);
}

#[test]
fn test_render_pitch_rounds_voicing_lookup() {
    // Voicing is looked up at the rounded timeline position: 0.6
    // frames rounds to the voiced frame 1, 0.4 frames to the
    // unvoiced frame 0.
    let f0: Vec<u64> = vec![0, 44000];
    let off: Vec<i64> = vec![0, 0];
    let pb: Vec<i32> = Vec::new();
    let high = render_pitch(&vec![3000], &f0, &off, &pb, 60, 120_000, 0);
    assert_eq!(high[0], Some(6000));
    let low = render_pitch(&vec![2000], &f0, &off, &pb, 60, 120_000, 0);
    assert_eq!(low[0], None);
}

#[test]
fn test_render_pitch_applies_bend_and_modulation() {
    let f0: Vec<u64> = vec![44000, 44000];
    let off: Vec<i64> = vec![200, 200];
    let timeline: Vec<u64> = vec![0, 5000];
    // A flat bend curve of +0.5 semitones.
    let pb: Vec<i32> = vec![50, 50];
    let r = render_pitch(&timeline, &f0, &off, &pb, 69, 120_000, 1000);
    // 6900 + 50 + 200 at full modulation.
    assert_eq!(r[0], Some(7150));
    assert_eq!(r[1], Some(7150));
}
