use axis::vocoder::hmm::{VoicingHmm, VoicingState};

// F0 tracks are in hundredths of a hertz: 20000 is 200 Hz.

#[test]
fn test_voiced_sequence() {
    let hmm = VoicingHmm::new();
    let f0: Vec<u64> = vec![20000, 20500, 19800, 0, 21000, 20000];
    let smoothed = hmm.smooth_f0(&f0);
    // The gap at index 3 should be interpolated since neighbors are voiced
    assert!(smoothed[3] > 0, "HMM should interpolate voiced gap");
}

#[test]
fn test_unvoiced_sequence() {
    let hmm = VoicingHmm::new();
    let f0: Vec<u64> = vec![0, 0, 0, 0, 0];
    let smoothed = hmm.smooth_f0(&f0);
    assert!(smoothed.iter().all(|&v| v == 0), "All unvoiced should stay zero");
}

#[test]
fn test_spike_removal() {
    let hmm = VoicingHmm::new();
    let f0: Vec<u64> = vec![20000, 20000, 80000, 20000, 20000];
    let smoothed = hmm.smooth_f0(&f0);
    // The spike at index 2 should be smoothed by median filter
    let diff = smoothed[2].abs_diff(20000);
    assert!(diff < 5000, "Spike should be smoothed: got {}", smoothed[2]);
}

#[test]
fn test_decode_states() {
    let hmm = VoicingHmm::new();
    let voiced: Vec<u64> = vec![20000, 21000, 19000];
    assert!(hmm.decode(&voiced).iter().all(|s| *s == VoicingState::Voiced));
    let unvoiced: Vec<u64> = vec![0, 0, 0];
    assert!(hmm.decode(&unvoiced).iter().all(|s| *s == VoicingState::Unvoiced));
    assert_eq!(hmm.decode(&Vec::new()).len(), 0);
}

#[test]
fn test_gap_interpolation_value() {
    let hmm = VoicingHmm::new();
    // An isolated gap between 200 Hz and 210 Hz neighbors lands
    // between them.
    let f0: Vec<u64> = vec![20000, 20000, 0, 21000, 21000];
    let smoothed = hmm.smooth_f0(&f0);
    assert!(smoothed[2] >= 20000 && smoothed[2] <= 21000, "got {}", smoothed[2]);
}
