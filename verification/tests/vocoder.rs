use axis::vocoder::d4c::{D4C, AP_ONE_PPM};
use axis::vocoder::dio::Dio;
use axis::vocoder::synthesis::{gain_harmonics, harmonic_count, row_index};
use axis::vocoder::transient::TransientDetector;
use axis::vocoder::trickresolve::TrickResolve;

#[test]
fn test_dio_detects_square_wave() {
    // A 441 Hz square wave at 44100 Hz: period 100 samples.
    let fs: u32 = 44100;
    let mut x: Vec<i32> = Vec::new();
    for i in 0..2048usize {
        x.push(if (i / 50) % 2 == 0 { 1_000_000 } else { -1_000_000 });
    }
    let dio = Dio::new(fs);
    let f0 = dio.estimate(&x);
    assert_eq!(f0.len(), 8);
    // 44100 centihertz is 441 Hz; refinement moves at most 1 Hz.
    assert!(f0[0] >= 44000 && f0[0] <= 44200, "got {}", f0[0]);
}

#[test]
fn test_dio_silence_is_unvoiced() {
    let dio = Dio::new(44100);
    let x: Vec<i32> = vec![0; 1024];
    let f0 = dio.estimate(&x);
    assert!(f0.iter().all(|&v| v == 0));
}

#[test]
fn test_d4c_unvoiced_is_all_ones() {
    let d4c = D4C::new(44100);
    let ap = d4c.estimate(0, 64);
    assert_eq!(ap.len(), 33);
    assert!(ap.iter().all(|&v| v == AP_ONE_PPM));
}

#[test]
fn test_d4c_bands_are_monotone() {
    let d4c = D4C::new(44100);
    let ap = d4c.estimate(20000, 4096);
    assert_eq!(ap.len(), 2049);
    assert_eq!(ap[0], 5_000);
    assert_eq!(ap[2048], 80_000);
    assert!(ap.windows(2).all(|w| w[0] <= w[1]));
    assert!(ap.iter().all(|&v| v <= AP_ONE_PPM));
}

#[test]
fn test_transient_energy_jump() {
    let det = TransientDetector::new(512, 256);
    let mut x: Vec<i32> = vec![0; 512];
    // 1.0 in Q20 is 1048576: a loud burst after silence.
    x.extend(std::iter::repeat(1_048_576).take(512));
    let flags = det.detect(&x);
    assert_eq!(flags.len(), 4);
    assert!(!flags[0]);
    assert!(flags.iter().any(|&f| f));
}

#[test]
fn test_transient_silence() {
    let det = TransientDetector::new(512, 256);
    let x: Vec<i32> = vec![0; 2048];
    assert!(det.detect(&x).iter().all(|&f| !f));
}

#[test]
fn test_resolve_geometry() {
    let res = TrickResolve::new(44100);
    // Three periods of 100 Hz at 44100 Hz.
    assert_eq!(res.pitch_window_len(10000), 1323);
    // The smoothing window always covers its own bin.
    let (lo, hi) = res.smooth_bounds(100, 20000, 4096, 2049);
    assert!(lo <= 100 && 100 < hi && hi <= 2049);
    // High bins smooth wider than low bins.
    let (lo_low, hi_low) = res.smooth_bounds(10, 20000, 4096, 2049);
    let (lo_high, hi_high) = res.smooth_bounds(2000, 20000, 4096, 2049);
    assert!(hi_high - lo_high >= hi_low - lo_low);
}

#[test]
fn test_synthesis_helpers() {
    // 220 harmonics of 100 Hz fit below the 22050 Hz Nyquist.
    assert_eq!(harmonic_count(44100, 10000), 220);
    // The cap holds for very low pitches.
    assert_eq!(harmonic_count(44100, 100), 512);
    // The gain divisor floors the pitch at 40 Hz and never hits zero.
    assert_eq!(gain_harmonics(44100, 0), 551);
    assert_eq!(gain_harmonics(44100, 2_205_000), 1);
    // 11025 Hz lands in the middle of a 2049-bin row.
    assert_eq!(row_index(1_102_500, 2049, 44100), Some((1024, 1025, 0)));
    // Past the top of the row there is nothing to read.
    assert_eq!(row_index(4_410_000, 2049, 44100), None);
}
