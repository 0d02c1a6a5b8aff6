use vstd::prelude::*;

verus! {

// ------------------------------------------------------------------
// Band aperiodicity: per-bin noise ratios in parts per million.
// ------------------------------------------------------------------

/// Full aperiodicity (1.0), in parts per million.
pub const AP_ONE_PPM: u32 = 1_000_000;

pub struct D4C {
    pub sample_rate: u32,
}

/// The noise ratio of a voiced bin, in parts per million: low bands
/// carry almost none, high bands carry more breath noise. The bin's
/// frequency is `bin * fs / fft`.
pub open spec fn band_ppm(bin: int, fs: int, fft: int) -> int {
    if bin * fs < 2000 * fft {
        5_000
    } else if bin * fs < 5000 * fft {
        20_000
    } else {
        80_000
    }
}

/// The aperiodicity of one bin: fully aperiodic at or below the
/// voicing floor, banded above it.
pub open spec fn aperiodicity_spec(f0c: int, bin: int, fs: int, fft: int) -> int {
    if f0c <= 4000 {
        AP_ONE_PPM as int
    } else {
        band_ppm(bin, fs, fft)
    }
}

impl D4C {
    pub fn new(sample_rate: u32) -> (r: D4C)
        ensures
            r.sample_rate == sample_rate,
    {
        D4C { sample_rate }
    }

    /// One aperiodicity row of `fft_size / 2 + 1` bins, in parts per
    /// million: all ones at or below the voicing floor (40 Hz),
    /// otherwise a noise ratio that never decreases with frequency
    /// and stays within `[0, 1]`.
    #[verifier::loop_isolation(false)]
    pub fn estimate(&self, f0_centihz: u64, fft_size: usize) -> (r: Vec<u32>)
        requires
            2 <= fft_size <= 0x1000_0000,
        ensures
            r@.len() == fft_size as int / 2 + 1,
            forall|i: int|
                0 <= i < r@.len() ==> #[trigger] r@[i] == aperiodicity_spec(
                    f0_centihz as int,
                    i,
                    self.sample_rate as int,
                    fft_size as int,
                ),
            forall|i: int| 0 <= i < r@.len() ==> #[trigger] r@[i] <= AP_ONE_PPM,
            forall|i: int, j: int| 0 <= i <= j < r@.len() ==> r@[i] <= r@[j],
    {
        let num_bins = fft_size / 2 + 1;
        let fs = self.sample_rate as u64;
        let mut r: Vec<u32> = Vec::new();
        let mut bin: usize = 0;
        while bin < num_bins
            invariant
                bin <= num_bins,
                r@.len() == bin,
                forall|i: int|
                    0 <= i < bin ==> #[trigger] r@[i] == aperiodicity_spec(
                        f0_centihz as int,
                        i,
                        self.sample_rate as int,
                        fft_size as int,
                    ),
            decreases num_bins - bin,
        {
            let v: u32 = if f0_centihz <= 4000 {
                AP_ONE_PPM
            } else {
                proof {
                    assert((bin as int) * (fs as int) <= 0x1000_0000 * 0x1_0000_0000) by (
                    nonlinear_arith)
                        requires
                            0 <= bin as int <= 0x1000_0000,
                            0 <= fs as int <= 0x1_0000_0000,
                    ;
                }
                let lhs = (bin as u64) * fs;
                if lhs < 2000 * (fft_size as u64) {
                    5_000
                } else if lhs < 5000 * (fft_size as u64) {
                    20_000
                } else {
                    80_000
                }
            };
            r.push(v);
            bin += 1;
        }
        proof {
            assert forall|i: int, j: int| 0 <= i <= j < r@.len() implies r@[i] <= r@[j] by {
                assert((i as int) * (self.sample_rate as int) <= (j as int) * (
                self.sample_rate as int)) by (nonlinear_arith)
                    requires
                        0 <= i <= j,
                        self.sample_rate >= 0,
                ;
            }
        }
        r
    }
}

} // verus!
