use vstd::prelude::*;

verus! {

// ------------------------------------------------------------------
// Spectral-envelope geometry: the pitch-synchronous window length and
// the frequency-dependent smoothing bounds. The windowing and the
// transform itself act on floating-point spectra and live with the
// synthesis front end; the index arithmetic is what is verified here.
// ------------------------------------------------------------------

/// Highest sample rate the envelope geometry accepts, in Hz.
pub const RESOLVE_FS_LIMIT: u32 = 1_000_000;

/// Largest transform size the envelope geometry accepts.
pub const RESOLVE_FFT_LIMIT: usize = 0x1000_0000;

pub struct TrickResolve {
    pub sample_rate: u32,
}

/// The pitch-synchronous window length: three periods of the
/// candidate F0, in samples (truncated).
pub open spec fn pitch_window_spec(fs: int, f0c: int) -> int {
    300 * fs / f0c
}

/// The base smoothing width: the F0 spacing in bins, rounded.
pub open spec fn base_width_spec(fs: int, f0c: int, fft: int) -> int {
    (f0c * fft + 50 * fs) / (100 * fs)
}

/// The smoothing width at a bin: the base width scaled by
/// `1 + (freq / 5000)^2` with `freq = bin * fs / fft`, rounded, and
/// at least 2.
pub open spec fn smooth_width_spec(bin: int, fs: int, f0c: int, fft: int) -> int {
    let d = 5000 * fft;
    let num = base_width_spec(fs, f0c, fft) * (d * d + (bin * fs) * (bin * fs));
    let w = (2 * num + d * d) / (2 * (d * d));
    if w < 2 {
        2
    } else {
        w
    }
}

/// The moving-average bounds of a bin: half the width on each side,
/// clipped to the row.
pub open spec fn smooth_bounds_spec(bin: int, fs: int, f0c: int, fft: int, nbins: int) -> (
    int,
    int,
) {
    let half = smooth_width_spec(bin, fs, f0c, fft) / 2;
    let lo = if bin - half >= 0 {
        bin - half
    } else {
        0
    };
    let hi = if bin + half + 1 <= nbins {
        bin + half + 1
    } else {
        nbins
    };
    (lo, hi)
}

impl TrickResolve {
    pub fn new(sample_rate: u32) -> (r: TrickResolve)
        ensures
            r.sample_rate == sample_rate,
    {
        TrickResolve { sample_rate }
    }

    /// The pitch-synchronous window length for a voiced frame.
    pub fn pitch_window_len(&self, f0_centihz: u64) -> (r: u64)
        requires
            1 <= self.sample_rate <= RESOLVE_FS_LIMIT,
            f0_centihz >= 1,
        ensures
            r == pitch_window_spec(self.sample_rate as int, f0_centihz as int),
    {
        300 * (self.sample_rate as u64) / f0_centihz
    }

    /// The moving-average bounds of one bin of the envelope smoother.
    #[verifier::rlimit(30)]
    pub fn smooth_bounds(&self, bin: usize, f0_centihz: u64, fft_size: usize, nbins: usize) -> (r:
        (usize, usize))
        requires
            1 <= self.sample_rate <= RESOLVE_FS_LIMIT,
            2 <= fft_size <= RESOLVE_FFT_LIMIT,
            1 <= f0_centihz <= 100 * self.sample_rate + 100,
            bin < nbins <= fft_size / 2 + 1,
        ensures
            (r.0 as int, r.1 as int) == smooth_bounds_spec(
                bin as int,
                self.sample_rate as int,
                f0_centihz as int,
                fft_size as int,
                nbins as int,
            ),
            r.0 <= bin < r.1 <= nbins,
    {
        let fs = self.sample_rate as u128;
        let fft = fft_size as u128;
        proof {
            lemma_resolve_products(
                bin as int,
                self.sample_rate as int,
                f0_centihz as int,
                fft_size as int,
            );
        }
        let bw: u128 = (f0_centihz as u128 * fft + 50 * fs) / (100 * fs);
        let d: u128 = 5000 * fft;
        let bf: u128 = (bin as u128) * fs;
        let num: u128 = bw * (d * d + bf * bf);
        let w128: u128 = (2 * num + d * d) / (2 * (d * d));
        let w: u128 = if w128 < 2 { 2 } else { w128 };
        proof {
            vstd::arithmetic::div_mod::lemma_div_pos_is_pos(
                2 * (num as int) + (d * d) as int,
                2 * ((d * d) as int),
            );
        }
        let half128 = w / 2;
        let half: usize = if half128 > nbins as u128 {
            nbins
        } else {
            half128 as usize
        };
        let ghost half_g = smooth_width_spec(
            bin as int,
            self.sample_rate as int,
            f0_centihz as int,
            fft_size as int,
        ) / 2;
        let lo = if bin >= half { bin - half } else { 0 };
        let hi = if nbins - bin > half { bin + half + 1 } else { nbins };
        proof {
            if half128 > nbins as u128 {
                // The clipped bounds agree whether the half-width is
                // capped at the row length or not.
                assert(half_g >= nbins as int);
                assert(bin < half_g && bin as int - half_g < 0);
                assert(bin + half_g + 1 > nbins);
            }
        }
        (lo, hi)
    }
}

/// All products in the smoothing-width formula fit 128 bits.
proof fn lemma_resolve_products(bin: int, fs: int, f0c: int, fft: int)
    requires
        1 <= fs <= RESOLVE_FS_LIMIT,
        2 <= fft <= RESOLVE_FFT_LIMIT,
        1 <= f0c <= 100 * fs + 100,
        0 <= bin <= fft / 2 + 1,
    ensures
        0 <= f0c * fft <= 0x6400_0000 * 0x1000_0000,
        0 <= bin * fs <= 200_000_000_000_000,
        ({
            let d = 5000 * fft;
            let bf = bin * fs;
            let bw = (f0c * fft + 50 * fs) / (100 * fs);
            &&& 100_000_000 <= d * d <= 2_000_000_000_000_000_000_000_000
            &&& 0 <= bf * bf <= 40_000_000_000_000_000_000_000_000_000
            &&& 0 <= bw <= 2 * fft + 1
            &&& 0 <= bw * (d * d + bf * bf) <= 25_000_000_000_000_000_000_000_000_000_000_000_000
        }),
{
    assert(0 <= f0c * fft <= 0x6400_0000 * 0x1000_0000) by (nonlinear_arith)
        requires
            1 <= f0c <= 0x6400_0000,
            2 <= fft <= 0x1000_0000,
    ;
    assert(bin <= 0x800_0001) by {
        vstd::arithmetic::div_mod::lemma_div_is_ordered(fft, 0x1000_0000int, 2);
    }
    assert(0 <= bin * fs <= 200_000_000_000_000) by (nonlinear_arith)
        requires
            0 <= bin <= 0x800_0001,
            1 <= fs <= 1_000_000,
    ;
    let d = 5000 * fft;
    let bf = bin * fs;
    let bw = (f0c * fft + 50 * fs) / (100 * fs);
    assert(100_000_000 <= d * d <= 2_000_000_000_000_000_000_000_000) by (nonlinear_arith)
        requires
            10000 <= d <= 1_342_177_280_000,
    ;
    assert(0 <= bf * bf <= 40_000_000_000_000_000_000_000_000_000) by (nonlinear_arith)
        requires
            0 <= bf <= 200_000_000_000_000,
    ;
    assert(f0c * fft + 50 * fs <= (100 * fs) * (2 * fft + 1)) by (nonlinear_arith)
        requires
            1 <= f0c <= 100 * fs + 100,
            2 <= fft,
            1 <= fs,
    ;
    vstd::arithmetic::div_mod::lemma_div_pos_is_pos(f0c * fft + 50 * fs, 100 * fs);
    vstd::arithmetic::div_mod::lemma_div_is_ordered(
        f0c * fft + 50 * fs,
        (100 * fs) * (2 * fft + 1),
        100 * fs,
    );
    vstd::arithmetic::div_mod::lemma_div_multiples_vanish(2 * fft + 1, 100 * fs);
    assert(0 <= bw * (d * d + bf * bf)
        <= 25_000_000_000_000_000_000_000_000_000_000_000_000) by (nonlinear_arith)
        requires
            0 <= bw <= 600_000_000,
            0 <= d * d + bf * bf <= 41_000_000_000_000_000_000_000_000_000,
    ;
}

} // verus!
