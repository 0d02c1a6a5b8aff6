use vstd::prelude::*;

verus! {

// ------------------------------------------------------------------
// Synthesis-engine arithmetic: how many harmonics a frame carries and
// where a frequency lands in a spectral row. The oscillator bank, the
// noise grains and the peak normalization act on floating-point
// samples and live with the synthesis front end.
// ------------------------------------------------------------------

/// Most harmonics the voiced stream ever renders.
pub const MAX_HARMONICS: u64 = 512;

/// How many harmonics fit below Nyquist at a voiced frame's F0
/// (hundredths of Hz), capped at `MAX_HARMONICS`.
pub open spec fn harmonic_count_spec(fs: int, f0c: int) -> int {
    let n = 50 * fs / f0c;
    if n > MAX_HARMONICS {
        MAX_HARMONICS as int
    } else {
        n
    }
}

pub fn harmonic_count(fs: u32, f0_centihz: u64) -> (r: u64)
    requires
        f0_centihz >= 1,
    ensures
        r == harmonic_count_spec(fs as int, f0_centihz as int),
        r <= MAX_HARMONICS,
{
    let n = 50 * (fs as u64) / f0_centihz;
    if n > MAX_HARMONICS {
        MAX_HARMONICS
    } else {
        n
    }
}

/// The harmonic-count divisor of the voiced gain: at least 1, with
/// the F0 floored at 40 Hz.
pub open spec fn gain_harmonics_spec(fs: int, f0c: int) -> int {
    let floored = if f0c >= 4000 {
        f0c
    } else {
        4000
    };
    let n = 50 * fs / floored;
    if n < 1 {
        1
    } else {
        n
    }
}

pub fn gain_harmonics(fs: u32, f0_centihz: u64) -> (r: u64)
    ensures
        r == gain_harmonics_spec(fs as int, f0_centihz as int),
        r >= 1,
{
    let floored = if f0_centihz >= 4000 { f0_centihz } else { 4000 };
    let n = 50 * (fs as u64) / floored;
    if n < 1 {
        1
    } else {
        n
    }
}

/// Where a frequency (hundredths of Hz) lands in a spectral row of
/// `n` bins spanning `[0, fs / 2]`: the two bins to interpolate and
/// the weight of the second in thousandths; nothing when the
/// frequency maps past the row.
pub open spec fn row_index_spec(freq_c: int, n: int, fs: int) -> Option<(int, int, int)> {
    let num = freq_c * (n - 1);
    let den = 50 * fs;
    let i0 = num / den;
    if i0 >= n {
        None
    } else {
        let i1 = if i0 + 1 < n {
            i0 + 1
        } else {
            n - 1
        };
        Some((i0, i1, (num % den) * 1000 / den))
    }
}

/// Bound on the frequency argument of `row_index`, hundredths of Hz.
pub const ROW_FREQ_LIMIT_CENTIHZ: u64 = 0x4000_0000_0000;

#[verifier::rlimit(30)]
pub fn row_index(freq_centihz: u64, n: usize, fs: u32) -> (r: Option<(usize, usize, u64)>)
    requires
        1 <= n <= 0x1000_0000,
        1 <= fs,
        freq_centihz <= ROW_FREQ_LIMIT_CENTIHZ,
    ensures
        ({
            match r {
                Some((i0, i1, w)) => row_index_spec(freq_centihz as int, n as int, fs as int)
                    == Some((i0 as int, i1 as int, w as int)) && i0 <= i1 < n && w < 1000,
                None => row_index_spec(freq_centihz as int, n as int, fs as int) is None,
            }
        }),
{
    let den: u64 = 50 * (fs as u64);
    proof {
        assert((freq_centihz as int) * (n as int - 1) <= 0x4000_0000_0000 * 0x1000_0000 && 0 <= (
        freq_centihz as int) * (n as int - 1)) by (nonlinear_arith)
            requires
                0 <= freq_centihz as int <= 0x4000_0000_0000,
                0 <= n as int - 1 <= 0x1000_0000,
        ;
    }
    let num: u128 = (freq_centihz as u128) * (n as u128 - 1);
    let i0_128 = num / (den as u128);
    if i0_128 >= n as u128 {
        return None;
    }
    let i0 = i0_128 as usize;
    let i1 = if i0 + 1 < n { i0 + 1 } else { n - 1 };
    let rem = num % (den as u128);
    proof {
        vstd::arithmetic::div_mod::lemma_mod_bound(num as int, den as int);
        assert((rem as int) * 1000 <= (den as int - 1) * 1000) by (nonlinear_arith)
            requires
                0 <= rem as int <= den as int - 1,
        ;
        vstd::arithmetic::div_mod::lemma_div_pos_is_pos((rem as int) * 1000, den as int);
        assert((den as int - 1) * 1000 < (den as int) * 1000) by (nonlinear_arith)
            requires
                den as int >= 1,
        ;
        vstd::arithmetic::div_mod::lemma_div_is_ordered(
            (rem as int) * 1000,
            (den as int) * 1000 - 1,
            den as int,
        );
        vstd::arithmetic::div_mod::lemma_fundamental_div_mod_converse(
            (den as int) * 1000 - 1,
            den as int,
            999,
            den as int - 1,
        );
    }
    let w = ((rem * 1000) / (den as u128)) as u64;
    Some((i0, i1, w))
}

} // verus!
