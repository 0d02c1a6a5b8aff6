use vstd::prelude::*;

verus! {

// ------------------------------------------------------------------
// Autocorrelation pitch estimation.
//
// Samples are fixed-point integers (any scale: only ratios of
// correlation sums matter). F0 values are in hundredths of a hertz,
// with 0 meaning unvoiced.
// ------------------------------------------------------------------

/// Analysis hop of the estimator, in samples.
pub const DIO_HOP: usize = 256;

/// Analysis window of the estimator, in samples.
pub const DIO_WINDOW: usize = 1024;

/// Shortest chunk the lag search accepts, in samples.
pub const DIO_MIN_CHUNK: usize = 512;

pub struct Dio {
    pub sample_rate: u32,
}

/// The raw autocorrelation of `x[s..e]` at `lag`, over the first `n`
/// products.
pub open spec fn corr_rec(x: Seq<i32>, s: int, lag: int, n: int) -> int
    decreases n,
{
    if n <= 0 {
        0
    } else {
        corr_rec(x, s, lag, n - 1) + x[s + n - 1] * x[s + n - 1 + lag]
    }
}

/// The raw autocorrelation of the chunk `x[s..e]` at `lag`.
pub open spec fn autocorr(x: Seq<i32>, s: int, e: int, lag: int) -> int {
    corr_rec(x, s, lag, e - s - lag)
}

/// The lag search: scans lags upward, keeping the first lag whose
/// correlation strictly exceeds every earlier one; stops at the chunk
/// length. Returns the best lag (0 when no positive correlation was
/// seen).
pub open spec fn scan_lags(
    x: Seq<i32>,
    s: int,
    e: int,
    lag: int,
    max_lag: int,
    best: int,
    max_corr: int,
) -> int
    decreases max_lag - lag,
{
    if lag >= max_lag || lag >= e - s {
        best
    } else {
        let c = autocorr(x, s, e, lag);
        if c > max_corr {
            scan_lags(x, s, e, lag + 1, max_lag, lag, c)
        } else {
            scan_lags(x, s, e, lag + 1, max_lag, best, max_corr)
        }
    }
}

/// The F0 (hundredths of Hz) the lag search yields for `x[s..e]`.
pub open spec fn detect_pitch_spec(x: Seq<i32>, s: int, e: int, fs: int) -> int {
    if e - s < DIO_MIN_CHUNK {
        0
    } else {
        let best = scan_lags(x, s, e, fs / 500, fs / 50, 0, 0);
        if best > 0 {
            (fs * 100) / best
        } else {
            0
        }
    }
}

// ------------------------------------------------------------------
// Local refinement: re-scores candidate F0s with a raised-cosine
// weighting at the candidate period. The cosine is a fixed-point
// rational approximation on a Q15 grid (exact trigonometry has no
// place in integer arithmetic; only the ordering of energies matters).
// ------------------------------------------------------------------

/// Approximate sine of `u` (in units of pi/32768, for `u` in
/// `[0, 32768]`), in Q15.
pub open spec fn sin_q15(u: int) -> int {
    let g = u * (32768 - u) / 32768;
    (524288 * g) / (163840 - 4 * g)
}

/// Approximate cosine of a full-cycle phase `p` in `[0, 32768)`, Q15.
pub open spec fn cos_q15(p: int) -> int {
    let v = (2 * p + 16384) % 65536;
    if v <= 32768 {
        sin_q15(v)
    } else {
        -sin_q15(v - 32768)
    }
}

/// The raised-cosine weight of sample `i` at candidate F0 `f0c`
/// (hundredths of Hz): `(1 + cos(2 pi i / period)) / 2` in Q15, where
/// `period = 100 * fs / f0c` samples.
pub open spec fn weight_q15(i: int, f0c: int, fs: int) -> int {
    let den = fs * 100;
    let p = ((i * f0c) % den) * 32768 / den;
    (32768 + cos_q15(p)) / 2
}

/// The windowed harmonic energy of `x[s..s+n]` at candidate `f0c`.
pub open spec fn henergy_rec(x: Seq<i32>, s: int, f0c: int, fs: int, n: int) -> int
    decreases n,
{
    if n <= 0 {
        0
    } else {
        henergy_rec(x, s, f0c, fs, n - 1) + x[s + n - 1] * x[s + n - 1] * weight_q15(
            n - 1,
            f0c,
            fs,
        )
    }
}

/// The refinement scan: candidates `f0c + {-100, -50, 0, 50, 100}`
/// in order, keeping the one with strictly maximal energy.
pub open spec fn refine_scan(
    x: Seq<i32>,
    s: int,
    e: int,
    f0c: int,
    fs: int,
    k: int,
    best: int,
    max_e: int,
) -> int
    decreases 5 - k,
{
    if k >= 5 {
        best
    } else {
        let test = f0c + (k - 2) * 50;
        let en = henergy_rec(x, s, test, fs, e - s);
        if en > max_e {
            refine_scan(x, s, e, f0c, fs, k + 1, test, en)
        } else {
            refine_scan(x, s, e, f0c, fs, k + 1, best, max_e)
        }
    }
}

/// The refined F0 of a chunk, or the initial estimate when the chunk
/// is too short.
pub open spec fn refine_spec(x: Seq<i32>, s: int, e: int, f0c: int, fs: int) -> int {
    if e - s < 2 {
        f0c
    } else {
        refine_scan(x, s, e, f0c, fs, 0, f0c, 0)
    }
}

/// The F0 of analysis frame `i`: the lag search, refined when the
/// raw estimate is above the voicing floor (40 Hz).
pub open spec fn frame_f0_spec(x: Seq<i32>, fs: int, i: int) -> int {
    let s = i * DIO_HOP;
    let e = if s + DIO_WINDOW <= x.len() {
        s + DIO_WINDOW
    } else {
        x.len() as int
    };
    let raw = detect_pitch_spec(x, s, e, fs);
    if raw <= 4000 {
        raw
    } else {
        refine_spec(x, s, e, raw, fs)
    }
}

proof fn lemma_sin_q15_bounds(u: int)
    requires
        0 <= u <= 32768,
    ensures
        0 <= sin_q15(u) <= 32768,
{
    let prod = u * (32768 - u);
    assert((u - 16384) * (u - 16384) >= 0) by (nonlinear_arith);
    assert(0 <= prod <= 268435456) by (nonlinear_arith)
        requires
            0 <= u <= 32768,
            prod == u * (32768 - u),
            (u - 16384) * (u - 16384) >= 0,
    ;
    vstd::arithmetic::div_mod::lemma_div_pos_is_pos(prod, 32768);
    vstd::arithmetic::div_mod::lemma_div_is_ordered(prod, 268435456int, 32768);
    let g = prod / 32768;
    assert(0 <= g <= 8192);
    vstd::arithmetic::div_mod::lemma_div_pos_is_pos(524288 * g, 163840 - 4 * g);
    assert(524288 * g <= 32768 * (163840 - 4 * g)) by (nonlinear_arith)
        requires
            0 <= g <= 8192,
    ;
    vstd::arithmetic::div_mod::lemma_div_is_ordered(
        524288 * g,
        32768 * (163840 - 4 * g),
        163840 - 4 * g,
    );
    vstd::arithmetic::div_mod::lemma_div_multiples_vanish(32768, 163840 - 4 * g);
}

proof fn lemma_weight_q15_bounds(i: int, f0c: int, fs: int)
    requires
        fs >= 1,
        f0c >= 1,
        i >= 0,
    ensures
        0 <= weight_q15(i, f0c, fs) <= 32768,
{
    let den = fs * 100;
    assert(den >= 100) by (nonlinear_arith)
        requires
            fs >= 1,
            den == fs * 100,
    ;
    let rm = (i * f0c) % den;
    assert(i * f0c >= 0) by (nonlinear_arith)
        requires
            i >= 0,
            f0c >= 1,
    ;
    vstd::arithmetic::div_mod::lemma_mod_bound(i * f0c, den);
    let p = rm * 32768 / den;
    assert(rm * 32768 <= (den - 1) * 32768) by (nonlinear_arith)
        requires
            0 <= rm <= den - 1,
    ;
    vstd::arithmetic::div_mod::lemma_div_pos_is_pos(rm * 32768, den);
    assert((den - 1) * 32768 < den * 32768) by (nonlinear_arith)
        requires
            den >= 1,
    ;
    vstd::arithmetic::div_mod::lemma_div_is_ordered(rm * 32768, (den - 1) * 32768, den);
    vstd::arithmetic::div_mod::lemma_div_is_ordered((den - 1) * 32768, den * 32768, den);
    vstd::arithmetic::div_mod::lemma_div_multiples_vanish(32768, den);
    assert(((den - 1) * 32768) / den <= 32768);
    assert(0 <= p < 32768 || p == 32768);
    let v = (2 * p + 16384) % 65536;
    vstd::arithmetic::div_mod::lemma_mod_bound(2 * p + 16384, 65536);
    if v <= 32768 {
        lemma_sin_q15_bounds(v);
    } else {
        lemma_sin_q15_bounds(v - 32768);
    }
}

impl Dio {
    pub fn new(sample_rate: u32) -> (r: Dio)
        ensures
            r.sample_rate == sample_rate,
    {
        Dio { sample_rate }
    }

    /// The raw autocorrelation of `x[s..e]` at `lag`.
    #[verifier::loop_isolation(false)]
    fn autocorr_exec(&self, x: &Vec<i32>, s: usize, e: usize, lag: usize) -> (r: i128)
        requires
            s <= e <= x@.len(),
            lag < e - s,
        ensures
            r == autocorr(x@, s as int, e as int, lag as int),
    {
        let n = e - s - lag;
        let mut sum: i128 = 0;
        let mut i: usize = 0;
        while i < n
            invariant
                i <= n,
                n == e - s - lag,
                sum == corr_rec(x@, s as int, lag as int, i as int),
                -(i as int) * 0x4000_0000_0000_0000 <= sum <= (i as int) * 0x4000_0000_0000_0000,
            decreases n - i,
        {
            let a = x[s + i];
            let b = x[s + i + lag];
            proof {
                assert(-0x4000_0000_0000_0000 <= (a as int) * (b as int) <= 0x4000_0000_0000_0000)
                    by (nonlinear_arith)
                    requires
                        -0x8000_0000 <= a as int <= 0x8000_0000,
                        -0x8000_0000 <= b as int <= 0x8000_0000,
                ;
            }
            sum = sum + (a as i128) * (b as i128);
            i += 1;
        }
        sum
    }

    /// The discrete lag search over one chunk: scores each lag in
    /// `[fs/500, fs/50)` by raw autocorrelation and keeps the maximum;
    /// 0 when the chunk is short or no correlation is positive.
    #[verifier::loop_isolation(false)]
    fn detect_pitch(&self, x: &Vec<i32>, s: usize, e: usize) -> (r: u64)
        requires
            s <= e <= x@.len(),
        ensures
            r == detect_pitch_spec(x@, s as int, e as int, self.sample_rate as int),
    {
        if e - s < DIO_MIN_CHUNK {
            return 0;
        }
        let fs = self.sample_rate;
        let min_lag = (fs / 500) as usize;
        let max_lag = (fs / 50) as usize;
        let mut best: usize = 0;
        let mut max_corr: i128 = 0;
        let mut lag = min_lag;
        while lag < max_lag && lag < e - s
            invariant
                min_lag <= lag,
                scan_lags(x@, s as int, e as int, min_lag as int, max_lag as int, 0, 0)
                    == scan_lags(
                    x@,
                    s as int,
                    e as int,
                    lag as int,
                    max_lag as int,
                    best as int,
                    max_corr as int,
                ),
            decreases max_lag - lag,
        {
            let c = self.autocorr_exec(x, s, e, lag);
            if c > max_corr {
                max_corr = c;
                best = lag;
            }
            lag += 1;
        }
        if best > 0 {
            ((fs as u64) * 100) / (best as u64)
        } else {
            0
        }
    }

    /// The raised-cosine window weight of one sample, Q15.
    fn weight_exec(&self, i: usize, f0c: u64) -> (r: u64)
        requires
            self.sample_rate >= 1,
            1 <= f0c <= self.sample_rate * 100 + 100,
            i <= DIO_WINDOW,
        ensures
            r == weight_q15(i as int, f0c as int, self.sample_rate as int),
            r <= 32768,
    {
        proof {
            lemma_weight_q15_bounds(i as int, f0c as int, self.sample_rate as int);
        }
        let den: u64 = self.sample_rate as u64 * 100;
        proof {
            assert((i as int) * (f0c as int) <= 1024 * 0x19_0000_0000_0000 && 0 <= (i as int) * (
            f0c as int)) by (nonlinear_arith)
                requires
                    0 <= i as int <= 1024,
                    0 <= f0c as int <= 0x19_0000_0000_0000,
            ;
        }
        let rm: u64 = ((i as u64) * f0c) % den;
        let p: u64 = rm * 32768 / den;
        let v: u64 = (2 * p + 16384) % 65536;
        let (u, negate) = if v <= 32768 { (v, false) } else { (v - 32768, true) };
        proof {
            assert((u as int - 16384) * (u as int - 16384) >= 0) by (nonlinear_arith);
            assert(0 <= (u as int) * (32768 - u as int) <= 268435456) by (nonlinear_arith)
                requires
                    0 <= u as int <= 32768,
                    (u as int - 16384) * (u as int - 16384) >= 0,
            ;
            vstd::arithmetic::div_mod::lemma_div_pos_is_pos(
                (u as int) * (32768 - u as int),
                32768,
            );
            vstd::arithmetic::div_mod::lemma_div_is_ordered(
                (u as int) * (32768 - u as int),
                268435456int,
                32768,
            );
        }
        let g: u64 = u * (32768 - u) / 32768;
        let s: u64 = (524288 * g) / (163840 - 4 * g);
        proof {
            lemma_sin_q15_bounds(u as int);
        }
        if negate {
            (32768 - s) / 2
        } else {
            (32768 + s) / 2
        }
    }

    /// The raised-cosine-weighted energy of `x[s..e]` at a candidate.
    #[verifier::loop_isolation(false)]
    fn harmonic_energy(&self, x: &Vec<i32>, s: usize, e: usize, f0c: u64) -> (r: u128)
        requires
            s <= e <= x@.len(),
            e - s <= DIO_WINDOW,
            self.sample_rate >= 1,
            1 <= f0c <= self.sample_rate * 100 + 100,
        ensures
            r == henergy_rec(x@, s as int, f0c as int, self.sample_rate as int, e - s),
    {
        let n = e - s;
        let mut sum: u128 = 0;
        let mut i: usize = 0;
        while i < n
            invariant
                i <= n,
                n == e - s,
                sum == henergy_rec(x@, s as int, f0c as int, self.sample_rate as int, i as int),
                sum <= (i as int) * 0x2_0000_0000_0000_0000_0000,
            decreases n - i,
        {
            let a = x[s + i];
            proof {
                assert(0 <= (a as int) * (a as int) <= 0x4000_0000_0000_0000) by (nonlinear_arith)
                    requires
                        -0x8000_0000 <= a as int <= 0x8000_0000,
                ;
            }
            let sq: i64 = (a as i64) * (a as i64);
            let w = self.weight_exec(i, f0c);
            proof {
                lemma_weight_q15_bounds(i as int, f0c as int, self.sample_rate as int);
                assert((sq as int) * (w as int) <= 0x2_0000_0000_0000_0000_0000) by (
                nonlinear_arith)
                    requires
                        0 <= sq as int <= 0x4000_0000_0000_0000,
                        0 <= w as int <= 32768,
                ;
                assert((sq as int) * (w as int) >= 0) by (nonlinear_arith)
                    requires
                        0 <= sq as int,
                        0 <= w as int,
                ;
            }
            sum = sum + (sq as u128) * (w as u128);
            i += 1;
        }
        sum
    }

    /// Re-scores `f0c + {-1.0, -0.5, 0, 0.5, 1.0}` Hz with the
    /// windowed harmonic energy and keeps the best candidate.
    #[verifier::loop_isolation(false)]
    fn refine_local(&self, x: &Vec<i32>, s: usize, e: usize, f0c: u64) -> (r: u64)
        requires
            s <= e <= x@.len(),
            e - s <= DIO_WINDOW,
            self.sample_rate >= 1,
            4000 < f0c <= self.sample_rate * 100,
        ensures
            r == refine_spec(x@, s as int, e as int, f0c as int, self.sample_rate as int),
    {
        if e - s < 2 {
            return f0c;
        }
        let mut best = f0c;
        let mut max_e: u128 = 0;
        let mut k: usize = 0;
        while k < 5
            invariant
                k <= 5,
                refine_scan(x@, s as int, e as int, f0c as int, self.sample_rate as int, 0, f0c as int, 0)
                    == refine_scan(
                    x@,
                    s as int,
                    e as int,
                    f0c as int,
                    self.sample_rate as int,
                    k as int,
                    best as int,
                    max_e as int,
                ),
            decreases 5 - k,
        {
            let test: u64 = f0c + (k as u64) * 50 - 100;
            let en = self.harmonic_energy(x, s, e, test);
            if en > max_e {
                max_e = en;
                best = test;
            }
            k += 1;
        }
        best
    }

    /// Splits the input into hop-spaced chunks and estimates one F0
    /// per chunk, refining estimates above the voicing floor.
    #[verifier::loop_isolation(false)]
    pub fn estimate(&self, input: &Vec<i32>) -> (r: Vec<u64>)
        requires
            self.sample_rate >= 1,
        ensures
            r@.len() == input@.len() as int / DIO_HOP as int,
            forall|i: int|
                0 <= i < r@.len() ==> r@[i] == frame_f0_spec(
                    input@,
                    self.sample_rate as int,
                    i,
                ),
    {
        let n = input.len();
        let num_frames = n / DIO_HOP;
        let mut r: Vec<u64> = Vec::new();
        let mut i: usize = 0;
        while i < num_frames
            invariant
                i <= num_frames,
                num_frames == n / DIO_HOP,
                n == input@.len(),
                r@.len() == i,
                forall|q: int|
                    0 <= q < i ==> r@[q] == frame_f0_spec(input@, self.sample_rate as int, q),
            decreases num_frames - i,
        {
            let s = i * DIO_HOP;
            proof {
                assert(i * DIO_HOP + DIO_HOP <= num_frames * DIO_HOP) by (nonlinear_arith)
                    requires
                        i < num_frames,
                        DIO_HOP == 256,
                ;
                vstd::arithmetic::div_mod::lemma_fundamental_div_mod(n as int, DIO_HOP as int);
                vstd::arithmetic::div_mod::lemma_mod_bound(n as int, DIO_HOP as int);
            }
            let e = if n - s >= DIO_WINDOW { s + DIO_WINDOW } else { n };
            let raw = self.detect_pitch(input, s, e);
            let f0 = if raw <= 4000 {
                raw
            } else {
                proof {
                    lemma_detect_pitch_le(input@, s as int, e as int, self.sample_rate as int);
                }
                self.refine_local(input, s, e, raw)
            };
            r.push(f0);
            i += 1;
        }
        r
    }
}

/// A positive lag-search result never exceeds `100 * fs`.
proof fn lemma_detect_pitch_le(x: Seq<i32>, s: int, e: int, fs: int)
    requires
        fs >= 1,
    ensures
        detect_pitch_spec(x, s, e, fs) <= 100 * fs,
{
    if e - s >= DIO_MIN_CHUNK {
        let best = scan_lags(x, s, e, fs / 500, fs / 50, 0, 0);
        if best > 0 {
            vstd::arithmetic::div_mod::lemma_div_is_ordered_by_denominator(fs * 100, 1, best);
        }
    }
}

} // verus!
