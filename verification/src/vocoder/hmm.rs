use vstd::prelude::*;

verus! {

// ------------------------------------------------------------------
// Two-state voicing model over F0 tracks.
//
// F0 values are in hundredths of a hertz; log-probabilities are in
// hundred-thousandths of a nat (the natural logarithms of the fixed
// transition probabilities, rounded to that grid). State 0 is Voiced,
// state 1 is Unvoiced.
// ------------------------------------------------------------------

#[derive(Debug, Clone, Copy, PartialEq, Eq, Structural)]
pub enum VoicingState {
    Voiced,
    Unvoiced,
}

/// F0 values at or above this (hundredths of Hz, i.e. 40 Hz) count as
/// voiced observations.
pub const F0_FLOOR_CENTIHZ: u64 = 4000;

/// ln(0.95), scaled by 10000.
pub const LOG_P_VV: i64 = -513;

/// ln(0.05), scaled by 10000.
pub const LOG_P_VU: i64 = -29957;

/// ln(0.15), scaled by 10000.
pub const LOG_P_UV: i64 = -18971;

/// ln(0.85), scaled by 10000.
pub const LOG_P_UU: i64 = -1625;

pub struct VoicingHmm {
    pub log_p_vv: i64,
    pub log_p_vu: i64,
    pub log_p_uv: i64,
    pub log_p_uu: i64,
    pub f0_threshold: u64,
}

pub open spec fn trans_score(i: int, j: int) -> int {
    if i == 0 && j == 0 {
        LOG_P_VV as int
    } else if i == 0 {
        LOG_P_VU as int
    } else if j == 0 {
        LOG_P_UV as int
    } else {
        LOG_P_UU as int
    }
}

/// Emission score of an observation in a state: consistent
/// observations cost little, inconsistent ones are penalized
/// asymmetrically, with a heavier penalty for finding F0 in the
/// unvoiced state (humming) than for silence in the voiced state, so
/// an isolated dropout inside a voiced run stays voiced.
pub open spec fn emit_score(f0v: u64, j: int) -> int {
    if j == 0 {
        if f0v >= F0_FLOOR_CENTIHZ {
            -5000
        } else {
            -40000
        }
    } else {
        if f0v < F0_FLOOR_CENTIHZ {
            -500
        } else {
            -80000
        }
    }
}

/// Initial score: the state matching frame 0's observation is favored.
pub open spec fn init_score(f0: Seq<u64>, j: int) -> int {
    if j == 0 {
        if f0[0] >= F0_FLOOR_CENTIHZ {
            -3000
        } else {
            -20000
        }
    } else {
        if f0[0] < F0_FLOOR_CENTIHZ {
            -3000
        } else {
            -20000
        }
    }
}

/// Best score of any state path that ends in state `j` at frame `t`.
pub open spec fn vit_score(f0: Seq<u64>, t: int, j: int) -> int
    decreases t,
{
    if t <= 0 {
        init_score(f0, j) + emit_score(f0[0], j)
    } else {
        let a = vit_score(f0, t - 1, 0) + trans_score(0, j);
        let b = vit_score(f0, t - 1, 1) + trans_score(1, j);
        (if a >= b { a } else { b }) + emit_score(f0[t], j)
    }
}

/// The predecessor state a best path takes into state `j` at frame
/// `t`; the voiced state wins ties, as the forward pass scans it
/// first.
pub open spec fn vit_prev(f0: Seq<u64>, t: int, j: int) -> int {
    if vit_score(f0, t - 1, 0) + trans_score(0, j) >= vit_score(f0, t - 1, 1) + trans_score(
        1,
        j,
    ) {
        0
    } else {
        1
    }
}

/// The state the backtrace starts from; the unvoiced state wins ties.
pub open spec fn vit_last(f0: Seq<u64>, n: int) -> int {
    if vit_score(f0, n - 1, 0) > vit_score(f0, n - 1, 1) {
        0
    } else {
        1
    }
}

/// The decoded state at frame `t`, read off the backtrace.
pub open spec fn vit_state(f0: Seq<u64>, n: int, t: int) -> int
    decreases n - t,
{
    if t >= n - 1 {
        vit_last(f0, n)
    } else {
        vit_prev(f0, t + 1, vit_state(f0, n, t + 1))
    }
}

// ------------------------------------------------------------------
// F0 smoothing: voiced/unvoiced cleanup, gap interpolation, and a
// median filter over voiced runs.
// ------------------------------------------------------------------

/// Index of the nearest frame before `i` at or above the floor, or -1.
pub open spec fn prev_voiced(f0: Seq<u64>, i: int) -> int
    decreases i,
{
    if i <= 0 {
        -1
    } else if f0[i - 1] >= F0_FLOOR_CENTIHZ {
        i - 1
    } else {
        prev_voiced(f0, i - 1)
    }
}

/// Index of the nearest frame at or after `i` at or above the floor,
/// or `f0.len()`.
pub open spec fn next_voiced(f0: Seq<u64>, i: int) -> int
    decreases f0.len() - i,
{
    if i >= f0.len() {
        f0.len() as int
    } else if f0[i] >= F0_FLOOR_CENTIHZ {
        i
    } else {
        next_voiced(f0, i + 1)
    }
}

/// Linear interpolation between voiced neighbors `p < i < nx`,
/// truncated to whole hundredths of a hertz.
pub open spec fn interp_val(f0: Seq<u64>, p: int, nx: int, i: int) -> int {
    (f0[p] * (nx - i) + f0[nx] * (i - p)) / (nx - p)
}

/// The first smoothing stage: unvoiced frames are zeroed; voiced
/// frames below the floor are filled from the nearest neighbors at or
/// above it.
pub open spec fn smooth1(f0: Seq<u64>, i: int) -> int {
    let n = f0.len() as int;
    if vit_state(f0, n, i) != 0 {
        0
    } else if f0[i] >= F0_FLOOR_CENTIHZ {
        f0[i] as int
    } else {
        let p = prev_voiced(f0, i);
        let nx = next_voiced(f0, i + 1);
        if p >= 0 && nx < n {
            interp_val(f0, p, nx, i)
        } else if p >= 0 {
            f0[p] as int
        } else if nx < n {
            f0[nx] as int
        } else {
            0
        }
    }
}

pub open spec fn smooth1_seq(f0: Seq<u64>) -> Seq<u64> {
    Seq::new(f0.len(), |i: int| smooth1(f0, i) as u64)
}

/// The positive values of `s`, in order.
pub open spec fn positives(s: Seq<u64>) -> Seq<u64>
    decreases s.len(),
{
    if s.len() == 0 {
        Seq::empty()
    } else if s.last() > 0 {
        positives(s.drop_last()).push(s.last())
    } else {
        positives(s.drop_last())
    }
}

/// Insertion into a sorted sequence, before the first element that is
/// not smaller.
pub open spec fn insert_sorted(x: u64, s: Seq<u64>) -> Seq<u64>
    decreases s.len(),
{
    if s.len() == 0 {
        seq![x]
    } else if x <= s[0] {
        seq![x] + s
    } else {
        seq![s[0]] + insert_sorted(x, s.drop_first())
    }
}

/// Insertion sort, processing elements left to right.
pub open spec fn sort_spec(s: Seq<u64>) -> Seq<u64>
    decreases s.len(),
{
    if s.len() == 0 {
        Seq::empty()
    } else {
        insert_sorted(s.last(), sort_spec(s.drop_last()))
    }
}

/// The upper median: the middle element of the sorted window.
pub open spec fn med_spec(w: Seq<u64>) -> u64 {
    sort_spec(w)[w.len() as int / 2]
}

/// The window a frame's median is taken over: the positive values
/// within radius 2.
pub open spec fn med_window(s1: Seq<u64>, i: int) -> Seq<u64> {
    let lo = if i >= 2 { i - 2 } else { 0 };
    let hi = if i + 3 <= s1.len() { i + 3 } else { s1.len() as int };
    positives(s1.subrange(lo, hi))
}

/// The smoothed F0 of frame `i`: zero outside voiced runs, the
/// neighborhood median within them.
pub open spec fn smooth_val(f0: Seq<u64>, i: int) -> u64 {
    let s1 = smooth1_seq(f0);
    if s1[i] > 0 {
        med_spec(med_window(s1, i))
    } else {
        0
    }
}

pub open spec fn state_of(j: int) -> VoicingState {
    if j == 0 {
        VoicingState::Voiced
    } else {
        VoicingState::Unvoiced
    }
}

proof fn lemma_prev_voiced_none(f0: Seq<u64>, i: int)
    requires
        forall|j: int| 0 <= j < f0.len() ==> f0[j] < F0_FLOOR_CENTIHZ,
        i <= f0.len(),
    ensures
        prev_voiced(f0, i) == -1,
    decreases i,
{
    if i > 0 {
        lemma_prev_voiced_none(f0, i - 1);
    }
}

proof fn lemma_next_voiced_none(f0: Seq<u64>, i: int)
    requires
        forall|j: int| 0 <= j < f0.len() ==> f0[j] < F0_FLOOR_CENTIHZ,
        0 <= i,
    ensures
        next_voiced(f0, i) == f0.len(),
    decreases f0.len() - i,
{
    if i < f0.len() {
        lemma_next_voiced_none(f0, i + 1);
    }
}

/// A track with no frame at or above the voicing floor smooths to
/// all-zero: no voiced value exists to keep or to interpolate from.
pub proof fn lemma_smooth_all_unvoiced(f0: Seq<u64>)
    requires
        forall|j: int| 0 <= j < f0.len() ==> f0[j] < F0_FLOOR_CENTIHZ,
    ensures
        forall|i: int| 0 <= i < f0.len() ==> smooth_val(f0, i) == 0,
{
    assert forall|i: int| 0 <= i < f0.len() implies smooth_val(f0, i) == 0 by {
        lemma_prev_voiced_none(f0, i);
        lemma_next_voiced_none(f0, i + 1);
        assert(smooth1(f0, i) == 0);
        assert(smooth1_seq(f0)[i] == 0);
    }
}

proof fn lemma_prev_voiced_props(f0: Seq<u64>, i: int)
    requires
        0 <= i <= f0.len(),
    ensures
        prev_voiced(f0, i) == -1 || (0 <= prev_voiced(f0, i) < i && f0[prev_voiced(f0, i)]
            >= F0_FLOOR_CENTIHZ),
    decreases i,
{
    if i > 0 && f0[i - 1] < F0_FLOOR_CENTIHZ {
        lemma_prev_voiced_props(f0, i - 1);
    }
}

proof fn lemma_next_voiced_props(f0: Seq<u64>, i: int)
    requires
        0 <= i,
    ensures
        next_voiced(f0, i) == f0.len() || (i <= next_voiced(f0, i) < f0.len() && f0[next_voiced(
            f0,
            i,
        )] >= F0_FLOOR_CENTIHZ),
    decreases f0.len() - i,
{
    if i < f0.len() && f0[i] < F0_FLOOR_CENTIHZ {
        lemma_next_voiced_props(f0, i + 1);
    }
}

/// Interpolating between two voiced neighbors stays at or above the
/// smaller of them.
proof fn lemma_interp_lower(f0: Seq<u64>, p: int, nx: int, i: int)
    requires
        0 <= p < i < nx < f0.len(),
    ensures
        interp_val(f0, p, nx, i) >= (if f0[p] <= f0[nx] {
            f0[p] as int
        } else {
            f0[nx] as int
        }),
{
    let m: int = if f0[p] <= f0[nx] {
        f0[p] as int
    } else {
        f0[nx] as int
    };
    let num = f0[p] * (nx - i) + f0[nx] * (i - p);
    let d = nx - p;
    assert(num >= m * d) by (nonlinear_arith)
        requires
            m <= f0[p],
            m <= f0[nx],
            0 < i - p,
            0 < nx - i,
            d == (nx - i) + (i - p),
            num == f0[p] * (nx - i) + f0[nx] * (i - p),
            m >= 0,
    ;
    vstd::arithmetic::div_mod::lemma_div_is_ordered(m * d, num, d);
    vstd::arithmetic::div_mod::lemma_div_multiples_vanish(m, d);
}

proof fn lemma_positives_pos(s: Seq<u64>)
    ensures
        forall|j: int| 0 <= j < positives(s).len() ==> #[trigger] positives(s)[j] > 0,
    decreases s.len(),
{
    if s.len() > 0 {
        lemma_positives_pos(s.drop_last());
        if s.last() > 0 {
            let rec = positives(s.drop_last());
            assert forall|j: int| 0 <= j < positives(s).len() implies #[trigger] positives(s)[j]
                > 0 by {
                if j < rec.len() {
                    assert(positives(s)[j] == rec[j]);
                } else {
                    assert(positives(s)[j] == s.last());
                }
            }
        }
    }
}

proof fn lemma_positives_nonempty(s: Seq<u64>, k: int)
    requires
        0 <= k < s.len(),
        s[k] > 0,
    ensures
        positives(s).len() > 0,
    decreases s.len(),
{
    if !(s.last() > 0) {
        lemma_positives_nonempty(s.drop_last(), k);
    }
}

proof fn lemma_insert_sorted_pos(x: u64, s: Seq<u64>)
    requires
        x > 0,
        forall|j: int| 0 <= j < s.len() ==> #[trigger] s[j] > 0,
    ensures
        forall|j: int| 0 <= j < insert_sorted(x, s).len() ==> #[trigger] insert_sorted(x, s)[j]
            > 0,
    decreases s.len(),
{
    if s.len() == 0 {
        assert(insert_sorted(x, s) =~= seq![x]);
    } else if x <= s[0] {
        assert forall|j: int| 0 <= j < insert_sorted(x, s).len() implies #[trigger] insert_sorted(
            x,
            s,
        )[j] > 0 by {
            if j > 0 {
                assert(insert_sorted(x, s)[j] == s[j - 1]);
            }
        }
    } else {
        assert(forall|j: int|
            0 <= j < s.drop_first().len() ==> #[trigger] s.drop_first()[j] > 0);
        lemma_insert_sorted_pos(x, s.drop_first());
        let rec = insert_sorted(x, s.drop_first());
        assert forall|j: int| 0 <= j < insert_sorted(x, s).len() implies #[trigger] insert_sorted(
            x,
            s,
        )[j] > 0 by {
            if j == 0 {
                assert(insert_sorted(x, s)[0] == s[0]);
            } else {
                assert(insert_sorted(x, s)[j] == rec[j - 1]);
            }
        }
    }
}

proof fn lemma_sort_spec_pos(s: Seq<u64>)
    requires
        forall|j: int| 0 <= j < s.len() ==> #[trigger] s[j] > 0,
    ensures
        forall|j: int| 0 <= j < sort_spec(s).len() ==> #[trigger] sort_spec(s)[j] > 0,
    decreases s.len(),
{
    if s.len() > 0 {
        assert(forall|j: int| 0 <= j < s.drop_last().len() ==> #[trigger] s.drop_last()[j] > 0);
        lemma_sort_spec_pos(s.drop_last());
        lemma_insert_sorted_pos(s.last(), sort_spec(s.drop_last()));
    }
}

/// A frame the decoder holds voiced smooths to a positive value
/// whenever any frame at or above the floor exists to draw from: in
/// particular, an isolated dropout between voiced neighbors is filled
/// with a positive interpolated pitch, and the median stage keeps it
/// positive.
pub proof fn lemma_smooth_voiced_gap_positive(f0: Seq<u64>, i: int)
    requires
        0 <= i < f0.len(),
        vit_state(f0, f0.len() as int, i) == 0,
        f0[i] >= F0_FLOOR_CENTIHZ || prev_voiced(f0, i) >= 0 || next_voiced(f0, i + 1)
            < f0.len(),
    ensures
        smooth_val(f0, i) > 0,
{
    let n = f0.len() as int;
    // The first stage yields a positive value at `i`.
    lemma_prev_voiced_props(f0, i);
    lemma_next_voiced_props(f0, i + 1);
    if f0[i] < F0_FLOOR_CENTIHZ {
        let p = prev_voiced(f0, i);
        let nx = next_voiced(f0, i + 1);
        if p >= 0 && nx < n {
            lemma_interp_lower(f0, p, nx, i);
            lemma_interp_bounds(f0, p, nx, i);
        }
    }
    assert(smooth1(f0, i) > 0);
    assert(0 <= smooth1(f0, i) <= u64::MAX) by {
        if f0[i] < F0_FLOOR_CENTIHZ {
            let p = prev_voiced(f0, i);
            let nx = next_voiced(f0, i + 1);
            if p >= 0 && nx < n {
                lemma_interp_bounds(f0, p, nx, i);
            }
        }
    }
    let s1 = smooth1_seq(f0);
    assert(s1[i] > 0);

    // The median window holds only positive values and is not empty.
    let lo = if i >= 2 {
        i - 2
    } else {
        0
    };
    let hi = if i + 3 <= s1.len() {
        i + 3
    } else {
        s1.len() as int
    };
    let sub = s1.subrange(lo, hi);
    assert(sub[i - lo] == s1[i]);
    lemma_positives_nonempty(sub, i - lo);
    lemma_positives_pos(sub);
    let w = positives(sub);
    assert(forall|j: int| 0 <= j < w.len() ==> #[trigger] w[j] > 0);
    lemma_sort_spec_pos(w);
    lemma_sort_spec_len(w);
    assert(sort_spec(w)[w.len() as int / 2] > 0);
}

pub proof fn lemma_insert_sorted_len(x: u64, s: Seq<u64>)
    ensures
        insert_sorted(x, s).len() == s.len() + 1,
    decreases s.len(),
{
    if s.len() > 0 && !(x <= s[0]) {
        lemma_insert_sorted_len(x, s.drop_first());
    }
}

pub proof fn lemma_sort_spec_len(s: Seq<u64>)
    ensures
        sort_spec(s).len() == s.len(),
    decreases s.len(),
{
    if s.len() > 0 {
        lemma_sort_spec_len(s.drop_last());
        lemma_insert_sorted_len(s.last(), sort_spec(s.drop_last()));
    }
}

/// Inserting before the first element that is not smaller is what
/// `insert_sorted` does.
proof fn lemma_insert_sorted_at(s: Seq<u64>, x: u64, k: int)
    requires
        0 <= k <= s.len(),
        forall|j: int| 0 <= j < k ==> s[j] < x,
        k < s.len() ==> x <= s[k],
    ensures
        insert_sorted(x, s) == s.take(k) + seq![x] + s.skip(k),
    decreases k,
{
    if k == 0 {
        if s.len() == 0 {
            assert(insert_sorted(x, s) =~= s.take(0) + seq![x] + s.skip(0));
        } else {
            assert(x <= s[0]);
            assert(insert_sorted(x, s) =~= s.take(0) + seq![x] + s.skip(0));
        }
    } else {
        assert(s[0] < x);
        let rest = s.drop_first();
        lemma_insert_sorted_at(rest, x, k - 1);
        assert(rest.take(k - 1) =~= s.subrange(1, k));
        assert(rest.skip(k - 1) =~= s.skip(k));
        assert(seq![s[0]] + (rest.take(k - 1) + seq![x] + rest.skip(k - 1)) =~= s.take(k)
            + seq![x] + s.skip(k));
    }
}

/// The interpolated value lies between zero and the larger neighbor.
proof fn lemma_interp_bounds(f0: Seq<u64>, p: int, nx: int, i: int)
    requires
        0 <= p < i < nx < f0.len(),
    ensures
        0 <= interp_val(f0, p, nx, i),
        interp_val(f0, p, nx, i) <= f0[p] || interp_val(f0, p, nx, i) <= f0[nx],
        f0[p] * (nx - i) + f0[nx] * (i - p) <= (if f0[p] >= f0[nx] {
            f0[p]
        } else {
            f0[nx]
        }) * (nx - p),
{
    let m: int = if f0[p] >= f0[nx] { f0[p] as int } else { f0[nx] as int };
    let num = f0[p] * (nx - i) + f0[nx] * (i - p);
    let d = nx - p;
    assert(num <= m * d) by (nonlinear_arith)
        requires
            0 <= f0[p] <= m,
            0 <= f0[nx] <= m,
            0 < i - p,
            0 < nx - i,
            d == (nx - i) + (i - p),
            num == f0[p] * (nx - i) + f0[nx] * (i - p),
    ;
    assert(num >= 0) by (nonlinear_arith)
        requires
            0 <= f0[p],
            0 <= f0[nx],
            0 < i - p,
            0 < nx - i,
            num == f0[p] * (nx - i) + f0[nx] * (i - p),
    ;
    vstd::arithmetic::div_mod::lemma_div_is_ordered(num, m * d, d);
    vstd::arithmetic::div_mod::lemma_div_multiples_vanish(m, d);
    vstd::arithmetic::div_mod::lemma_div_pos_is_pos(num, d);
}

/// Finds the nearest frame before `i` at or above the floor.
#[verifier::loop_isolation(false)]
fn prev_voiced_exec(f0: &Vec<u64>, i: usize) -> (r: Option<usize>)
    requires
        i <= f0@.len(),
    ensures
        match r {
            Some(p) => p < i && prev_voiced(f0@, i as int) == p,
            None => prev_voiced(f0@, i as int) == -1,
        },
{
    let mut j = i;
    while j > 0
        invariant
            j <= i,
            prev_voiced(f0@, i as int) == prev_voiced(f0@, j as int),
        decreases j,
    {
        if f0[j - 1] >= F0_FLOOR_CENTIHZ {
            return Some(j - 1);
        }
        j -= 1;
    }
    None
}

/// Finds the nearest frame at or after `i` at or above the floor.
#[verifier::loop_isolation(false)]
fn next_voiced_exec(f0: &Vec<u64>, i: usize) -> (r: Option<usize>)
    requires
        i <= f0@.len(),
    ensures
        match r {
            Some(nx) => i <= nx < f0@.len() && next_voiced(f0@, i as int) == nx,
            None => next_voiced(f0@, i as int) == f0@.len(),
        },
{
    let mut j = i;
    while j < f0.len()
        invariant
            i <= j,
            j <= f0@.len(),
            next_voiced(f0@, i as int) == next_voiced(f0@, j as int),
        decreases f0@.len() - j,
    {
        if f0[j] >= F0_FLOOR_CENTIHZ {
            return Some(j);
        }
        j += 1;
    }
    None
}

/// Linear interpolation between the voiced neighbors of frame `i`.
fn interp_exec(f0: &Vec<u64>, p: usize, nx: usize, i: usize) -> (r: u64)
    requires
        p < i < nx < f0@.len(),
    ensures
        r as int == interp_val(f0@, p as int, nx as int, i as int),
{
    proof {
        lemma_interp_bounds(f0@, p as int, nx as int, i as int);
        let m: int = if f0@[p as int] >= f0@[nx as int] {
            f0@[p as int] as int
        } else {
            f0@[nx as int] as int
        };
        assert(m * (nx - p) <= (u64::MAX as int) * (u64::MAX as int)) by (nonlinear_arith)
            requires
                0 <= m <= u64::MAX as int,
                0 < nx - p <= u64::MAX as int,
        ;
    }
    let a = f0[p] as u128;
    let b = f0[nx] as u128;
    let num = a * (nx - i) as u128 + b * (i - p) as u128;
    let d = (nx - p) as u128;
    (num / d) as u64
}

/// The median of the positive values within radius 2 of `i`.
#[verifier::loop_isolation(false)]
fn median_window_exec(s1: &Vec<u64>, i: usize) -> (r: u64)
    requires
        i < s1@.len(),
        s1@[i as int] > 0,
    ensures
        r == med_spec(med_window(s1@, i as int)),
{
    let n = s1.len();
    let lo = if i >= 2 { i - 2 } else { 0 };
    let hi = if n - i > 3 { i + 3 } else { n };
    let mut w: Vec<u64> = Vec::new();
    let mut j = lo;
    proof {
        assert(s1@.subrange(lo as int, lo as int) =~= Seq::<u64>::empty());
    }
    while j < hi
        invariant
            lo <= j <= hi <= s1@.len(),
            lo <= i < hi,
            w@ == positives(s1@.subrange(lo as int, j as int)),
            j > i ==> w@.len() > 0,
        decreases hi - j,
    {
        proof {
            assert(s1@.subrange(lo as int, j + 1).drop_last() =~= s1@.subrange(
                lo as int,
                j as int,
            ));
            assert(s1@.subrange(lo as int, j + 1).last() == s1@[j as int]);
        }
        if s1[j] > 0 {
            w.push(s1[j]);
        }
        j += 1;
    }
    let sorted = sort_small(&w);
    sorted[w.len() / 2]
}

/// Insertion sort over a vector of track values.
#[verifier::loop_isolation(false)]
pub(crate) fn sort_small(w: &Vec<u64>) -> (r: Vec<u64>)
    ensures
        r@ == sort_spec(w@),
        r@.len() == w@.len(),
{
    let mut r: Vec<u64> = Vec::new();
    let mut i: usize = 0;
    proof {
        assert(w@.take(0) =~= Seq::<u64>::empty());
    }
    while i < w.len()
        invariant
            i <= w@.len(),
            r@ == sort_spec(w@.take(i as int)),
            r@.len() == i,
        decreases w@.len() - i,
    {
        let x = w[i];
        let mut k: usize = 0;
        while k < r.len() && r[k] < x
            invariant
                k <= r@.len(),
                forall|j: int| 0 <= j < k ==> r@[j] < x,
            decreases r@.len() - k,
        {
            k += 1;
        }
        proof {
            lemma_insert_sorted_at(r@, x, k as int);
            assert(w@.take(i + 1).drop_last() =~= w@.take(i as int));
            assert(w@.take(i + 1).last() == w@[i as int]);
        }
        r.insert(k, x);
        proof {
            assert(r@ =~= sort_spec(w@.take(i + 1)));
        }
        i += 1;
    }
    proof {
        assert(w@.take(w@.len() as int) =~= w@);
        lemma_sort_spec_len(w@);
    }
    r
}

impl VoicingHmm {
    /// The fields hold the fixed model constants.
    pub open spec fn wf(self) -> bool {
        &&& self.log_p_vv == LOG_P_VV
        &&& self.log_p_vu == LOG_P_VU
        &&& self.log_p_uv == LOG_P_UV
        &&& self.log_p_uu == LOG_P_UU
        &&& self.f0_threshold == F0_FLOOR_CENTIHZ
    }

    /// Speech is mostly voiced, with occasional unvoiced transitions.
    pub fn new() -> (r: VoicingHmm)
        ensures
            r.wf(),
    {
        VoicingHmm {
            log_p_vv: LOG_P_VV,
            log_p_vu: LOG_P_VU,
            log_p_uv: LOG_P_UV,
            log_p_uu: LOG_P_UU,
            f0_threshold: F0_FLOOR_CENTIHZ,
        }
    }

    fn emission_log_prob(&self, f0v: u64, state: VoicingState) -> (r: i64)
        requires
            self.wf(),
        ensures
            r == emit_score(f0v, if state is Voiced { 0int } else { 1int }),
    {
        match state {
            VoicingState::Voiced => {
                if f0v >= self.f0_threshold {
                    -5000
                } else {
                    -40000
                }
            },
            VoicingState::Unvoiced => {
                if f0v < self.f0_threshold {
                    -500
                } else {
                    -80000
                }
            },
        }
    }

    /// Viterbi decoding: the exact maximum-likelihood state sequence,
    /// with the tie-breaking of a forward pass that scans the voiced
    /// state first and a backtrace that starts unvoiced on ties.
    #[verifier::loop_isolation(false)]
    #[verifier::rlimit(60)]
    pub fn decode(&self, f0: &Vec<u64>) -> (r: Vec<VoicingState>)
        requires
            self.wf(),
        ensures
            r@.len() == f0@.len(),
            forall|t: int|
                0 <= t < f0@.len() ==> r@[t] == state_of(
                    vit_state(f0@, f0@.len() as int, t),
                ),
    {
        let n = f0.len();
        if n == 0 {
            return Vec::new();
        }

        // Forward pass: best score per state, with backpointers.
        let mut bp_v: Vec<u8> = Vec::new();
        let mut bp_u: Vec<u8> = Vec::new();
        bp_v.push(0);
        bp_u.push(0);
        let f00 = f0[0];
        let init_v: i64 = if f00 >= self.f0_threshold { -3000 } else { -20000 };
        let init_u: i64 = if f00 < self.f0_threshold { -3000 } else { -20000 };
        let mut score_v: i128 = init_v as i128 + self.emission_log_prob(
            f00,
            VoicingState::Voiced,
        ) as i128;
        let mut score_u: i128 = init_u as i128 + self.emission_log_prob(
            f00,
            VoicingState::Unvoiced,
        ) as i128;
        let mut t: usize = 1;
        while t < n
            invariant
                1 <= t <= n,
                n == f0@.len(),
                bp_v@.len() == t,
                bp_u@.len() == t,
                score_v == vit_score(f0@, t - 1, 0),
                score_u == vit_score(f0@, t - 1, 1),
                -200000 * (t as int) <= score_v <= 0,
                -200000 * (t as int) <= score_u <= 0,
                forall|s: int| 1 <= s < t ==> bp_v@[s] == vit_prev(f0@, s, 0),
                forall|s: int| 1 <= s < t ==> bp_u@[s] == vit_prev(f0@, s, 1),
            decreases n - t,
        {
            let f0t = f0[t];
            let cand_vv = score_v + self.log_p_vv as i128;
            let cand_uv = score_u + self.log_p_uv as i128;
            let (pv, base_v) = if cand_vv >= cand_uv { (0u8, cand_vv) } else { (1u8, cand_uv) };
            let cand_vu = score_v + self.log_p_vu as i128;
            let cand_uu = score_u + self.log_p_uu as i128;
            let (pu, base_u) = if cand_vu >= cand_uu { (0u8, cand_vu) } else { (1u8, cand_uu) };
            let new_v = base_v + self.emission_log_prob(f0t, VoicingState::Voiced) as i128;
            let new_u = base_u + self.emission_log_prob(f0t, VoicingState::Unvoiced) as i128;
            bp_v.push(pv);
            bp_u.push(pu);
            score_v = new_v;
            score_u = new_u;
            t += 1;
        }

        // Backtrace.
        let mut path: Vec<VoicingState> = Vec::new();
        let mut fill: usize = 0;
        while fill < n
            invariant
                fill <= n,
                path@.len() == fill,
            decreases n - fill,
        {
            path.push(VoicingState::Unvoiced);
            fill += 1;
        }
        let mut cur: u8 = if score_v > score_u { 0 } else { 1 };
        proof {
            assert(cur as int == vit_state(f0@, n as int, n - 1));
        }
        path.set(n - 1, if cur == 0 { VoicingState::Voiced } else { VoicingState::Unvoiced });
        let mut s: usize = n - 1;
        while s > 0
            invariant
                0 <= s <= n - 1,
                n == f0@.len(),
                path@.len() == n,
                bp_v@.len() == n,
                bp_u@.len() == n,
                forall|q: int| 1 <= q < n ==> bp_v@[q] == vit_prev(f0@, q, 0),
                forall|q: int| 1 <= q < n ==> bp_u@[q] == vit_prev(f0@, q, 1),
                cur as int == vit_state(f0@, n as int, s as int),
                forall|q: int|
                    s <= q < n ==> path@[q] == state_of(vit_state(f0@, n as int, q)),
            decreases s,
        {
            cur = if cur == 0 { bp_v[s] } else { bp_u[s] };
            proof {
                assert(cur as int == vit_state(f0@, n as int, s - 1));
            }
            path.set(s - 1, if cur == 0 { VoicingState::Voiced } else { VoicingState::Unvoiced });
            s -= 1;
        }
        path
    }

    /// Smooths an F0 track: unvoiced frames are zeroed, voiced frames
    /// below the floor are interpolated from their voiced neighbors,
    /// and a radius-2 median over positive values removes spikes.
    #[verifier::loop_isolation(false)]
    #[verifier::rlimit(60)]
    pub fn smooth_f0(&self, f0: &Vec<u64>) -> (r: Vec<u64>)
        requires
            self.wf(),
        ensures
            r@.len() == f0@.len(),
            forall|i: int| 0 <= i < f0@.len() ==> r@[i] == smooth_val(f0@, i),
    {
        let n = f0.len();
        let voicing = self.decode(f0);
        let mut s1: Vec<u64> = Vec::new();
        let mut i: usize = 0;
        while i < n
            invariant
                i <= n,
                n == f0@.len(),
                voicing@.len() == n,
                forall|t: int|
                    0 <= t < n ==> voicing@[t] == state_of(vit_state(f0@, n as int, t)),
                s1@.len() == i,
                forall|j: int|
                    0 <= j < i ==> #[trigger] s1@[j] == smooth1(f0@, j) as u64 && 0 <= smooth1(
                        f0@,
                        j,
                    ) <= u64::MAX,
            decreases n - i,
        {
            let v: u64 = match voicing[i] {
                VoicingState::Voiced => {
                    if f0[i] >= self.f0_threshold {
                        f0[i]
                    } else {
                        let p = prev_voiced_exec(f0, i);
                        let nx = next_voiced_exec(f0, i + 1);
                        match (p, nx) {
                            (Some(pp), Some(nn)) => {
                                proof {
                                    lemma_interp_bounds(f0@, pp as int, nn as int, i as int);
                                }
                                interp_exec(f0, pp, nn, i)
                            },
                            (Some(pp), None) => f0[pp],
                            (None, Some(nn)) => f0[nn],
                            (None, None) => 0,
                        }
                    }
                },
                VoicingState::Unvoiced => 0,
            };
            s1.push(v);
            i += 1;
        }
        proof {
            assert(s1@ =~= smooth1_seq(f0@));
        }
        let mut out: Vec<u64> = Vec::new();
        let mut q: usize = 0;
        while q < n
            invariant
                q <= n,
                n == f0@.len(),
                s1@ == smooth1_seq(f0@),
                s1@.len() == n,
                out@.len() == q,
                forall|j: int| 0 <= j < q ==> #[trigger] out@[j] == smooth_val(f0@, j),
            decreases n - q,
        {
            if s1[q] > 0 {
                let m = median_window_exec(&s1, q);
                out.push(m);
            } else {
                out.push(0);
            }
            q += 1;
        }
        out
    }
}

} // verus!
