use vstd::prelude::*;

verus! {

// ------------------------------------------------------------------
// The render timeline: per output frame, a source position on a
// one-microsecond grid. Analysis frames sit every 5000 us (5 ms, 200
// frames per second).
// ------------------------------------------------------------------

/// Frame period of the analysis grid, in microseconds.
pub const FRAME_US: i64 = 5000;

/// Bound on the time arguments (microseconds) the builder accepts.
pub const TIME_LIMIT_US: i64 = 1_000_000_000_000_000;

/// Bound on the velocity rate (thousandths) the builder accepts.
pub const VELOCITY_RATE_LIMIT_MILLI: u64 = 1_048_576;

/// Bound on the frame count the builder accepts.
pub const FRAME_COUNT_LIMIT: usize = 0x4000_0000;

/// Division truncating toward zero, as the hardware division does.
pub open spec fn tdiv(a: int, b: int) -> int {
    if a >= 0 {
        a / b
    } else {
        -((-a) / b)
    }
}

/// A real-valued count, truncated and saturated to the `usize` range.
pub open spec fn sat_count(x: int) -> int {
    if x < 0 {
        0
    } else if x > usize::MAX {
        usize::MAX as int
    } else {
        x
    }
}

/// How many consonant frames are rendered: the consonant length is
/// rate-scaled, never stretched.
pub open spec fn cons_count(vel_milli: int, consonant_us: int) -> int {
    sat_count(tdiv(vel_milli * consonant_us, 5_000_000))
}

/// How many sustain frames are rendered: the requested length on the
/// frame grid, rounded to the nearest frame (half up).
pub open spec fn sus_count(length_us: int) -> int {
    sat_count(tdiv(length_us + 2500, FRAME_US as int))
}

/// Where the used source region ends: a negative cutoff counts from
/// the region start, a non-negative one from the feature end.
pub open spec fn end_us(frame_count: int, offset_us: int, cutoff_us: int) -> int {
    if cutoff_us < 0 {
        offset_us - cutoff_us
    } else {
        frame_count * (FRAME_US as int) - cutoff_us
    }
}

/// A source position clamped into `[0, (frame_count - 1) * FRAME_US]`.
pub open spec fn clamp_us(x: int, frame_count: int) -> int {
    let limit = (frame_count - 1) * (FRAME_US as int);
    if x < 0 {
        0
    } else if x > limit {
        limit
    } else {
        x
    }
}

/// The j-th consonant position: `ncon` steps over the consonant
/// region, without its right endpoint.
pub open spec fn cons_pos(offset_us: int, consonant_us: int, ncon: int, j: int) -> int {
    offset_us + tdiv(j * consonant_us, ncon)
}

/// The j-th stretched sustain position: `nsus` steps over the region,
/// including its right endpoint.
pub open spec fn stretch_pos(con_src: int, end: int, nsus: int, j: int) -> int {
    con_src + tdiv(j * (end - con_src), nsus - 1)
}

/// The first frame index of a truncated sustain: the consonant end,
/// rounded to the nearest frame (half up).
pub open spec fn sus_start_frame(con_src: int) -> int {
    sat_count(tdiv(con_src + 2500, FRAME_US as int))
}

/// Length of the truncated sustain: consecutive frames from
/// `sus_start_frame`, capped at `frame_count - 1`.
pub open spec fn trunc_len(frame_count: int, con_src: int, nsus: int) -> int {
    let lo = sus_start_frame(con_src);
    let hi = if lo + nsus <= frame_count - 1 {
        lo + nsus
    } else {
        frame_count - 1
    };
    if hi >= lo {
        hi - lo
    } else {
        0
    }
}

proof fn lemma_tdiv_bound(c: int, n: int, j: int)
    requires
        0 <= j < n,
        n <= usize::MAX,
        -TIME_LIMIT_US <= c <= TIME_LIMIT_US,
    ensures
        -TIME_LIMIT_US <= tdiv(j * c, n) <= TIME_LIMIT_US,
        -0x4_0000_0000_0000_0000_0000_0000_0000 <= j * c <= 0x4_0000_0000_0000_0000_0000_0000_0000,
{
    assert(-0x4_0000_0000_0000_0000_0000_0000_0000 <= j * c <= 0x4_0000_0000_0000_0000_0000_0000_0000)
        by (nonlinear_arith)
        requires
            0 <= j <= 0x1_0000_0000_0000_0000,
            -TIME_LIMIT_US <= c <= TIME_LIMIT_US,
    ;
    if c >= 0 {
        assert(j * c <= n * c) by (nonlinear_arith)
            requires
                0 <= j < n,
                c >= 0,
        ;
        assert(j * c >= 0) by (nonlinear_arith)
            requires
                j >= 0,
                c >= 0,
        ;
        vstd::arithmetic::div_mod::lemma_div_is_ordered(j * c, n * c, n);
        vstd::arithmetic::div_mod::lemma_div_multiples_vanish(c, n);
        vstd::arithmetic::div_mod::lemma_div_pos_is_pos(j * c, n);
    } else {
        assert(j * (-c) <= n * (-c)) by (nonlinear_arith)
            requires
                0 <= j < n,
                c < 0,
        ;
        assert(j * (-c) >= 0) by (nonlinear_arith)
            requires
                j >= 0,
                c < 0,
        ;
        vstd::arithmetic::div_mod::lemma_div_is_ordered(j * (-c), n * (-c), n);
        vstd::arithmetic::div_mod::lemma_div_multiples_vanish(-c, n);
        vstd::arithmetic::div_mod::lemma_div_pos_is_pos(j * (-c), n);
        assert(j * (-c) == -(j * c)) by (nonlinear_arith);
    }
}

/// Division truncating toward zero, through unsigned hardware
/// division.
fn tdiv_exec(a: i128, b: i128) -> (r: i128)
    requires
        b > 0,
        -0x4000_0000_0000_0000_0000_0000_0000_0000i128 <= a,
    ensures
        r == tdiv(a as int, b as int),
{
    if a >= 0 {
        ((a as u128) / (b as u128)) as i128
    } else {
        -((((-a) as u128) / (b as u128)) as i128)
    }
}

/// Saturates a count into the `usize` range.
fn sat_count_exec(x: i128) -> (r: usize)
    ensures
        r == sat_count(x as int),
{
    if x < 0 {
        0
    } else if x > usize::MAX as i128 {
        usize::MAX
    } else {
        x as usize
    }
}

/// Clamps a position onto the feature range and the microsecond grid.
fn clamp_exec(x: i128, frame_count: usize) -> (r: u64)
    requires
        1 <= frame_count <= FRAME_COUNT_LIMIT,
    ensures
        r == clamp_us(x as int, frame_count as int),
{
    let limit: i128 = (frame_count as i128 - 1) * 5000;
    if x < 0 {
        0
    } else if x > limit {
        limit as u64
    } else {
        x as u64
    }
}

/// Builds the render timeline for a note: a rate-scaled consonant
/// segment (its right endpoint excluded), then a sustain that is a
/// plain slice of source frames when the region is longer than the
/// requested length, or a stretch over the region (right endpoint
/// included) when it is shorter. Every position is clamped into the
/// feature range.
#[verifier::loop_isolation(false)]
#[verifier::rlimit(100)]
pub fn build_timeline(
    frame_count: usize,
    offset_us: i64,
    consonant_us: i64,
    cutoff_us: i64,
    length_us: i64,
    velocity_rate_milli: u64,
) -> (r: Vec<u64>)
    requires
        1 <= frame_count <= FRAME_COUNT_LIMIT,
        -TIME_LIMIT_US <= offset_us <= TIME_LIMIT_US,
        -TIME_LIMIT_US <= consonant_us <= TIME_LIMIT_US,
        -TIME_LIMIT_US <= cutoff_us <= TIME_LIMIT_US,
        -TIME_LIMIT_US <= length_us <= TIME_LIMIT_US,
        velocity_rate_milli <= VELOCITY_RATE_LIMIT_MILLI,
    ensures
        ({
            let fc = frame_count as int;
            let con_src = offset_us + consonant_us;
            let end = end_us(fc, offset_us as int, cutoff_us as int);
            let ncon = cons_count(velocity_rate_milli as int, consonant_us as int);
            let nsus = sus_count(length_us as int);
            let truncated = end - con_src > length_us;
            &&& forall|k: int|
                0 <= k < r@.len() ==> #[trigger] r@[k] <= (fc - 1) * (FRAME_US as int)
            &&& forall|k: int|
                0 <= k < ncon ==> r@[k] == clamp_us(
                    cons_pos(offset_us as int, consonant_us as int, ncon, k),
                    fc,
                )
            &&& (truncated ==> {
                let lo = sus_start_frame(con_src as int);
                &&& r@.len() == ncon + trunc_len(fc, con_src as int, nsus)
                &&& forall|k: int|
                    0 <= k < trunc_len(fc, con_src as int, nsus) ==> #[trigger] r@[ncon + k] == (
                    lo + k) * (FRAME_US as int)
            })
            &&& (!truncated ==> {
                &&& r@.len() == ncon + nsus
                &&& (nsus == 1 ==> r@[ncon as int] == clamp_us(con_src as int, fc))
                &&& (nsus > 1 ==> forall|k: int|
                    0 <= k < nsus ==> #[trigger] r@[ncon + k] == clamp_us(
                        stretch_pos(con_src as int, end, nsus, k),
                        fc,
                    ))
            })
        }),
{
    let fc = frame_count;
    let con_src: i64 = offset_us + consonant_us;
    let end: i64 = if cutoff_us < 0 {
        offset_us - cutoff_us
    } else {
        (frame_count as i64) * 5000 - cutoff_us
    };

    let mut r: Vec<u64> = Vec::new();

    // Consonant segment: linearly spaced, right endpoint excluded.
    proof {
        assert(velocity_rate_milli * consonant_us <= 0x1_0000_0000_0000_0000_0000_0000
            && velocity_rate_milli * consonant_us >= -0x1_0000_0000_0000_0000_0000_0000)
            by (nonlinear_arith)
            requires
                0 <= velocity_rate_milli <= VELOCITY_RATE_LIMIT_MILLI,
                -TIME_LIMIT_US <= consonant_us <= TIME_LIMIT_US,
        ;
    }
    let ncon = sat_count_exec(tdiv_exec(
        velocity_rate_milli as i128 * consonant_us as i128,
        5_000_000,
    ));
    let mut j: usize = 0;
    while j < ncon
        invariant
            j <= ncon,
            ncon == cons_count(velocity_rate_milli as int, consonant_us as int),
            r@.len() == j,
            forall|k: int|
                0 <= k < j ==> r@[k] == clamp_us(
                    cons_pos(offset_us as int, consonant_us as int, ncon as int, k),
                    frame_count as int,
                ),
        decreases ncon - j,
    {
        proof {
            lemma_tdiv_bound(consonant_us as int, ncon as int, j as int);
        }
        let step = tdiv_exec(j as i128 * consonant_us as i128, ncon as i128);
        let pos = clamp_exec(offset_us as i128 + step, fc);
        r.push(pos);
        j += 1;
    }

    // Sustain segment. Counts and the truncated start round to the
    // nearest frame, half up.
    let nsus = sat_count_exec(tdiv_exec(length_us as i128 + 2500, FRAME_US as i128));
    let ghost ncon_g = r@.len() as int;
    if (end as i128 - con_src as i128) > length_us as i128 {
        // Longer than requested: a plain slice of source frames.
        let lo = sat_count_exec(tdiv_exec(con_src as i128 + 2500, FRAME_US as i128));
        let hi = if fc - 1 >= lo && nsus <= (fc - 1) - lo {
            lo + nsus
        } else {
            fc - 1
        };
        let mut idx = lo;
        while idx < hi
            invariant
                lo <= idx,
                idx <= if hi >= lo { hi } else { lo },
                lo == sus_start_frame(con_src as int),
                hi == if lo + nsus <= fc - 1 {
                    lo + nsus as int
                } else {
                    fc - 1
                },
                nsus == sus_count(length_us as int),
                r@.len() == ncon_g + (idx - lo),
                forall|k: int|
                    0 <= k < idx - lo ==> #[trigger] r@[ncon_g + k] == (lo + k) * (
                    FRAME_US as int),
                forall|k: int|
                    0 <= k < ncon_g ==> r@[k] == clamp_us(
                        cons_pos(
                            offset_us as int,
                            consonant_us as int,
                            cons_count(velocity_rate_milli as int, consonant_us as int),
                            k,
                        ),
                        frame_count as int,
                    ),
                forall|k: int|
                    0 <= k < r@.len() ==> #[trigger] r@[k] <= (frame_count as int - 1) * (
                    FRAME_US as int),
            decreases hi - idx,
        {
            r.push((idx as u64) * 5000);
            idx += 1;
        }
    } else {
        // Shorter than requested: stretch over the region, right
        // endpoint included.
        if nsus == 1 {
            let pos = clamp_exec(con_src as i128, fc);
            r.push(pos);
        } else if nsus > 1 {
            let delta: i128 = end as i128 - con_src as i128;
            proof {
                if length_us + 2500 >= 0 {
                    vstd::arithmetic::div_mod::lemma_div_is_ordered(
                        length_us as int + 2500,
                        TIME_LIMIT_US as int + 2500,
                        5000,
                    );
                    vstd::arithmetic::div_mod::lemma_div_pos_is_pos(length_us as int + 2500, 5000);
                }
                assert(nsus <= 0x4000_0000_0000);
            }
            let mut k: usize = 0;
            while k < nsus
                invariant
                    k <= nsus,
                    nsus == sus_count(length_us as int),
                    1 < nsus <= 0x4000_0000_0000,
                    delta == end - con_src,
                    -0x10_0000_0000_0000_0000 <= delta <= 0x10_0000_0000_0000_0000,
                    r@.len() == ncon_g + k,
                    forall|q: int|
                        0 <= q < k ==> r@[ncon_g + q] == clamp_us(
                            stretch_pos(con_src as int, end as int, nsus as int, q),
                            frame_count as int,
                        ),
                    forall|q: int|
                        0 <= q < ncon_g ==> r@[q] == clamp_us(
                            cons_pos(
                                offset_us as int,
                                consonant_us as int,
                                cons_count(velocity_rate_milli as int, consonant_us as int),
                                q,
                            ),
                            frame_count as int,
                        ),
                    forall|q: int|
                        0 <= q < r@.len() ==> #[trigger] r@[q] <= (frame_count as int - 1) * (
                        FRAME_US as int),
                decreases nsus - k,
            {
                proof {
                    lemma_stretch_step_bound(delta as int, nsus as int, k as int);
                }
                let step = tdiv_exec(k as i128 * delta, nsus as i128 - 1);
                let pos = clamp_exec(con_src as i128 + step, fc);
                r.push(pos);
                k += 1;
            }
        }
    }
    r
}

// ------------------------------------------------------------------
// The pitch-shift reference of a feature set.
// ------------------------------------------------------------------

/// The reference pitch when no voiced frame exists: 261.63 Hz in
/// hundredths.
pub const BASE_HZ_DEFAULT_CENTIHZ: u64 = 26163;

/// The F0 values above the voicing floor (40 Hz), in order.
pub open spec fn voiced_values(f0: Seq<u64>) -> Seq<u64>
    decreases f0.len(),
{
    if f0.len() == 0 {
        Seq::empty()
    } else if f0.last() > 4000 {
        voiced_values(f0.drop_last()).push(f0.last())
    } else {
        voiced_values(f0.drop_last())
    }
}

/// The pitch-shift reference of a track: the median voiced F0, or the
/// default when nothing is voiced.
pub open spec fn source_base_spec(f0: Seq<u64>) -> u64 {
    let v = voiced_values(f0);
    if v.len() == 0 {
        BASE_HZ_DEFAULT_CENTIHZ
    } else {
        crate::vocoder::hmm::sort_spec(v)[v.len() as int / 2]
    }
}

/// The median of the voiced F0 values (hundredths of Hz), used as the
/// reference all pitch offsets are measured against.
#[verifier::loop_isolation(false)]
pub fn source_base_centihz(f0: &Vec<u64>) -> (r: u64)
    ensures
        r == source_base_spec(f0@),
{
    let mut voiced: Vec<u64> = Vec::new();
    let mut i: usize = 0;
    proof {
        assert(f0@.take(0) =~= Seq::<u64>::empty());
    }
    while i < f0.len()
        invariant
            i <= f0@.len(),
            voiced@ == voiced_values(f0@.take(i as int)),
        decreases f0@.len() - i,
    {
        proof {
            assert(f0@.take(i + 1).drop_last() =~= f0@.take(i as int));
        }
        if f0[i] > 4000 {
            voiced.push(f0[i]);
        }
        i += 1;
    }
    proof {
        assert(f0@.take(f0@.len() as int) =~= f0@);
    }
    if voiced.len() == 0 {
        return BASE_HZ_DEFAULT_CENTIHZ;
    }
    let sorted = crate::vocoder::hmm::sort_small(&voiced);
    sorted[voiced.len() / 2]
}

// ------------------------------------------------------------------
// Monotonicity of the timeline. Within each segment the positions
// never decrease while the segment spans a forward region: the
// consonant for a non-negative consonant length, the stretch for a
// region that ends at or after its start; a truncated sustain is
// consecutive whole frames by construction. (With a negative
// consonant length, or a cutoff that moves the region end before its
// start, positions can step backward; the clamp still keeps every
// position inside the feature range.)
// ------------------------------------------------------------------

proof fn lemma_tdiv_monotone_scale(c: int, n: int, j: int)
    requires
        0 <= j,
        n >= 1,
        c >= 0,
    ensures
        tdiv(j * c, n) <= tdiv((j + 1) * c, n),
{
    assert(0 <= j * c <= (j + 1) * c) by (nonlinear_arith)
        requires
            0 <= j,
            c >= 0,
    ;
    vstd::arithmetic::div_mod::lemma_div_is_ordered(j * c, (j + 1) * c, n);
    vstd::arithmetic::div_mod::lemma_div_pos_is_pos(j * c, n);
    vstd::arithmetic::div_mod::lemma_div_pos_is_pos((j + 1) * c, n);
}

/// Consonant positions never decrease for a non-negative consonant.
pub proof fn lemma_cons_pos_monotone(offset_us: int, consonant_us: int, ncon: int, j: int)
    requires
        0 <= j,
        j + 1 < ncon,
        consonant_us >= 0,
    ensures
        cons_pos(offset_us, consonant_us, ncon, j) <= cons_pos(offset_us, consonant_us, ncon, j
            + 1),
{
    lemma_tdiv_monotone_scale(consonant_us, ncon, j);
}

/// Stretched sustain positions never decrease when the region runs
/// forward.
pub proof fn lemma_stretch_pos_monotone(con_src: int, end: int, nsus: int, j: int)
    requires
        nsus > 1,
        0 <= j,
        j + 1 < nsus,
        end >= con_src,
    ensures
        stretch_pos(con_src, end, nsus, j) <= stretch_pos(con_src, end, nsus, j + 1),
{
    lemma_tdiv_monotone_scale(end - con_src, nsus - 1, j);
}

/// Clamping to the feature range preserves order.
pub proof fn lemma_clamp_monotone(x: int, y: int, frame_count: int)
    requires
        x <= y,
        frame_count >= 1,
    ensures
        clamp_us(x, frame_count) <= clamp_us(y, frame_count),
{
}

/// At a velocity rate of at most 2.0, the last consonant position
/// stays below the rounded sustain start: consonant positions are at
/// least half a frame apart, and rounding moves the start by at most
/// half a frame.
proof fn lemma_junction_below_start(
    offset_us: int,
    consonant_us: int,
    vel_milli: int,
    frame_count: int,
)
    requires
        1 <= frame_count <= FRAME_COUNT_LIMIT,
        -TIME_LIMIT_US <= offset_us <= TIME_LIMIT_US,
        0 <= consonant_us <= TIME_LIMIT_US,
        0 <= vel_milli <= 2000,
        cons_count(vel_milli, consonant_us) >= 1,
        sus_start_frame(offset_us + consonant_us) <= frame_count - 2,
    ensures
        ({
            let ncon = cons_count(vel_milli, consonant_us);
            let lo = sus_start_frame(offset_us + consonant_us);
            clamp_us(cons_pos(offset_us, consonant_us, ncon, ncon - 1), frame_count) <= lo * (
            FRAME_US as int)
        }),
{
    let c = consonant_us;
    let con_src = offset_us + c;
    let ncon = cons_count(vel_milli, c);
    let lo = sus_start_frame(con_src);

    // A step of the consonant grid spans at least half a frame:
    // 2500 * ncon <= c.
    assert(0 <= vel_milli * c <= 2000 * c) by (nonlinear_arith)
        requires
            0 <= vel_milli <= 2000,
            0 <= c,
    ;
    let x = tdiv(vel_milli * c, 5_000_000);
    vstd::arithmetic::div_mod::lemma_fundamental_div_mod(vel_milli * c, 5_000_000);
    vstd::arithmetic::div_mod::lemma_mod_bound(vel_milli * c, 5_000_000);
    assert(5_000_000 * x <= vel_milli * c);
    assert(2500 * ncon <= c);

    // The last consonant position sits at least half a frame before
    // the consonant end.
    let num = (ncon - 1) * c;
    assert(0 <= num && num <= ncon * (c - 2500)) by (nonlinear_arith)
        requires
            ncon >= 1,
            c >= 0,
            2500 * ncon <= c,
            num == (ncon - 1) * c,
    ;
    vstd::arithmetic::div_mod::lemma_div_is_ordered(num, ncon * (c - 2500), ncon);
    vstd::arithmetic::div_mod::lemma_div_multiples_vanish(c - 2500, ncon);
    vstd::arithmetic::div_mod::lemma_div_pos_is_pos(num, ncon);
    let cp = cons_pos(offset_us, c, ncon, ncon - 1);
    assert(cp <= con_src - 2500);

    if cp < 0 {
        assert(clamp_us(cp, frame_count) == 0);
        assert(lo >= 0);
        assert(lo * (FRAME_US as int) >= 0) by (nonlinear_arith)
            requires
                lo >= 0,
        ;
    } else {
        // The rounded start loses less than half a frame.
        assert(con_src >= 2500);
        let q = tdiv(con_src + 2500, 5000);
        vstd::arithmetic::div_mod::lemma_div_pos_is_pos(con_src + 2500, 5000);
        assert(q <= usize::MAX) by {
            if q > usize::MAX {
                assert(lo == usize::MAX);
                assert(frame_count - 2 < usize::MAX);
            }
        }
        assert(lo == q);
        vstd::arithmetic::div_mod::lemma_fundamental_div_mod(con_src + 2500, 5000);
        vstd::arithmetic::div_mod::lemma_mod_bound(con_src + 2500, 5000);
        assert(lo * 5000 >= con_src - 2499);
        assert(cp < lo * 5000);
        assert(lo * 5000 <= (frame_count - 2) * 5000) by (nonlinear_arith)
            requires
                lo <= frame_count - 2,
        ;
        assert(cp <= (frame_count - 1) * (FRAME_US as int));
        assert(clamp_us(cp, frame_count) == cp);
    }
}

/// The timeline invariant: positions never decrease, for every note
/// whose region runs forward -- a non-negative consonant length, a
/// velocity rate of at most 2.0, and a region end at or after the
/// consonant end. (A faster rate packs consonant positions closer
/// than the half frame the rounded sustain start can move back; a
/// cutoff that puts the end before the consonant end reverses the
/// stretch.) The sequence is as `build_timeline` returns it.
pub proof fn lemma_timeline_monotone(
    r: Seq<u64>,
    frame_count: int,
    offset_us: int,
    consonant_us: int,
    cutoff_us: int,
    length_us: int,
    vel_milli: int,
)
    requires
        1 <= frame_count <= FRAME_COUNT_LIMIT,
        -TIME_LIMIT_US <= offset_us <= TIME_LIMIT_US,
        0 <= consonant_us <= TIME_LIMIT_US,
        -TIME_LIMIT_US <= cutoff_us <= TIME_LIMIT_US,
        -TIME_LIMIT_US <= length_us <= TIME_LIMIT_US,
        0 <= vel_milli <= 2000,
        end_us(frame_count, offset_us, cutoff_us) >= offset_us + consonant_us,
        ({
            let con_src = offset_us + consonant_us;
            let end = end_us(frame_count, offset_us, cutoff_us);
            let ncon = cons_count(vel_milli, consonant_us);
            let nsus = sus_count(length_us);
            let truncated = end - con_src > length_us;
            &&& forall|k: int|
                0 <= k < ncon ==> r[k] == clamp_us(
                    cons_pos(offset_us, consonant_us, ncon, k),
                    frame_count,
                )
            &&& (truncated ==> {
                let lo = sus_start_frame(con_src);
                &&& r.len() == ncon + trunc_len(frame_count, con_src, nsus)
                &&& forall|k: int|
                    0 <= k < trunc_len(frame_count, con_src, nsus) ==> #[trigger] r[ncon + k]
                        == (lo + k) * (FRAME_US as int)
            })
            &&& (!truncated ==> {
                &&& r.len() == ncon + nsus
                &&& (nsus == 1 ==> r[ncon as int] == clamp_us(con_src, frame_count))
                &&& (nsus > 1 ==> forall|k: int|
                    0 <= k < nsus ==> #[trigger] r[ncon + k] == clamp_us(
                        stretch_pos(con_src, end, nsus, k),
                        frame_count,
                    ))
            })
        }),
    ensures
        forall|k: int| 0 <= k && k + 1 < r.len() ==> #[trigger] r[k] <= r[k + 1],
{
    let con_src = offset_us + consonant_us;
    let end = end_us(frame_count, offset_us, cutoff_us);
    let ncon = cons_count(vel_milli, consonant_us);
    let nsus = sus_count(length_us);
    let truncated = end - con_src > length_us;
    let lo = sus_start_frame(con_src);

    assert forall|k: int| 0 <= k && k + 1 < r.len() implies #[trigger] r[k] <= r[k + 1] by {
        if k + 1 < ncon {
            // Within the consonant segment.
            lemma_cons_pos_monotone(offset_us, consonant_us, ncon, k);
            lemma_clamp_monotone(
                cons_pos(offset_us, consonant_us, ncon, k),
                cons_pos(offset_us, consonant_us, ncon, k + 1),
                frame_count,
            );
        } else if k + 1 == ncon {
            // The junction between the segments.
            if truncated {
                assert(trunc_len(frame_count, con_src, nsus) > 0);
                assert(lo <= frame_count - 2);
                lemma_junction_below_start(offset_us, consonant_us, vel_milli, frame_count);
                assert(r[ncon + 0] == (lo + 0) * (FRAME_US as int));
                assert((lo + 0) * (FRAME_US as int) == lo * (FRAME_US as int));
            } else {
                // The first sustain position is the consonant end.
                let num = (ncon - 1) * consonant_us;
                assert(0 <= num && num <= ncon * consonant_us) by (nonlinear_arith)
                    requires
                        ncon >= 1,
                        consonant_us >= 0,
                        num == (ncon - 1) * consonant_us,
                ;
                vstd::arithmetic::div_mod::lemma_div_is_ordered(
                    num,
                    ncon * consonant_us,
                    ncon,
                );
                vstd::arithmetic::div_mod::lemma_div_multiples_vanish(consonant_us, ncon);
                vstd::arithmetic::div_mod::lemma_div_pos_is_pos(num, ncon);
                assert(cons_pos(offset_us, consonant_us, ncon, k) <= con_src);
                if nsus > 1 {
                    assert(stretch_pos(con_src, end, nsus, 0) == con_src + tdiv(0, nsus - 1));
                    vstd::arithmetic::div_mod::lemma_div_pos_is_pos(0, nsus - 1);
                    vstd::arithmetic::div_mod::lemma_div_is_ordered(0, nsus - 1, nsus - 1);
                    assert(tdiv(0, nsus - 1) == 0);
                    assert(r[ncon + 0] == clamp_us(
                        stretch_pos(con_src, end, nsus, 0),
                        frame_count,
                    ));
                }
                lemma_clamp_monotone(
                    cons_pos(offset_us, consonant_us, ncon, k),
                    con_src,
                    frame_count,
                );
            }
        } else {
            // Within the sustain segment.
            let q = k - ncon;
            if truncated {
                assert(r[ncon + q] == (lo + q) * (FRAME_US as int));
                assert(r[ncon + (q + 1)] == (lo + q + 1) * (FRAME_US as int));
                assert((lo + q) * (FRAME_US as int) <= (lo + q + 1) * (FRAME_US as int)) by (
                nonlinear_arith)
                    requires
                        lo + q >= 0,
                ;
            } else {
                assert(nsus > 1);
                lemma_stretch_pos_monotone(con_src, end, nsus, q);
                lemma_clamp_monotone(
                    stretch_pos(con_src, end, nsus, q),
                    stretch_pos(con_src, end, nsus, q + 1),
                    frame_count,
                );
                assert(r[ncon + q] == clamp_us(
                    stretch_pos(con_src, end, nsus, q),
                    frame_count,
                ));
                assert(r[ncon + (q + 1)] == clamp_us(
                    stretch_pos(con_src, end, nsus, q + 1),
                    frame_count,
                ));
            }
        }
    }
}

// ------------------------------------------------------------------
// Resampling indices and the pitch curve.
// ------------------------------------------------------------------

/// Bound on per-frame pitch offsets (hundredths of a semitone).
pub const OFFSET_LIMIT_CENTI: i64 = 10_000_000;

/// Bound on the modulation argument (thousandths).
pub const MODULATION_LIMIT_MILLI: i64 = 1_000_000;

/// Bound on the tempo argument (thousandths of a beat per minute).
pub const TEMPO_LIMIT_MILLI: u64 = 1_000_000_000_000;

/// The analysis frames a timeline position interpolates between, and
/// the weight of the second one, in thousandths.
pub fn timeline_index(t_us: u64, frame_count: usize) -> (r: (usize, usize, u64))
    requires
        1 <= frame_count <= FRAME_COUNT_LIMIT,
        t_us <= (frame_count - 1) * (FRAME_US as int),
    ensures
        r.0 == t_us as int / (FRAME_US as int),
        r.1 == if r.0 + 1 < frame_count {
            r.0 + 1
        } else {
            frame_count - 1
        },
        r.0 <= r.1 < frame_count,
        r.2 == (t_us as int % (FRAME_US as int)) / 5,
        r.2 < 1000,
{
    let i0 = (t_us / 5000) as usize;
    let i1 = if i0 + 1 < frame_count { i0 + 1 } else { frame_count - 1 };
    let w = (t_us % 5000) / 5;
    (i0, i1, w)
}

/// The pitch-bend value (hundredths of a semitone) at render frame
/// `i`: the curve is sampled at `8 * tempo / 5` points per second and
/// interpolated, holding its last value past the end.
pub open spec fn bend_at(pb: Seq<i32>, i: int, tempo_milli: int) -> int {
    if pb.len() == 0 {
        0
    } else {
        let num = i * tempo_milli;
        let idx = num / 125_000;
        let rem = num % 125_000;
        if idx + 1 < pb.len() {
            pb[idx] + tdiv((pb[idx + 1] - pb[idx]) * rem, 125_000)
        } else {
            pb.last() as int
        }
    }
}

/// The per-frame pitch offset, interpolated along the timeline.
pub open spec fn off_at(off: Seq<i64>, t_us: int) -> int {
    let n = off.len() as int;
    let i0 = t_us / (FRAME_US as int);
    let i1 = if i0 + 1 < n {
        i0 + 1
    } else {
        n - 1
    };
    off[i0] + tdiv((off[i1] - off[i0]) * (t_us % (FRAME_US as int)), FRAME_US as int)
}

/// The final pitch of a render frame in hundredths of a MIDI note, or
/// nothing when the source frame at the rounded timeline position is
/// unvoiced.
pub open spec fn pitch_cents_at(
    f0: Seq<u64>,
    off: Seq<i64>,
    pb: Seq<i32>,
    t_us: int,
    i: int,
    pitch_midi: int,
    tempo_milli: int,
    mod_milli: int,
) -> Option<i64> {
    if f0[(t_us + 2500) / (FRAME_US as int)] == 0 {
        None
    } else {
        Some(
            (pitch_midi * 100 + bend_at(pb, i, tempo_milli) + tdiv(
                off_at(off, t_us) * mod_milli,
                1000,
            )) as i64,
        )
    }
}

proof fn lemma_mul_range(a: int, b: int, al: int, bl: int)
    requires
        -al <= a <= al,
        -bl <= b <= bl,
        0 <= al,
        0 <= bl,
    ensures
        -al * bl <= a * b <= al * bl,
{
    assert(-al * bl <= a * b <= al * bl) by (nonlinear_arith)
        requires
            -al <= a <= al,
            -bl <= b <= bl,
            0 <= al,
            0 <= bl,
    ;
}

proof fn lemma_tdiv_abs_le(a: int, b: int, m: int)
    requires
        b >= 1,
        -m <= a <= m,
        m >= 0,
    ensures
        -m <= tdiv(a, b) <= m,
{
    if a >= 0 {
        vstd::arithmetic::div_mod::lemma_div_is_ordered(a, m, b);
        vstd::arithmetic::div_mod::lemma_div_pos_is_pos(a, b);
        vstd::arithmetic::div_mod::lemma_div_is_ordered_by_denominator(m, 1, b);
    } else {
        vstd::arithmetic::div_mod::lemma_div_is_ordered(-a, m, b);
        vstd::arithmetic::div_mod::lemma_div_pos_is_pos(-a, b);
        vstd::arithmetic::div_mod::lemma_div_is_ordered_by_denominator(m, 1, b);
    }
}

/// Computes the absolute pitch of every render frame, in hundredths
/// of a MIDI note: the note pitch, plus the interpolated pitch bend,
/// plus the modulated per-frame offset; unvoiced frames yield `None`.
#[verifier::loop_isolation(false)]
#[verifier::rlimit(100)]
pub fn render_pitch(
    timeline: &Vec<u64>,
    f0: &Vec<u64>,
    off: &Vec<i64>,
    pb: &Vec<i32>,
    pitch_midi: i32,
    tempo_milli: u64,
    mod_milli: i64,
) -> (r: Vec<Option<i64>>)
    requires
        1 <= f0@.len() <= FRAME_COUNT_LIMIT,
        off@.len() == f0@.len(),
        forall|k: int|
            0 <= k < timeline@.len() ==> #[trigger] timeline@[k] <= (f0@.len() - 1) * (
            FRAME_US as int),
        forall|k: int|
            0 <= k < off@.len() ==> -OFFSET_LIMIT_CENTI <= #[trigger] off@[k]
                <= OFFSET_LIMIT_CENTI,
        forall|k: int| 0 <= k < pb@.len() ==> -2048 <= #[trigger] pb@[k] <= 2047,
        0 < tempo_milli <= TEMPO_LIMIT_MILLI,
        -MODULATION_LIMIT_MILLI <= mod_milli <= MODULATION_LIMIT_MILLI,
    ensures
        r@.len() == timeline@.len(),
        forall|i: int|
            0 <= i < r@.len() ==> r@[i] == pitch_cents_at(
                f0@,
                off@,
                pb@,
                timeline@[i] as int,
                i,
                pitch_midi as int,
                tempo_milli as int,
                mod_milli as int,
            ),
{
    let n = timeline.len();
    let fc = f0.len();
    let mut r: Vec<Option<i64>> = Vec::new();
    let mut i: usize = 0;
    while i < n
        invariant
            i <= n,
            r@.len() == i,
            forall|q: int|
                0 <= q < i ==> r@[q] == pitch_cents_at(
                    f0@,
                    off@,
                    pb@,
                    timeline@[q] as int,
                    q,
                    pitch_midi as int,
                    tempo_milli as int,
                    mod_milli as int,
                ),
        decreases n - i,
    {
        let t_us = timeline[i];
        let (i0, i1, _w) = timeline_index(t_us, fc);
        // Voicing is looked up at the rounded timeline position; the
        // offset interpolation below uses the floor and ceiling.
        let vi = ((t_us + 2500) / 5000) as usize;
        proof {
            assert(t_us + 2500 <= (fc - 1) * 5000 + 2500);
            vstd::arithmetic::div_mod::lemma_div_is_ordered(
                t_us as int + 2500,
                (fc as int - 1) * 5000 + 2500,
                5000,
            );
            vstd::arithmetic::div_mod::lemma_fundamental_div_mod_converse(
                (fc as int - 1) * 5000 + 2500,
                5000,
                fc as int - 1,
                2500,
            );
        }
        if f0[vi] == 0 {
            r.push(None);
        } else {
            // Pitch bend, sampled at 8 * tempo / 5 points per second.
            let bend: i64 = if pb.len() == 0 {
                0
            } else {
                proof {
                    lemma_mul_range(
                        i as int,
                        tempo_milli as int,
                        0x1_0000_0000_0000_0000,
                        TEMPO_LIMIT_MILLI as int,
                    );
                }
                let num: u128 = i as u128 * tempo_milli as u128;
                let idx128 = num / 125_000;
                let rem = (num % 125_000) as u64;
                if idx128 + 1 < pb.len() as u128 {
                    let idx = idx128 as usize;
                    let a = pb[idx] as i64;
                    let b = pb[idx + 1] as i64;
                    proof {
                        lemma_mul_range((b - a) as int, rem as int, 4096, 125_000);
                        lemma_tdiv_abs_le((b - a) * rem, 125_000, 512_000_000int);
                    }
                    let step = tdiv_exec((b as i128 - a as i128) * rem as i128, 125_000);
                    a + step as i64
                } else {
                    pb[pb.len() - 1] as i64
                }
            };
            // Per-frame offset, interpolated along the timeline.
            let a = off[i0];
            let b = off[i1];
            let frac = t_us % 5000;
            proof {
                lemma_mul_range((b - a) as int, frac as int, 2 * OFFSET_LIMIT_CENTI, 5000);
                lemma_tdiv_abs_le((b - a) * frac, 5000, 2int * OFFSET_LIMIT_CENTI * 5000);
            }
            let ostep = tdiv_exec((b as i128 - a as i128) * frac as i128, 5000);
            let off_i = a + ostep as i64;
            proof {
                lemma_mul_range(
                    off_i as int,
                    mod_milli as int,
                    3 * OFFSET_LIMIT_CENTI,
                    MODULATION_LIMIT_MILLI as int,
                );
                lemma_tdiv_abs_le(
                    off_i as int * mod_milli as int,
                    1000,
                    3int * OFFSET_LIMIT_CENTI * MODULATION_LIMIT_MILLI,
                );
            }
            let prod = tdiv_exec(off_i as i128 * mod_milli as i128, 1000);
            let modded = prod as i64;
            let cents: i64 = pitch_midi as i64 * 100 + bend + modded;
            r.push(Some(cents));
        }
        i += 1;
    }
    r
}

proof fn lemma_stretch_step_bound(delta: int, nsus: int, k: int)
    requires
        1 < nsus <= 0x4000_0000_0000,
        0 <= k < nsus,
        -0x10_0000_0000_0000_0000 <= delta <= 0x10_0000_0000_0000_0000,
    ensures
        -0x4_0000_0000_0000_0000_0000_0000_0000 <= k * delta <= 0x4_0000_0000_0000_0000_0000_0000_0000,
        -0x20_0000_0000_0000_0000 <= tdiv(k * delta, nsus - 1) <= 0x20_0000_0000_0000_0000,
{
    let n = nsus - 1;
    assert(-0x4_0000_0000_0000_0000_0000_0000_0000 <= k * delta
        <= 0x4_0000_0000_0000_0000_0000_0000_0000) by (nonlinear_arith)
        requires
            0 <= k <= 0x4000_0000_0000,
            -0x10_0000_0000_0000_0000 <= delta <= 0x10_0000_0000_0000_0000,
    ;
    if delta >= 0 {
        assert(k * delta <= n * (2 * delta) && k * delta >= 0) by (nonlinear_arith)
            requires
                0 <= k <= n + 1,
                n >= 1,
                delta >= 0,
        ;
        vstd::arithmetic::div_mod::lemma_div_is_ordered(k * delta, n * (2 * delta), n);
        vstd::arithmetic::div_mod::lemma_div_multiples_vanish(2 * delta, n);
        vstd::arithmetic::div_mod::lemma_div_pos_is_pos(k * delta, n);
    } else {
        let e = -delta;
        assert(k * e <= n * (2 * e) && k * e >= 0 && k * e == -(k * delta)) by (nonlinear_arith)
            requires
                0 <= k <= n + 1,
                n >= 1,
                e >= 0,
                e == -delta,
        ;
        vstd::arithmetic::div_mod::lemma_div_is_ordered(k * e, n * (2 * e), n);
        vstd::arithmetic::div_mod::lemma_div_multiples_vanish(2 * e, n);
        vstd::arithmetic::div_mod::lemma_div_pos_is_pos(k * e, n);
    }
}

} // verus!
