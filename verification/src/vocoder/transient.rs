use vstd::prelude::*;

verus! {

// ------------------------------------------------------------------
// Transient detection: an energy-jump test over stepped windows.
// Samples are Q20 fixed point (1.0 is 1048576).
// ------------------------------------------------------------------

/// The squared-energy floor: 0.01 in squared Q20 units, truncated.
pub const ENERGY_MIN_Q40: u128 = (1048576u128 * 1048576u128) / 100;

pub struct TransientDetector {
    pub window_size: usize,
    pub step: usize,
}

/// The energy of `x[s..s+n]`: the sum of squared samples.
pub open spec fn energy_rec(x: Seq<i32>, s: int, n: int) -> int
    decreases n,
{
    if n <= 0 {
        0
    } else {
        energy_rec(x, s, n - 1) + x[s + n - 1] * x[s + n - 1]
    }
}

/// The energy of window `k`: `window_size` samples from `k * step`,
/// clipped at the end of the signal.
pub open spec fn window_energy(x: Seq<i32>, ws: int, step: int, k: int) -> int {
    let s = k * step;
    let e = if s + ws <= x.len() {
        s + ws
    } else {
        x.len() as int
    };
    energy_rec(x, s, e - s)
}

/// Window `k` is a transient when its energy strictly exceeds three
/// times the previous window's energy and the fixed floor.
pub open spec fn transient_at(x: Seq<i32>, ws: int, step: int, k: int) -> bool {
    let prev = if k == 0 {
        0
    } else {
        window_energy(x, ws, step, k - 1)
    };
    let cur = window_energy(x, ws, step, k);
    cur > 3 * prev && cur > ENERGY_MIN_Q40 as int
}

impl TransientDetector {
    pub fn new(window_size: usize, step: usize) -> (r: TransientDetector)
        ensures
            r.window_size == window_size,
            r.step == step,
    {
        TransientDetector { window_size, step }
    }

    /// One flag per stepped window: whether its energy jumps by more
    /// than a factor of three over the previous window and clears the
    /// floor.
    #[verifier::loop_isolation(false)]
    pub fn detect(&self, input: &Vec<i32>) -> (r: Vec<bool>)
        requires
            1 <= self.step,
            self.window_size <= 0x4000_0000,
        ensures
            r@.len() == (input@.len() + self.step - 1) / (self.step as int),
            forall|k: int|
                0 <= k < r@.len() ==> #[trigger] r@[k] == transient_at(
                    input@,
                    self.window_size as int,
                    self.step as int,
                    k,
                ),
    {
        let n = input.len();
        let mut r: Vec<bool> = Vec::new();
        let mut last: u128 = 0;
        let mut s: usize = 0;
        let mut k: usize = 0;
        while s < n
            invariant
                s == k * self.step,
                k <= s,
                s == 0 || s < n,
                n == input@.len(),
                r@.len() == k,
                last == if k == 0 {
                    0int
                } else {
                    window_energy(input@, self.window_size as int, self.step as int, k - 1)
                },
                last <= 0x4000_0000 * 0x4000_0000_0000_0000,
                forall|q: int|
                    0 <= q < k ==> #[trigger] r@[q] == transient_at(
                        input@,
                        self.window_size as int,
                        self.step as int,
                        q,
                    ),
            decreases n - s,
        {
            let e = if n - s >= self.window_size {
                s + self.window_size
            } else {
                n
            };
            let mut energy: u128 = 0;
            let mut i: usize = 0;
            while i < e - s
                invariant
                    i <= e - s,
                    s <= e <= n,
                    e - s <= self.window_size,
                    n == input@.len(),
                    energy == energy_rec(input@, s as int, i as int),
                    energy <= (i as int) * 0x4000_0000_0000_0000,
                decreases e - s - i,
            {
                let a = input[s + i];
                proof {
                    assert(0 <= (a as int) * (a as int) <= 0x4000_0000_0000_0000) by (
                    nonlinear_arith)
                        requires
                            -0x8000_0000 <= a as int <= 0x8000_0000,
                    ;
                }
                energy = energy + ((a as i64) * (a as i64)) as u128;
                i += 1;
            }
            let flag = energy > 3 * last && energy > ENERGY_MIN_Q40;
            r.push(flag);
            last = energy;
            proof {
                assert((k + 1) * self.step == k * self.step + self.step) by (nonlinear_arith);
            }
            k += 1;
            if n - s <= self.step {
                // Last window: step past the end.
                proof {
                    lemma_count_windows(n as int, self.step as int, k as int, s as int);
                }
                s = n;
                proof {
                    assert(r@.len() == (input@.len() + self.step - 1) / (self.step as int));
                }
                return r;
            }
            s += self.step;
        }
        proof {
            if n == 0 {
                vstd::arithmetic::div_mod::lemma_basic_div(self.step as int - 1, self.step as int);
            }
        }
        r
    }
}

/// When the last window starts at `s = (k - 1) * step` and
/// `n - s <= step`, `k` windows cover the signal.
proof fn lemma_count_windows(n: int, step: int, k: int, s: int)
    requires
        step >= 1,
        k >= 1,
        s == (k - 1) * step,
        s < n,
        n - s <= step,
    ensures
        k == (n + step - 1) / step,
{
    assert((k - 1) * step + 1 <= n <= (k - 1) * step + step);
    assert(k * step <= n + step - 1 < (k + 1) * step && (k + 1) * step == k * step + step) by (
    nonlinear_arith)
        requires
            step >= 1,
            (k - 1) * step + 1 <= n <= (k - 1) * step + step,
    ;
    vstd::arithmetic::div_mod::lemma_div_multiples_vanish(k, step);
    assert((n + step - 1) / step == k) by {
        vstd::arithmetic::div_mod::lemma_fundamental_div_mod_converse(
            n + step - 1,
            step,
            k,
            n + step - 1 - k * step,
        );
    }
}

} // verus!
