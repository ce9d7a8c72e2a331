//! Deterministic pseudo-random bit generation (a PCG-family generator),
//! unbiased mapping onto closed integer intervals by rejection sampling,
//! exploding dice, and the step-table dice-pool resolver.

use std::time::{SystemTime, UNIX_EPOCH};
use vstd::prelude::*;

verus! {

/// Multiplier of the linear state transition; a fixed odd 64-bit constant.
pub const PCG_MULTIPLIER: u64 = 6364136223846793005;

/// Increment of the linear state transition; any odd constant works, this
/// one is fixed so that streams are reproducible.
pub const PCG_INCREMENT: u64 = 1442695040888963407;

/// The state that follows `s`: one step of the wrapping linear congruence.
pub open spec fn pcg32_next_state(s: u64) -> u64 {
    s.wrapping_mul(PCG_MULTIPLIER).wrapping_add(PCG_INCREMENT)
}

/// The 32-bit output extracted from a state: an xor-shift of the high bits
/// folded into a 32-bit window, rotated right by the top five bits.
pub open spec fn pcg32_output(s: u64) -> u32 {
    let rotation = (s >> 59) as u32;
    let window = (((s ^ (s >> 18)) >> 27) & 0xffff_ffff) as u32;
    if rotation == 0 {
        window
    } else {
        (window >> rotation) | (window << ((32 - rotation) as u32))
    }
}

/// A deterministic 32-bit pseudo-random generator. The whole state is one
/// 64-bit word; copies diverge independently from the moment they are made.
#[derive(Debug, Clone)]
pub struct PCG32 {
    pub state: u64,
}

impl Default for PCG32 {
    /// Makes a generator with a widely quoted default state.
    fn default() -> (r: Self)
        ensures
            r.state == 0x4d595df4d0f33173,
    {
        PCG32 { state: 0x4d595df4d0f33173 }
    }
}

impl PCG32 {
    /// A generator whose state is exactly the given seed.
    pub fn new(state: u64) -> (r: Self)
        ensures
            r.state == state,
    {
        Self { state }
    }

    /// Advances the state once and extracts a 32-bit value from the new
    /// state. Every call succeeds; the result and the successor state are
    /// functions of the prior state alone.
    pub fn next_u32(&mut self) -> (r: u32)
        ensures
            final(self).state == pcg32_next_state(old(self).state),
            r == pcg32_output(final(self).state),
    {
        self.state = self.state.wrapping_mul(PCG_MULTIPLIER).wrapping_add(PCG_INCREMENT);
        let x = self.state;
        let rotation = (x >> 59) as u32;
        assert(x >> 59 < 32) by (bit_vector);
        let window = #[verifier::truncate] ((((x ^ (x >> 18)) >> 27) & 0xffff_ffff) as u32);
        if rotation == 0 {
            window
        } else {
            (window >> rotation) | (window << (32 - rotation))
        }
    }
}

/// Interval descriptor for unbiased sampling: draws map onto the inclusive
/// interval `[base, base + width - 1]`, and raw draws above `reject` are
/// discarded so that every interval value receives the same number of raw
/// 32-bit inputs.
#[derive(Debug, Clone, Copy, PartialEq, Eq, Structural)]
pub struct RandRangeInclusive32 {
    pub base: u32,
    pub width: u32,
    pub reject: u32,
}

impl RandRangeInclusive32 {
    /// The descriptor describes a real interval of at least two values and
    /// its rejection threshold is the largest raw value below which whole
    /// copies of the interval fit.
    pub open spec fn wf(self) -> bool {
        &&& 2 <= self.width
        &&& self.base + self.width - 1 <= u32::MAX
        &&& self.reject == (u32::MAX as int / self.width as int) * self.width - 1
    }

    /// Lowest value of the interval.
    pub open spec fn spec_low(self) -> u32 {
        self.base
    }

    /// Highest value of the interval.
    pub open spec fn spec_high(self) -> int {
        self.base + self.width - 1
    }

    /// What `convert` returns: rejection above the threshold, otherwise the
    /// remainder mapped into the interval.
    pub open spec fn spec_convert(self, roll: u32) -> Option<u32> {
        if roll > self.reject {
            None
        } else {
            Some((self.base + (roll as int % self.width as int)) as u32)
        }
    }

    /// Builds the descriptor for the inclusive interval `[low, high]`.
    /// An interval with fewer than two values is a caller error.
    pub fn new(low: u32, high: u32) -> (r: Self)
        requires
            low < high,
            high - low < u32::MAX,
        ensures
            r.wf(),
            r.base == low,
            r.width == high - low + 1,
    {
        let base = low;
        let width = (high - low) + 1;
        let width_count = u32::MAX / width;
        proof {
            vstd::arithmetic::div_mod::lemma_fundamental_div_mod(u32::MAX as int, width as int);
            vstd::arithmetic::div_mod::lemma_mod_bound(u32::MAX as int, width as int);
        }
        let reject = (width_count * width) - 1;
        RandRangeInclusive32 { base, width, reject }
    }

    /// Lowest possible result of this range.
    pub fn low(&self) -> (r: u32)
        ensures
            r == self.spec_low(),
    {
        self.base
    }

    /// Highest possible result of this range.
    pub fn high(&self) -> (r: u32)
        requires
            self.wf(),
        ensures
            r == self.spec_high(),
    {
        self.base + (self.width - 1)
    }

    /// Converts any `u32` into `Some(val)` if the input can be evenly placed
    /// into the interval, or `None` otherwise. Rejection keeps the mapping
    /// uniform: plain remainder alone would favour small outputs whenever
    /// the interval width does not divide the full 32-bit range evenly.
    pub fn convert(&self, roll: u32) -> (r: Option<u32>)
        requires
            self.wf(),
        ensures
            r == self.spec_convert(roll),
            r is Some ==> self.spec_low() <= r->0 <= self.spec_high(),
    {
        if roll > self.reject {
            None
        } else {
            Some(self.base + (roll % self.width))
        }
    }

    /// What `roll_with` returns and where it leaves the generator, unwound
    /// draw by draw from a starting state: the first accepted draw wins;
    /// once `fuel` draws have been rejected, one more draw is mapped by
    /// plain remainder instead.
    pub open spec fn spec_roll_with(self, state: u64, fuel: nat) -> (u32, u64)
        decreases fuel,
    {
        let s1 = pcg32_next_state(state);
        match self.spec_convert(pcg32_output(s1)) {
            Some(v) => (v, s1),
            None => if fuel == 0 {
                let s2 = pcg32_next_state(s1);
                (((self.base + (pcg32_output(s2) as int % self.width as int)) as u32), s2)
            } else {
                self.spec_roll_with(s1, (fuel - 1) as nat)
            },
        }
    }

    /// Draws from the generator until a draw is accepted, and returns the
    /// first accepted draw's interval value, leaving the generator advanced
    /// by exactly the draws consumed. At most `width` raw values out of the
    /// full 32-bit range are rejected, so acceptance on each draw is
    /// overwhelmingly likely; after an astronomically long run of
    /// rejections the loop gives up on uniformity and maps one last draw by
    /// plain remainder.
    pub fn roll_with(&self, gen: &mut PCG32) -> (r: u32)
        requires
            self.wf(),
        ensures
            self.spec_low() <= r <= self.spec_high(),
            r == self.spec_roll_with(old(gen).state, u64::MAX as nat).0,
            final(gen).state == self.spec_roll_with(old(gen).state, u64::MAX as nat).1,
    {
        let mut tries: u64 = 0;
        loop
            invariant
                self.wf(),
                tries <= u64::MAX,
                self.spec_roll_with(old(gen).state, u64::MAX as nat) == self.spec_roll_with(
                    gen.state,
                    (u64::MAX - tries) as nat,
                ),
            decreases u64::MAX - tries,
        {
            if let Some(output) = self.convert(gen.next_u32()) {
                return output;
            }
            if tries == u64::MAX {
                return self.base + (gen.next_u32() % self.width);
            }
            tries = tries + 1;
        }
    }

    /// What `explode` returns and where it leaves the generator, unwound
    /// draw by draw from a starting state carrying `explosions` maximums so
    /// far: rejected draws are skipped, each accepted maximum adds one
    /// explosion, and the first accepted non-maximum settles the roll; once
    /// `fuel` draws are spent the roll settles on the interval minimum with
    /// no explosions.
    pub open spec fn spec_explode(self, state: u64, explosions: u64, fuel: nat) -> (u32, u64)
        decreases fuel,
    {
        let s1 = pcg32_next_state(state);
        let high = self.spec_high() as u32;
        match self.spec_convert(pcg32_output(s1)) {
            Some(v) => if v == high {
                if fuel == 0 {
                    (spec_explode_total(self.base, 0, high), s1)
                } else {
                    self.spec_explode(
                        s1,
                        if explosions == u64::MAX {
                            u64::MAX
                        } else {
                            (explosions + 1) as u64
                        },
                        (fuel - 1) as nat,
                    )
                }
            } else {
                (spec_explode_total(v, explosions as nat, high), s1)
            },
            None => if fuel == 0 {
                (spec_explode_total(self.base, 0, high), s1)
            } else {
                self.spec_explode(s1, explosions, (fuel - 1) as nat)
            },
        }
    }

    /// An "explosive" style roll of the dice.
    ///
    /// Does one roll, and if the result is the maximum then instead of
    /// directly returning, another roll is performed (which can also
    /// explode). The final output is the first accepted non-maximum roll
    /// plus the number of maximums accepted before it times the maximum
    /// value of a single roll, saturated at `u32::MAX` should a cascade of
    /// maximum rolls ever carry the sum that far; the generator advances by
    /// exactly the draws consumed.
    ///
    /// This is intended for intervals whose minimum is 1, but nothing
    /// prevents use with other intervals.
    pub fn explode(&self, gen: &mut PCG32) -> (r: u32)
        requires
            self.wf(),
        ensures
            r >= self.spec_low(),
            spec_explode_shape(*self, r),
            r == self.spec_explode(old(gen).state, 0, u64::MAX as nat).0,
            final(gen).state == self.spec_explode(old(gen).state, 0, u64::MAX as nat).1,
    {
        let highest = self.high();
        let mut explosions: u64 = 0;
        let mut tries: u64 = 0;
        loop
            invariant
                self.wf(),
                highest == self.spec_high(),
                tries <= u64::MAX,
                self.spec_explode(old(gen).state, 0, u64::MAX as nat) == self.spec_explode(
                    gen.state,
                    explosions,
                    (u64::MAX - tries) as nat,
                ),
            decreases u64::MAX - tries,
        {
            if let Some(output) = self.convert(gen.next_u32()) {
                if output == highest {
                    explosions = explosions.saturating_add(1);
                } else {
                    return self.explode_finish(output, explosions);
                }
            }
            if tries == u64::MAX {
                return self.explode_finish(self.base, 0);
            }
            tries = tries + 1;
        }
    }

    /// The saturating combination of the last non-maximum roll with the
    /// explosion count, in the shape the exploding roll promises.
    fn explode_finish(&self, out: u32, explosions: u64) -> (r: u32)
        requires
            self.wf(),
            self.spec_low() <= out < self.spec_high(),
        ensures
            r >= self.spec_low(),
            spec_explode_shape(*self, r),
            r == spec_explode_total(out, explosions as nat, self.spec_high() as u32),
    {
        let highest = self.high();
        let r = explode_total(out, explosions, highest);
        proof {
            reveal(spec_explode_shape);
            assert(highest == self.spec_high() as u32);
            assert(r == spec_explode_total(out, explosions as nat, self.spec_high() as u32));
        }
        r
    }
}

/// The first `n` outputs drawn from a generator whose state starts at
/// `state`.
pub open spec fn pcg32_stream(state: u64, n: nat) -> Seq<u32>
    decreases n,
{
    if n == 0 {
        Seq::empty()
    } else {
        seq![pcg32_output(pcg32_next_state(state))] + pcg32_stream(
            pcg32_next_state(state),
            (n - 1) as nat,
        )
    }
}

/// Generator determinism: the whole output stream is a function of the
/// starting state alone, so two generators seeded equally yield equal
/// streams for any number of draws.
pub proof fn lemma_generator_determinism(a: u64, b: u64, n: nat)
    requires
        a == b,
    ensures
        pcg32_stream(a, n) == pcg32_stream(b, n),
{
}

/// The state reached after `n` transitions from `state`.
pub open spec fn pcg32_nth_state(state: u64, n: nat) -> u64
    decreases n,
{
    if n == 0 {
        state
    } else {
        pcg32_next_state(pcg32_nth_state(state, (n - 1) as nat))
    }
}

/// The state transition is injective: its multiplier is odd, so it has a
/// modular inverse and two distinct states step to distinct states.
pub proof fn lemma_next_state_injective(s1: u64, s2: u64)
    requires
        pcg32_next_state(s1) == pcg32_next_state(s2),
    ensures
        s1 == s2,
{
    let m = 0x1_0000_0000_0000_0000int;
    let a = PCG_MULTIPLIER as int;
    let inv = 13877824140714322085int;
    assert((a * inv) % m == 1);
    let p1 = s1.wrapping_mul(PCG_MULTIPLIER);
    let p2 = s2.wrapping_mul(PCG_MULTIPLIER);
    assert(p1 == p2);
    assert(p1 == (s1 as int * a) % m);
    assert(p2 == (s2 as int * a) % m);
    lemma_cancel_by_inverse(s1 as int, a, inv, m);
    lemma_cancel_by_inverse(s2 as int, a, inv, m);
}

/// Multiplying by a unit and then by its inverse gives a value back,
/// modulo `m`.
proof fn lemma_cancel_by_inverse(x: int, a: int, inv: int, m: int)
    requires
        0 < m,
        0 <= x < m,
        (a * inv) % m == 1,
    ensures
        ((x * a) % m * inv) % m == x,
{
    vstd::arithmetic::mul::lemma_mul_is_associative(x, a, inv);
    vstd::arithmetic::div_mod::lemma_mul_mod_noop_left(x * a, inv, m);
    vstd::arithmetic::div_mod::lemma_mul_mod_noop_right(x, a * inv, m);
    vstd::arithmetic::div_mod::lemma_small_mod(x as nat, m as nat);
    assert(x * 1 == x) by (nonlinear_arith);
}

/// Generator divergence: two distinct states never collide, however many
/// transitions both take — the state streams of different seeds never
/// merge. (That the 32-bit outputs drawn from those streams also differ is
/// overwhelmingly likely but not certain, so only the state claim is made.)
pub proof fn lemma_generator_states_never_merge(a: u64, b: u64, n: nat)
    requires
        a != b,
    ensures
        pcg32_nth_state(a, n) != pcg32_nth_state(b, n),
    decreases n,
{
    if n > 0 {
        lemma_generator_states_never_merge(a, b, (n - 1) as nat);
        if pcg32_nth_state(a, n) == pcg32_nth_state(b, n) {
            lemma_next_state_injective(
                pcg32_nth_state(a, (n - 1) as nat),
                pcg32_nth_state(b, (n - 1) as nat),
            );
        }
    }
}

/// The result of an exploding roll is a last non-maximum interval value plus
/// a whole number of maximum rolls, saturated at `u32::MAX`.
#[verifier::opaque]
pub open spec fn spec_explode_shape(range: RandRangeInclusive32, r: u32) -> bool {
    exists|out: u32, k: nat|
        range.spec_low() <= out < range.spec_high() && r == #[trigger] spec_explode_total(
            out,
            k,
            range.spec_high() as u32,
        )
}

/// The value of an exploding roll that ended on `out` after `k` maximum
/// rolls of value `high`, saturated at `u32::MAX`.
pub open spec fn spec_explode_total(out: u32, k: nat, high: u32) -> u32 {
    if out + k * high > u32::MAX {
        u32::MAX
    } else {
        (out + k * high) as u32
    }
}

/// The 1..=4 sampler as a spec value.
pub open spec fn spec_d4() -> RandRangeInclusive32 {
    RandRangeInclusive32 { base: 1, width: 4, reject: 4294967291 }
}

/// The 1..=6 sampler as a spec value.
pub open spec fn spec_d6() -> RandRangeInclusive32 {
    RandRangeInclusive32 { base: 1, width: 6, reject: 4294967291 }
}

/// The 1..=8 sampler as a spec value.
pub open spec fn spec_d8() -> RandRangeInclusive32 {
    RandRangeInclusive32 { base: 1, width: 8, reject: 4294967287 }
}

/// The 1..=10 sampler as a spec value.
pub open spec fn spec_d10() -> RandRangeInclusive32 {
    RandRangeInclusive32 { base: 1, width: 10, reject: 4294967289 }
}

/// The 1..=12 sampler as a spec value.
pub open spec fn spec_d12() -> RandRangeInclusive32 {
    RandRangeInclusive32 { base: 1, width: 12, reject: 4294967291 }
}

/// The 1..=20 sampler as a spec value.
pub open spec fn spec_d20() -> RandRangeInclusive32 {
    RandRangeInclusive32 { base: 1, width: 20, reject: 4294967279 }
}

/// Rolls a 1d4 when used.
pub fn d4() -> (r: RandRangeInclusive32)
    ensures
        r.wf(),
        r == spec_d4(),
        r.base == 1 && r.width == 4,
{
    RandRangeInclusive32 { base: 1, width: 4, reject: 4294967291 }
}

/// Rolls a 1d6 when used.
pub fn d6() -> (r: RandRangeInclusive32)
    ensures
        r.wf(),
        r == spec_d6(),
        r.base == 1 && r.width == 6,
{
    RandRangeInclusive32 { base: 1, width: 6, reject: 4294967291 }
}

/// Rolls a 1d8 when used.
pub fn d8() -> (r: RandRangeInclusive32)
    ensures
        r.wf(),
        r == spec_d8(),
        r.base == 1 && r.width == 8,
{
    RandRangeInclusive32 { base: 1, width: 8, reject: 4294967287 }
}

/// Rolls a 1d10 when used.
pub fn d10() -> (r: RandRangeInclusive32)
    ensures
        r.wf(),
        r == spec_d10(),
        r.base == 1 && r.width == 10,
{
    RandRangeInclusive32 { base: 1, width: 10, reject: 4294967289 }
}

/// Rolls a 1d12 when used.
pub fn d12() -> (r: RandRangeInclusive32)
    ensures
        r.wf(),
        r == spec_d12(),
        r.base == 1 && r.width == 12,
{
    RandRangeInclusive32 { base: 1, width: 12, reject: 4294967291 }
}

/// Rolls a 1d20 when used.
pub fn d20() -> (r: RandRangeInclusive32)
    ensures
        r.wf(),
        r == spec_d20(),
        r.base == 1 && r.width == 20,
{
    RandRangeInclusive32 { base: 1, width: 20, reject: 4294967279 }
}

/// The d12 accumulation phase of a step roll: while the step exceeds 13,
/// add one exploding d12 onto the running total (saturating) and reduce the
/// step by 7. Yields the total, the state left, and the remaining step.
pub open spec fn spec_step_excess(state: u64, s: int, total: u64) -> (u64, u64, int)
    decreases
            (if s > 13 {
                s
            } else {
                0
            }),
{
    if s <= 13 {
        (total, state, s)
    } else {
        let roll = spec_d12().spec_explode(state, 0, u64::MAX as nat);
        spec_step_excess(roll.1, s - 7, total.saturating_add(roll.0 as u64))
    }
}

/// The fixed dice-pool row a step in 1..=13 resolves to: the rolls drawn in
/// order from `state`, and the state left.
pub open spec fn spec_step_table(state: u64, s: int) -> (u64, u64)
    recommends
        1 <= s <= 13,
{
    let fuel = u64::MAX as nat;
    if s == 1 {
        let r = spec_d4().spec_explode(state, 0, fuel);
        ((if r.0 <= 3 {
            1u64
        } else {
            (r.0 - 2) as u64
        }), r.1)
    } else if s == 2 {
        let r = spec_d4().spec_explode(state, 0, fuel);
        ((if r.0 <= 2 {
            1u64
        } else {
            (r.0 - 1) as u64
        }), r.1)
    } else if s == 3 {
        let r = spec_d4().spec_explode(state, 0, fuel);
        (r.0 as u64, r.1)
    } else if s == 4 {
        let r = spec_d6().spec_explode(state, 0, fuel);
        (r.0 as u64, r.1)
    } else if s == 5 {
        let r = spec_d8().spec_explode(state, 0, fuel);
        (r.0 as u64, r.1)
    } else if s == 6 {
        let r = spec_d10().spec_explode(state, 0, fuel);
        (r.0 as u64, r.1)
    } else if s == 7 {
        let r = spec_d12().spec_explode(state, 0, fuel);
        (r.0 as u64, r.1)
    } else if s == 8 {
        let a = spec_d6().spec_explode(state, 0, fuel);
        let b = spec_d6().spec_explode(a.1, 0, fuel);
        (((a.0 + b.0) as u64), b.1)
    } else if s == 9 {
        let a = spec_d8().spec_explode(state, 0, fuel);
        let b = spec_d6().spec_explode(a.1, 0, fuel);
        (((a.0 + b.0) as u64), b.1)
    } else if s == 10 {
        let a = spec_d8().spec_explode(state, 0, fuel);
        let b = spec_d8().spec_explode(a.1, 0, fuel);
        (((a.0 + b.0) as u64), b.1)
    } else if s == 11 {
        let a = spec_d10().spec_explode(state, 0, fuel);
        let b = spec_d8().spec_explode(a.1, 0, fuel);
        (((a.0 + b.0) as u64), b.1)
    } else if s == 12 {
        let a = spec_d10().spec_explode(state, 0, fuel);
        let b = spec_d10().spec_explode(a.1, 0, fuel);
        (((a.0 + b.0) as u64), b.1)
    } else if s == 13 {
        let a = spec_d12().spec_explode(state, 0, fuel);
        let b = spec_d10().spec_explode(a.1, 0, fuel);
        (((a.0 + b.0) as u64), b.1)
    } else {
        (0, state)
    }
}

/// The step roll as a function of the starting generator state: the d12
/// accumulation phase, then the fixed table row for the remaining step,
/// their sum saturated into `i32`.
pub open spec fn spec_step(state: u64, step_value: int) -> (i32, u64) {
    if step_value < 1 {
        (0, state)
    } else {
        let acc = spec_step_excess(state, step_value, 0);
        let row = spec_step_table(acc.1, acc.2);
        let grand = acc.0.saturating_add(row.0);
        ((if grand > i32::MAX as u64 {
            i32::MAX
        } else {
            grand as i32
        }), row.1)
    }
}

/// The least value a step roll can produce: zero below step 1, one for the
/// single-die table rows (steps 1..=7), two for the two-dice rows (steps
/// 8..=13), and one more for every accumulated exploding d12 above 13.
pub open spec fn spec_step_min(step_value: int) -> int
    decreases
            (if step_value > 13 {
                step_value
            } else {
                13
            }),
{
    if step_value < 1 {
        0
    } else if step_value <= 7 {
        1
    } else if step_value <= 13 {
        2
    } else {
        spec_step_min(step_value - 7) + 1
    }
}

/// The least step value never outgrows the step itself.
proof fn lemma_step_min_le(step_value: int)
    requires
        1 <= step_value,
    ensures
        1 <= spec_step_min(step_value) <= step_value,
    decreases
            (if step_value > 13 {
                step_value
            } else {
                13
            }),
{
    if step_value > 13 {
        lemma_step_min_le(step_value - 7);
    }
}

/// Rolls a step roll, according to the 4th edition chart: a step below 1
/// yields 0 without drawing from the generator; a step above 13 accumulates
/// one exploding d12 per 7 steps of excess; the remaining step in 1..=13
/// selects a fixed dice-pool formula. The result is never below the chosen
/// row's least possible outcome, and is saturated at `i32::MAX` should a
/// cascade of exploding rolls ever carry the sum that far.
pub fn step(gen: &mut PCG32, step_value: i32) -> (r: i32)
    ensures
        step_value < 1 ==> r == 0 && final(gen).state == old(gen).state,
        step_value >= 1 ==> r >= spec_step_min(step_value as int),
        r == spec_step(old(gen).state, step_value as int).0,
        final(gen).state == spec_step(old(gen).state, step_value as int).1,
{
    if step_value < 1 {
        return 0;
    }
    let mut s = step_value;
    let mut total: u64 = 0;
    proof {
        lemma_step_min_le(step_value as int);
    }
    while s > 13
        invariant
            1 <= s,
            total >= spec_step_min(step_value as int) - spec_step_min(s as int),
            1 <= spec_step_min(s as int),
            spec_step_min(s as int) <= s,
            s <= step_value,
            spec_step_min(step_value as int) <= step_value,
            spec_step_excess(old(gen).state, step_value as int, 0) == spec_step_excess(
                gen.state,
                s as int,
                total,
            ),
        decreases s,
    {
        total = total.saturating_add(d12().explode(gen) as u64);
        proof {
            lemma_step_min_le((s - 7) as int);
        }
        s = s - 7;
    }
    proof {
        assert(spec_step_excess(old(gen).state, step_value as int, 0) == (
            total,
            gen.state,
            s as int,
        ));
    }
    let pool: u64 = match s {
        1 => {
            let e = d4().explode(gen);
            if e <= 3 {
                1
            } else {
                (e - 2) as u64
            }
        },
        2 => {
            let e = d4().explode(gen);
            if e <= 2 {
                1
            } else {
                (e - 1) as u64
            }
        },
        3 => d4().explode(gen) as u64,
        4 => d6().explode(gen) as u64,
        5 => d8().explode(gen) as u64,
        6 => d10().explode(gen) as u64,
        7 => d12().explode(gen) as u64,
        8 => d6().explode(gen) as u64 + d6().explode(gen) as u64,
        9 => d8().explode(gen) as u64 + d6().explode(gen) as u64,
        10 => d8().explode(gen) as u64 + d8().explode(gen) as u64,
        11 => d10().explode(gen) as u64 + d8().explode(gen) as u64,
        12 => d10().explode(gen) as u64 + d10().explode(gen) as u64,
        13 => d12().explode(gen) as u64 + d10().explode(gen) as u64,
        _ => {
            proof {
                assert(false);
            }
            0
        },
    };
    proof {
        lemma_step_min_le(step_value as int);
        assert(pool >= spec_step_min(s as int));
        assert((pool, gen.state) == spec_step_table(
            spec_step_excess(old(gen).state, step_value as int, 0).1,
            s as int,
        ));
    }
    let grand = total.saturating_add(pool);
    if grand > i32::MAX as u64 {
        i32::MAX
    } else {
        grand as i32
    }
}

/// The seed value combined from a clock reading: seconds multiplied by the
/// sub-second nanoseconds when those are nonzero (to spread apart seeds
/// taken within the same second), the seconds alone otherwise.
pub open spec fn spec_seed_from_time(secs: u64, nanos: u32) -> u64 {
    if nanos != 0 {
        secs.wrapping_mul(nanos as u64)
    } else {
        secs
    }
}

/// Combines a clock reading into a 64-bit seed.
pub fn seed_from_time_parts(secs: u64, nanos: u32) -> (r: u64)
    ensures
        r == spec_seed_from_time(secs, nanos),
{
    if nanos != 0 {
        secs.wrapping_mul(nanos as u64)
    } else {
        secs
    }
}

/// Relies on std::time::SystemTime::now and Duration: the seconds and the
/// sub-second nanoseconds (always below one billion) of the distance from
/// the epoch, in whichever direction the clock sits.
#[verifier::external_body]
fn time_parts_now() -> (r: (u64, u32))
    ensures
        r.1 < 1_000_000_000,
{
    let the_duration = match SystemTime::now().duration_since(UNIX_EPOCH) {
        Ok(duration) => duration,
        Err(system_time_error) => system_time_error.duration(),
    };
    (the_duration.as_secs(), the_duration.subsec_nanos())
}

/// A 64-bit seed taken from the wall clock. The value depends on the moment
/// of the call; two calls within the same nanosecond may still collide.
pub fn u64_from_time() -> (r: u64) {
    let (secs, nanos) = time_parts_now();
    seed_from_time_parts(secs, nanos)
}

/// How many raw 32-bit inputs below `bound` the sampler converts to `v`.
pub open spec fn spec_accept_count(range: RandRangeInclusive32, v: u32, bound: nat) -> nat
    decreases bound,
{
    if bound == 0 {
        0
    } else {
        spec_accept_count(range, v, (bound - 1) as nat) + (if range.spec_convert(
            (bound - 1) as u32,
        ) == Some(v) {
            1nat
        } else {
            0nat
        })
    }
}

/// How many raw 32-bit inputs below `bound` the sampler rejects.
pub open spec fn spec_reject_count(range: RandRangeInclusive32, bound: nat) -> nat
    decreases bound,
{
    if bound == 0 {
        0
    } else {
        spec_reject_count(range, (bound - 1) as nat) + (if range.spec_convert(
            (bound - 1) as u32,
        ) is None {
            1nat
        } else {
            0nat
        })
    }
}

/// Within one whole width-aligned block of accepted inputs, each interval
/// value is hit exactly once: the first `i` inputs of the block hit `v`
/// exactly when they go past the offset of `v` in the interval.
proof fn lemma_accept_count_in_block(range: RandRangeInclusive32, v: u32, m: nat, i: nat)
    requires
        range.wf(),
        range.spec_low() <= v <= range.spec_high(),
        (m as int) % (range.width as int) == 0,
        m + range.width <= range.reject + 1,
        i <= range.width,
    ensures
        spec_accept_count(range, v, m + i) == spec_accept_count(range, v, m) + (if i > v
            - range.base {
            1nat
        } else {
            0nat
        }),
    decreases i,
{
    let w = range.width as int;
    if i > 0 {
        lemma_accept_count_in_block(range, v, m, (i - 1) as nat);
        let raw = (m + i - 1) as int;
        vstd::arithmetic::div_mod::lemma_fundamental_div_mod(m as int, w);
        vstd::arithmetic::div_mod::lemma_mod_multiples_vanish(m as int / w, i - 1, w);
        vstd::arithmetic::div_mod::lemma_small_mod((i - 1) as nat, range.width as nat);
        assert(raw % w == i - 1);
        assert(raw as u32 as int == raw);
        assert(range.spec_convert((m + i - 1) as u32) == Some((range.base + i - 1) as u32));
        assert(range.base + i - 1 <= u32::MAX);
        assert((range.base + i - 1) as u32 == v <==> i - 1 == v - range.base);
    }
}

/// The first `k` whole blocks of accepted inputs hit `v` exactly `k` times.
proof fn lemma_accept_count_blocks(range: RandRangeInclusive32, v: u32, k: nat)
    requires
        range.wf(),
        range.spec_low() <= v <= range.spec_high(),
        k * range.width <= range.reject + 1,
    ensures
        spec_accept_count(range, v, k * (range.width as nat)) == k,
    decreases k,
{
    let w = range.width as nat;
    if k == 0 {
        assert(k * w == 0) by (nonlinear_arith)
            requires
                k == 0,
        ;
    } else {
        assert(((k - 1) as nat) * w == k * w - w) by (nonlinear_arith)
            requires
                k >= 1,
        ;
        assert((k - 1) as nat * w <= range.reject + 1);
        lemma_accept_count_blocks(range, v, (k - 1) as nat);
        vstd::arithmetic::div_mod::lemma_mod_multiples_basic((k - 1) as int, w as int);
        lemma_accept_count_in_block(range, v, ((k - 1) as nat) * w, w);
    }
}

/// Inputs above the rejection threshold add nothing to an accept count.
proof fn lemma_accept_count_above_reject(range: RandRangeInclusive32, v: u32, bound: nat)
    requires
        range.wf(),
        range.reject + 1 <= bound <= 0x1_0000_0000,
    ensures
        spec_accept_count(range, v, bound) == spec_accept_count(
            range,
            v,
            (range.reject + 1) as nat,
        ),
    decreases bound,
{
    if bound > range.reject + 1 {
        assert((bound - 1) as u32 as int == bound - 1);
        assert(range.spec_convert((bound - 1) as u32) is None);
        lemma_accept_count_above_reject(range, v, (bound - 1) as nat);
    }
}

/// No input at or below the rejection threshold is rejected.
proof fn lemma_reject_count_below(range: RandRangeInclusive32, bound: nat)
    requires
        range.wf(),
        bound <= range.reject + 1,
    ensures
        spec_reject_count(range, bound) == 0,
    decreases bound,
{
    if bound > 0 {
        lemma_reject_count_below(range, (bound - 1) as nat);
        assert((bound - 1) as u32 as int == bound - 1);
        assert(!(range.spec_convert((bound - 1) as u32) is None));
    }
}

/// Every input above the rejection threshold is rejected.
proof fn lemma_reject_count_above(range: RandRangeInclusive32, bound: nat)
    requires
        range.wf(),
        range.reject + 1 <= bound <= 0x1_0000_0000,
    ensures
        spec_reject_count(range, bound) == bound - (range.reject + 1),
    decreases bound,
{
    if bound == range.reject + 1 {
        lemma_reject_count_below(range, bound);
    } else {
        lemma_reject_count_above(range, (bound - 1) as nat);
        assert((bound - 1) as u32 as int == bound - 1);
        assert(range.spec_convert((bound - 1) as u32) is None);
    }
}

/// Sampler uniformity: sweeping every representable 32-bit input through
/// `convert`, each interval value is produced by exactly the same number of
/// inputs — `u32::MAX / width` of them.
pub proof fn lemma_convert_uniform(range: RandRangeInclusive32, v1: u32, v2: u32)
    requires
        range.wf(),
        range.spec_low() <= v1 <= range.spec_high(),
        range.spec_low() <= v2 <= range.spec_high(),
    ensures
        spec_accept_count(range, v1, 0x1_0000_0000) == spec_accept_count(
            range,
            v2,
            0x1_0000_0000,
        ),
        spec_accept_count(range, v1, 0x1_0000_0000) == u32::MAX as int / range.width as int,
{
    let w = range.width as int;
    let kq = u32::MAX as int / w;
    vstd::arithmetic::div_mod::lemma_fundamental_div_mod(u32::MAX as int, w);
    vstd::arithmetic::div_mod::lemma_mod_bound(u32::MAX as int, w);
    vstd::arithmetic::div_mod::lemma_div_pos_is_pos(u32::MAX as int, w);
    assert(range.reject + 1 == kq * w);
    assert((kq as nat) * (range.width as nat) == kq * w);
    lemma_accept_count_blocks(range, v1, kq as nat);
    lemma_accept_count_blocks(range, v2, kq as nat);
    lemma_accept_count_above_reject(range, v1, 0x1_0000_0000);
    lemma_accept_count_above_reject(range, v2, 0x1_0000_0000);
}

/// Rejection rarity: out of all 2^32 raw inputs, exactly the remainder of
/// 2^32 by the interval width is rejected — the full width when the width
/// divides 2^32 evenly, strictly fewer otherwise.
pub proof fn lemma_rejection_count(range: RandRangeInclusive32)
    requires
        range.wf(),
    ensures
        spec_reject_count(range, 0x1_0000_0000) == 0x1_0000_0000 - (range.reject + 1),
        0x1_0000_0000int % (range.width as int) == 0 ==> spec_reject_count(range, 0x1_0000_0000)
            == range.width,
        0x1_0000_0000int % (range.width as int) != 0 ==> spec_reject_count(range, 0x1_0000_0000)
            == 0x1_0000_0000int % (range.width as int),
        spec_reject_count(range, 0x1_0000_0000) <= range.width,
{
    let w = range.width as int;
    let q32 = 0x1_0000_0000int;
    let q = q32 / w;
    let s = q32 % w;
    vstd::arithmetic::div_mod::lemma_fundamental_div_mod(q32, w);
    vstd::arithmetic::div_mod::lemma_mod_bound(q32, w);
    if s == 0 {
        assert((q - 1) * w + (w - 1) == q32 - 1) by (nonlinear_arith)
            requires
                q32 == q * w + s,
                s == 0,
        ;
        vstd::arithmetic::div_mod::lemma_fundamental_div_mod_converse(q32 - 1, w, q - 1, w - 1);
        assert(u32::MAX as int / w == q - 1);
        assert((q - 1) * w == q32 - w) by (nonlinear_arith)
            requires
                q32 == q * w,
        ;
        assert(range.reject + 1 == q32 - w);
    } else {
        assert(q * w + (s - 1) == q32 - 1);
        vstd::arithmetic::div_mod::lemma_fundamental_div_mod_converse(q32 - 1, w, q, s - 1);
        assert(u32::MAX as int / w == q);
        assert(range.reject + 1 == q * w);
        assert(q * w == q32 - s);
    }
    assert(range.reject + 1 <= 0x1_0000_0000);
    lemma_reject_count_above(range, 0x1_0000_0000);
}

/// The saturating combination of a final roll with its explosion count.
fn explode_total(out: u32, explosions: u64, high: u32) -> (r: u32)
    ensures
        r == spec_explode_total(out, explosions as nat, high),
{
    proof {
        vstd::arithmetic::mul::lemma_mul_upper_bound(
            explosions as int,
            u64::MAX as int,
            high as int,
            u32::MAX as int,
        );
        vstd::arithmetic::mul::lemma_mul_nonnegative(explosions as int, high as int);
    }
    let total: u128 = out as u128 + (explosions as u128) * (high as u128);
    assert(total == out + (explosions as nat) * (high as nat));
    if total > u32::MAX as u128 {
        u32::MAX
    } else {
        total as u32
    }
}

} // verus!
