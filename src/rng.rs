//! The pseudo-random generator that decides where a select pass starts.
use vstd::arithmetic::div_mod::{lemma_fundamental_div_mod, lemma_mod_pos_bound};
use vstd::arithmetic::mul::{lemma_mul_inequality, lemma_mul_is_distributive_add_other_way};
use vstd::prelude::*;

verus! {

/// Multiplier of the linear-congruential recurrence (Knuth's MMIX).
pub const LCG_MUL: u64 = 6364136223846793005;

/// Increment of the linear-congruential recurrence (Knuth's MMIX).
pub const LCG_INC: u64 = 1442695040888963407;

/// The state that follows `s`: `(s + LCG_INC) * LCG_MUL`, modulo 2^64.
pub open spec fn lcg_next(s: u64) -> u64 {
    s.wrapping_add(LCG_INC).wrapping_mul(LCG_MUL)
}

/// Maps the high 32 bits of `s` onto `[0, range)` by scaling:
/// `floor(high(s) * range / 2^32)`.
pub open spec fn scale_high(s: u64, range: nat) -> nat {
    ((s as nat / 0x1_0000_0000) * range / 0x1_0000_0000) as nat
}

/// `ceil(a / r)`: the least `h` with `a <= h * r`.
pub open spec fn ceil_div(a: int, r: int) -> int {
    (a + r - 1) / r
}

/// The least high half of a state that scales to `v` or beyond.
pub open spec fn first_high(v: nat, range: nat) -> int {
    ceil_div(v as int * 0x1_0000_0000, range as int)
}

proof fn lemma_ceil_div_least(a: int, r: int, h: int)
    requires
        a >= 0,
        r >= 1,
        h >= 0,
    ensures
        (a <= h * r) == (ceil_div(a, r) <= h),
{
    let c = ceil_div(a, r);
    lemma_fundamental_div_mod(a + r - 1, r);
    lemma_mod_pos_bound(a + r - 1, r);
    assert(r * c == c * r) by (nonlinear_arith);
    if c <= h {
        lemma_mul_inequality(c, h, r);
    } else {
        lemma_mul_inequality(h, c - 1, r);
        lemma_mul_is_distributive_add_other_way(r, c - 1, 1);
    }
}

/// The scaling of a state onto `[0, range)` is balanced. It looks at the high
/// half `h = s / 2^32` of the state alone; the high halves that give `v` are
/// exactly those from `first_high(v)` up to, not including, `first_high(v + 1)`;
/// these runs cover all `2^32` high halves, and each holds `2^32 / range` of
/// them or one more. So when the state is uniform, every value of the range
/// comes up with the same probability, to within one part in `2^32 / range`.
pub proof fn lemma_scale_high_balanced(s: u64, range: nat, v: nat)
    requires
        1 <= range <= 0x1_0000_0000,
        v < range,
    ensures
        (scale_high(s, range) == v) == (first_high(v, range) <= s as nat / 0x1_0000_0000 < first_high(v + 1, range)),
        first_high(v + 1, range) - first_high(v, range) == 0x1_0000_0000int / (range as int)
            || first_high(v + 1, range) - first_high(v, range) == 0x1_0000_0000int / (range as int) + 1,
        first_high(0, range) == 0,
        first_high(range, range) == 0x1_0000_0000,
{
    let m: int = 0x1_0000_0000;
    let r = range as int;
    let h = (s as nat / 0x1_0000_0000) as int;
    let p = h * r;
    assert(h * r >= 0) by (nonlinear_arith)
        requires
            h >= 0,
            r >= 1,
    ;
    lemma_fundamental_div_mod(p, m);
    lemma_mod_pos_bound(p, m);
    lemma_ceil_div_least(v * m, r, h);
    lemma_ceil_div_least((v + 1) * m, r, h);

    let a = v * m;
    let c0 = first_high(v, range);
    let c1 = first_high(v + 1, range);
    let q = m / r;
    lemma_fundamental_div_mod(m, r);
    lemma_mod_pos_bound(m, r);
    assert(q >= 0);
    lemma_ceil_div_least(a, r, c0 + q + 1);
    lemma_ceil_div_least(a, r, c0);
    assert(c0 >= 0);
    lemma_ceil_div_least(a + m, r, c0 + q + 1);
    assert((c0 + q + 1) * r == c0 * r + q * r + r) by (nonlinear_arith);
    assert(q * r == r * q) by (nonlinear_arith);
    assert(c1 <= c0 + q + 1);
    if c0 + q >= 1 {
        lemma_ceil_div_least(a + m, r, c0 + q - 1);
        assert((c0 + q - 1) * r == (c0 - 1) * r + q * r) by (nonlinear_arith);
        if c0 >= 1 {
            lemma_ceil_div_least(a, r, c0 - 1);
        } else {
            assert((c0 - 1) * r < 0) by (nonlinear_arith)
                requires
                    c0 == 0,
                    r >= 1,
            ;
        }
    }
    assert(c1 >= c0 + q);

    lemma_ceil_div_least(0, r, 0);
    lemma_ceil_div_least(r * m, r, m);
    lemma_ceil_div_least(r * m, r, m - 1);
    assert((m - 1) * r == r * m - r) by (nonlinear_arith);
    assert(m * r == r * m) by (nonlinear_arith);
}

/// A 64-bit linear-congruential generator. Each execution context keeps its
/// own; nothing here is shared.
pub struct FairRng {
    state: u64,
}

impl FairRng {
    /// The generator's current 64-bit state.
    pub closed spec fn state(&self) -> u64 {
        self.state
    }

    /// A generator that starts from `seed`.
    pub fn new(seed: u64) -> (r: FairRng)
        ensures
            r.state() == seed,
    {
        FairRng { state: seed }
    }
}

/// Draws a number in `[start, end]`: advances the state once, then scales its
/// high bits onto the range, so that no value of the range is missed and none
/// lies outside it.
pub fn random(rng: &mut FairRng, start: u32, end: u32) -> (r: u32)
    requires
        start <= end,
    ensures
        final(rng).state() == lcg_next(old(rng).state()),
        r == start + scale_high(final(rng).state(), (end - start + 1) as nat),
        start <= r <= end,
{
    rng.state = rng.state.wrapping_add(LCG_INC).wrapping_mul(LCG_MUL);
    let range: u64 = (end - start) as u64 + 1;
    let high: u64 = rng.state / 0x1_0000_0000;
    proof {
        assert(high < 0x1_0000_0000);
        assert(high * range <= 0xffff_ffff * 0x1_0000_0000) by (nonlinear_arith)
            requires
                high < 0x1_0000_0000,
                range <= 0x1_0000_0000,
        ;
        assert(high * range / 0x1_0000_0000 < range) by (nonlinear_arith)
            requires
                high < 0x1_0000_0000,
                0 < range <= 0x1_0000_0000,
        ;
    }
    let offset: u64 = high * range / 0x1_0000_0000;
    start + offset as u32
}

} // verus!
