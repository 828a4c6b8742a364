//! Deterministic index generation.
//!
//! An [`IndexGenerator`] produces, for one source symbol, the sequence of
//! coded-stream positions that the symbol contributes to.  The sequence is a
//! pure function of the generator's state, so both sides of a reconciliation
//! session compute the same schedule from the same symbol hash.  Gaps between
//! successive positions are drawn from a multiplicative pseudo-random state,
//! spaced so that later positions spread out roughly with the square root of
//! the state, which yields the mix of low-degree coded cells that peeling
//! needs.

use vstd::prelude::*;

verus! {

/// Multiplier of the 64-bit multiplicative congruential state.
pub const PRNG_MULTIPLIER: u64 = 0xda942042e4dd58b5;

/// The pseudo-random state after one advance: a wrapping 64-bit multiply.
pub open spec fn spec_next_prng(prng: u64) -> u64 {
    (((prng as int) * (PRNG_MULTIPLIER as int)) % 0x10000000000000000) as u64
}

/// Floor of the square root, by the classic divide-by-four recursion.
pub open spec fn spec_sqrt_floor(n: nat) -> nat
    decreases n,
{
    if n < 1 {
        0
    } else {
        let r = 2 * spec_sqrt_floor(n / 4);
        if (r + 1) * (r + 1) <= n {
            r + 1
        } else {
            r
        }
    }
}

pub proof fn lemma_sqrt_floor(n: nat)
    ensures
        spec_sqrt_floor(n) * spec_sqrt_floor(n) <= n,
        n < (spec_sqrt_floor(n) + 1) * (spec_sqrt_floor(n) + 1),
    decreases n,
{
    if n < 1 {
        assert(spec_sqrt_floor(n) == 0);
        assert(n < (spec_sqrt_floor(n) + 1) * (spec_sqrt_floor(n) + 1)) by (nonlinear_arith)
            requires
                n < 1,
                spec_sqrt_floor(n) == 0,
        ;
    } else {
        lemma_sqrt_floor(n / 4);
        let s = spec_sqrt_floor(n / 4);
        let r = 2 * s;
        let q = n / 4;
        vstd::arithmetic::div_mod::lemma_fundamental_div_mod(n as int, 4);
        vstd::arithmetic::div_mod::lemma_mod_bound(n as int, 4);
        assert(4 * q <= n && n <= 4 * q + 3);
        assert(r * r <= 4 * q) by (nonlinear_arith)
            requires
                s * s <= q,
                r == 2 * s,
        ;
        assert(n < (r + 2) * (r + 2)) by (nonlinear_arith)
            requires
                n <= 4 * q + 3,
                q < (s + 1) * (s + 1),
                r == 2 * s,
        ;
        if (r + 1) * (r + 1) <= n {
            assert(spec_sqrt_floor(n) == r + 1);
        } else {
            assert(spec_sqrt_floor(n) == r);
        }
        assert(spec_sqrt_floor(n) * spec_sqrt_floor(n) <= n);
        assert(n < (spec_sqrt_floor(n) + 1) * (spec_sqrt_floor(n) + 1));
    }
}

pub proof fn lemma_sqrt_floor_unique(n: nat, r: nat)
    requires
        r * r <= n,
        n < (r + 1) * (r + 1),
    ensures
        r == spec_sqrt_floor(n),
{
    lemma_sqrt_floor(n);
    let s = spec_sqrt_floor(n);
    if r < s {
        assert((r + 1) * (r + 1) <= s * s) by (nonlinear_arith)
            requires r + 1 <= s,
        ;
    } else if s < r {
        assert((s + 1) * (s + 1) <= r * r) by (nonlinear_arith)
            requires s + 1 <= r,
        ;
    }
}

/// Floor of the square root of `n`, for `n` no greater than 2^64.
fn isqrt(n: u128) -> (r: u64)
    requires
        n <= 0x10000000000000000,
    ensures
        r == spec_sqrt_floor(n as nat),
        r <= 0x100000000,
{
    let mut lo: u64 = 0;
    let mut hi: u64 = 0x100000000;
    proof {
        assert((0x100000000u64 as int + 1) * (0x100000000u64 as int + 1) > 0x10000000000000000)
            by (nonlinear_arith);
    }
    while lo < hi
        invariant
            lo <= hi <= 0x100000000,
            (lo as int) * (lo as int) <= n,
            n < (hi as int + 1) * (hi as int + 1),
            n <= 0x10000000000000000,
        decreases hi - lo,
    {
        let mid: u64 = lo + (hi - lo + 1) / 2;
        assert(lo < mid <= hi);
        proof {
            assert((mid as int) * (mid as int) <= 0x100000000 * 0x100000000) by (nonlinear_arith)
                requires
                    0 <= mid as int <= 0x100000000,
            ;
        }
        let sq: u128 = (mid as u128) * (mid as u128);
        if sq <= n {
            lo = mid;
        } else {
            hi = mid - 1;
        }
    }
    proof {
        lemma_sqrt_floor_unique(n as nat, lo as nat);
    }
    lo
}

/// The gap to the next scheduled position, as exact integer arithmetic: the
/// ceiling of `(last + 3/2) * (2^32 / sqrt(prng + 1) - 1)`, clamped to at
/// least one so that the schedule always moves forward.
#[verifier::opaque]
pub open spec fn spec_gap(prng: u64, last: u64) -> int {
    let s = spec_sqrt_floor(prng as nat + 1) as int;
    let num = (2 * (last as int) + 3) * (0x100000000 - s);
    let g = (num + 2 * s - 1) / (2 * s);
    if g < 1 {
        1
    } else {
        g
    }
}

/// The next scheduled position: the gap past `last`, saturating at the top
/// of the 64-bit index space.
pub open spec fn spec_next_index(prng: u64, last: u64) -> u64 {
    let g = spec_gap(prng, last);
    if last + g > u64::MAX {
        u64::MAX
    } else {
        (last + g) as u64
    }
}

/// Deterministic generator of a strictly increasing position sequence,
/// seeded from a symbol's hash.
#[derive(Clone, Copy)]
pub struct IndexGenerator {
    pub prng: u64,
    pub last_index: u64,
}

/// The generator state after one advance.
pub open spec fn spec_step(g: IndexGenerator) -> IndexGenerator {
    let p = spec_next_prng(g.prng);
    IndexGenerator { prng: p, last_index: spec_next_index(p, g.last_index) }
}

/// The generator state after `k` advances.
pub open spec fn spec_nth_state(g: IndexGenerator, k: nat) -> IndexGenerator
    decreases k,
{
    if k == 0 {
        g
    } else {
        spec_step(spec_nth_state(g, (k - 1) as nat))
    }
}

impl IndexGenerator {
    pub fn new(prng: u64, last_index: u64) -> (r: Self)
        ensures
            r.prng == prng,
            r.last_index == last_index,
    {
        Self { prng, last_index }
    }

    /// Advances the state once and returns the new position.
    #[verifier::rlimit(50)]
    pub fn next(&mut self) -> (r: u64)
        ensures
            *final(self) == spec_step(*old(self)),
            r == final(self).last_index,
            old(self).last_index < u64::MAX ==> r > old(self).last_index,
            r >= old(self).last_index,
    {
        self.prng = self.prng.wrapping_mul(PRNG_MULTIPLIER);
        let s: u64 = isqrt(self.prng as u128 + 1);
        proof {
            lemma_sqrt_floor(self.prng as nat + 1);
            assert(s >= 1);
        }
        let last: u64 = self.last_index;
        let a: u128 = 2 * (last as u128) + 3;
        let b: u128 = 0x100000000u128 - (s as u128);
        proof {
            assert((a as int) * (b as int) <= 0x20000000000000001 * 0x100000000) by (nonlinear_arith)
                requires
                    0 <= a as int <= 0x20000000000000001,
                    0 <= b as int <= 0x100000000,
            ;
        }
        let num: u128 = a * b;
        let den: u128 = 2 * (s as u128);
        let mut g: u128 = (num + den - 1) / den;
        if g < 1 {
            g = 1;
        }
        proof {
            reveal(spec_gap);
            assert(g == spec_gap(self.prng, last));
        }
        let room: u64 = u64::MAX - last;
        if g > room as u128 {
            self.last_index = u64::MAX;
        } else {
            self.last_index = last + (g as u64);
        }
        self.last_index
    }
}

/// Law: the schedule is deterministic.  Two generators built from the same
/// seed state agree on every future state, hence on every future position.
pub proof fn lemma_schedule_deterministic(a: IndexGenerator, b: IndexGenerator, k: nat)
    requires
        a.prng == b.prng,
        a.last_index == b.last_index,
    ensures
        spec_nth_state(a, k) == spec_nth_state(b, k),
    decreases k,
{
    if k == 0 {
        assert(a == b);
    } else {
        lemma_schedule_deterministic(a, b, (k - 1) as nat);
    }
}

/// The gap is always at least one.
pub proof fn lemma_gap_at_least_one(prng: u64, last: u64)
    ensures
        spec_gap(prng, last) >= 1,
{
    reveal(spec_gap);
}

/// One advance moves the position forward while there is room to grow.
pub proof fn lemma_step_increases(g: IndexGenerator)
    ensures
        spec_step(g).last_index >= g.last_index,
        g.last_index < u64::MAX ==> spec_step(g).last_index > g.last_index,
{
    lemma_gap_at_least_one(spec_next_prng(g.prng), g.last_index);
}

/// Law: the schedule is strictly increasing while it has room to grow, and
/// never decreases.
pub proof fn lemma_schedule_strictly_increasing(g: IndexGenerator, k: nat)
    ensures
        spec_nth_state(g, k + 1).last_index >= spec_nth_state(g, k).last_index,
        spec_nth_state(g, k).last_index < u64::MAX
            ==> spec_nth_state(g, k + 1).last_index > spec_nth_state(g, k).last_index,
{
    let s = spec_nth_state(g, k);
    lemma_gap_at_least_one(spec_next_prng(s.prng), s.last_index);
    assert(spec_nth_state(g, k + 1) == spec_step(s));
}

} // verus!
