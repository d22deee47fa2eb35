//! A small deterministic generator of random numbers.

use crate::random::RandomProvider;
use vstd::prelude::*;

verus! {

/// A xorshift generator with 64 bits of state that counts its calls.
#[derive(Debug, Clone, Copy, PartialEq, Eq, Structural)]
pub struct XorShift64 {
    /// The state, which is never zero after a reseed.
    pub state: u64,
    /// Calls since the last reseed.
    pub calls: u64,
}

/// The state after `s`.
pub open spec fn xorshift(s: u64) -> u64 {
    let a = s ^ (s << 13u64);
    let b = a ^ (a >> 7u64);
    b ^ (b << 17u64)
}

/// The state for a seed: the seed itself, or one in place of zero.
pub open spec fn seeded(seed: u64) -> XorShift64 {
    XorShift64 {
        state: if seed == 0 {
            1
        } else {
            seed
        },
        calls: 0,
    }
}

/// The generator after one call.
pub open spec fn advanced(rng: XorShift64) -> XorShift64 {
    XorShift64 { state: xorshift(rng.state), calls: crate::counts::next_count(rng.calls) }
}

impl XorShift64 {
    /// A generator for a seed.
    pub fn new(seed: u64) -> (rng: Self)
        ensures
            rng == seeded(seed),
    {
        let mut rng = XorShift64 { state: 1, calls: 0 };
        reseed(&mut rng, seed);
        rng
    }
}

/// The calls since the last reseed.
pub fn count(rng: &XorShift64) -> (n: u64)
    ensures
        n == rng.calls,
{
    rng.calls
}

/// Reseeds the generator and starts the count anew.
pub fn reseed(rng: &mut XorShift64, seed: u64)
    ensures
        *final(rng) == seeded(seed),
{
    rng.state = if seed == 0 {
        1
    } else {
        seed
    };
    rng.calls = 0;
}

/// Advances the generator and returns the next number.
pub fn next_random(rng: &mut XorShift64) -> (r: u64)
    ensures
        *final(rng) == advanced(*old(rng)),
        r == final(rng).state,
{
    let s: u64 = rng.state;
    let a: u64 = s ^ (s << 13u64);
    let b: u64 = a ^ (a >> 7u64);
    let c: u64 = b ^ (b << 17u64);
    rng.state = c;
    rng.calls = rng.calls.wrapping_add(1);
    c
}

/// A random number below `divisor`.
pub fn random_below(rng: &mut XorShift64, divisor: u32) -> (r: u32)
    requires
        divisor > 0,
    ensures
        *final(rng) == advanced(*old(rng)),
        r == xorshift(old(rng).state) % (divisor as u64),
{
    (next_random(rng) % (divisor as u64)) as u32
}

/// From a state that is not zero the generator never reaches zero, where it would
/// stay.
pub proof fn lemma_never_zero(s: u64)
    requires
        s != 0,
    ensures
        xorshift(s) != 0,
{
    let a = s ^ (s << 13u64);
    let b = a ^ (a >> 7u64);
    assert(a != 0) by (bit_vector)
        requires
            s != 0,
            a == s ^ (s << 13u64),
    ;
    assert(b != 0) by (bit_vector)
        requires
            a != 0,
            b == a ^ (a >> 7u64),
    ;
    assert(b ^ (b << 17u64) != 0) by (bit_vector)
        requires
            b != 0,
    ;
}

impl RandomProvider for XorShift64 {
    open spec fn number_draw(self) -> (u64, Self) {
        (xorshift(self.state), advanced(self))
    }

    open spec fn range_draw(self, start: u64, end: u64) -> (u64, Self) {
        ((start + xorshift(self.state) as int % (end - start)) as u64, advanced(self))
    }

    open spec fn ratio_draw(self) -> (u64, Self) {
        (xorshift(self.state) / 2048, advanced(self))
    }

    proof fn lemma_draws(self, start: u64, end: u64) {
        assert(xorshift(self.state) / 2048 < 9_007_199_254_740_992);
    }

    fn random(&mut self) -> (r: u64) {
        next_random(self)
    }

    fn random_range(&mut self, start: u64, end: u64) -> (r: u64) {
        let n: u64 = next_random(self);
        start + n % (end - start)
    }

    fn random_ratio(&mut self) -> (r: u64) {
        next_random(self) / 2048
    }
}

} // verus!
