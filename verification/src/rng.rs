//! The games' shared pseudo-random source: a 64-bit xorshift, deterministic per seed, so a
//! fixed seed replays the same puzzle, brick layout and piece order.

use vstd::prelude::*;

verus! {

/// One xorshift step (shifts 13, 7, 17): the state that follows `x`, which is also the value
/// drawn.
pub open spec fn xorshift(x: u64) -> u64 {
    let a = x ^ (x << 13u64);
    let b = a ^ (a >> 7u64);
    b ^ (b << 17u64)
}

/// The value `unit()` compares against a probability, as a whole number of 2^-53 steps: the
/// top 53 bits of a draw.
pub open spec fn unit_steps(draw: u64) -> u64 {
    draw >> 11u64
}

/// A xorshift generator. Seeded with an odd value it never reaches zero.
pub struct Rng {
    pub state: u64,
}

impl Rng {
    pub fn new(seed: u64) -> (r: Rng)
        ensures
            r.state == seed,
    {
        Rng { state: seed }
    }

    /// Advance and return the new state.
    pub fn next(&mut self) -> (r: u64)
        ensures
            r == xorshift(old(self).state),
            final(self).state == r,
    {
        let mut x = self.state;
        x ^= x << 13;
        x ^= x >> 7;
        x ^= x << 17;
        self.state = x;
        x
    }

    /// A draw reduced to `0..n`.
    pub fn below(&mut self, n: usize) -> (r: usize)
        requires
            n > 0,
        ensures
            r < n,
            r as int == xorshift(old(self).state) as int % n as int,
            final(self).state == xorshift(old(self).state),
    {
        let x = self.next();
        (x % (n as u64)) as usize
    }

    /// Whether a uniform draw from `[0, 1)` falls under a probability `p`, where `p` is given
    /// as `odds` whole steps of 2^-53 (the resolution of a 53-bit unit draw): true exactly when
    /// the top 53 bits of the draw are below `odds`.
    pub fn unit_below(&mut self, odds: u64) -> (r: bool)
        ensures
            r == (unit_steps(xorshift(old(self).state)) < odds),
            final(self).state == xorshift(old(self).state),
    {
        let x = self.next();
        (x >> 11) < odds
    }
}

} // verus!
