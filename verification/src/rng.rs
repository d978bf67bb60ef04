//! A small deterministic pseudo-random generator (splitmix64).
//!
//! Sampling during generation needs a stream of draws. The generator is
//! seeded explicitly, so a caller that fixes the seed gets a reproducible
//! stream; independent output streams are given independently seeded
//! generators so their draws are uncorrelated.

use vstd::prelude::*;

verus! {

/// The state after one splitmix64 step.
pub open spec fn next_state(s: u64) -> u64 {
    s.wrapping_add(0x9e37_79b9_7f4a_7c15)
}

/// The output word mixed out of a state.
pub open spec fn mix(z0: u64) -> u64 {
    let z1 = (z0 ^ (z0 >> 30)).wrapping_mul(0xbf58_476d_1ce4_e5b9);
    let z2 = (z1 ^ (z1 >> 27)).wrapping_mul(0x94d0_49bb_1331_11eb);
    z2 ^ (z2 >> 31)
}

/// The value a bounded draw yields from state `s`: two mixed words joined
/// and reduced modulo the bound.
pub open spec fn draw_below(s: u64, bound: u128) -> u128 {
    (((mix(next_state(s)) as u128) << 64) | (mix(next_state(next_state(s))) as u128)) % bound
}

/// A deterministic draw source; its view is its current state.
pub struct Rng {
    state: u64,
}

impl View for Rng {
    type V = u64;

    closed spec fn view(&self) -> u64 {
        self.state
    }
}

impl Rng {
    /// A generator starting from the given seed.
    pub fn new(seed: u64) -> (r: Rng)
        ensures
            r@ == seed,
    {
        Rng { state: seed }
    }

    /// The next raw 64-bit draw.
    pub fn next_u64(&mut self) -> (r: u64)
        ensures
            final(self)@ == next_state(old(self)@),
            r == mix(next_state(old(self)@)),
    {
        self.state = self.state.wrapping_add(0x9e37_79b9_7f4a_7c15);
        let z0 = self.state;
        let z1 = (z0 ^ (z0 >> 30)).wrapping_mul(0xbf58_476d_1ce4_e5b9);
        let z2 = (z1 ^ (z1 >> 27)).wrapping_mul(0x94d0_49bb_1331_11eb);
        z2 ^ (z2 >> 31)
    }

    /// A draw below `bound`, from two raw draws.
    pub fn next_below(&mut self, bound: u128) -> (r: u128)
        requires
            bound >= 1,
        ensures
            r < bound,
            r == draw_below(old(self)@, bound),
            final(self)@ == next_state(next_state(old(self)@)),
    {
        let hi = self.next_u64();
        let lo = self.next_u64();
        let wide: u128 = ((hi as u128) << 64) | (lo as u128);
        wide % bound
    }
}

} // verus!
