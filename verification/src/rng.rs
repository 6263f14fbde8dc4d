//! The session builder's random source: one small stateful generator,
//! threaded explicitly, so that a session built from a given seed can
//! be reproduced.  Fresh seeds come from the `rand` crate.

use vstd::prelude::*;

verus! {

/// One additive step of the generator state.
pub open spec fn spec_next_state(s: u64) -> u64 {
    s.wrapping_add(0x9E3779B97F4A7C15)
}

/// The output word drawn from a generator state (a bit-mixing chain).
pub open spec fn spec_output(s: u64) -> u64 {
    let z1 = (s ^ (s >> 30)).wrapping_mul(0xBF58476D1CE4E5B9);
    let z2 = (z1 ^ (z1 >> 27)).wrapping_mul(0x94D049BB133111EB);
    z2 ^ (z2 >> 31)
}

/// A deterministic pseudo-random source.  Every draw is a function of
/// the state, so whatever is built from a seeded source is reproducible.
pub struct MathemaRng {
    pub state: u64,
}

impl MathemaRng {
    pub fn new(seed: u64) -> (r: MathemaRng)
        ensures
            r.state == seed,
    {
        MathemaRng { state: seed }
    }

    /// A source seeded from the system's entropy.
    pub fn from_entropy() -> (r: MathemaRng) {
        MathemaRng { state: rand::random::<u64>() }
    }

    /// Draws one word and advances the state.
    pub fn next_u64(&mut self) -> (r: u64)
        ensures
            final(self).state == spec_next_state(old(self).state),
            r == spec_output(spec_next_state(old(self).state)),
    {
        self.state = self.state.wrapping_add(0x9E3779B97F4A7C15);
        let s = self.state;
        let z1 = (s ^ (s >> 30)).wrapping_mul(0xBF58476D1CE4E5B9);
        let z2 = (z1 ^ (z1 >> 27)).wrapping_mul(0x94D049BB133111EB);
        z2 ^ (z2 >> 31)
    }

    /// Draws a fair-coin boolean and advances the state.
    pub fn next_bool(&mut self) -> (r: bool)
        ensures
            final(self).state == spec_next_state(old(self).state),
            r == (spec_output(spec_next_state(old(self).state)) & 1 == 1),
    {
        let w = self.next_u64();
        w & 1 == 1
    }

    /// Draws a value below `bound` and advances the state.
    pub fn next_below(&mut self, bound: u64) -> (r: u64)
        requires
            bound > 0,
        ensures
            final(self).state == spec_next_state(old(self).state),
            r == spec_output(spec_next_state(old(self).state)) % bound,
            r < bound,
    {
        let w = self.next_u64();
        w % bound
    }
}

/// Relies on `rand::random`: a value drawn from the thread's generator;
/// nothing is promised of it.
pub assume_specification<T>[ rand::random::<T> ]() -> (r: T)
    where
        rand::distr::StandardUniform: rand::distr::Distribution<T>,
;

} // verus!
