//! A tiny PCG-style pseudo-random generator used to place the scene's spheres.
//!
//! The generator is fully deterministic: one step is the pure function
//! [`spec_pcg32_step`] of the previous state, so a fixed seed always yields the
//! same sphere layout.

use vstd::prelude::*;

verus! {

/// One step of the generator: a 32-bit multiply-add followed by a
/// variable-shift xorshift output permutation, all modulo `2^32`.
pub open spec fn spec_pcg32_step(s: u32) -> u32 {
    let v = vstd::wrapping::u32_specs::wrapping_add(
        vstd::wrapping::u32_specs::wrapping_mul(s, 747_796_405),
        2_891_336_453,
    );
    let word = vstd::wrapping::u32_specs::wrapping_mul((v >> ((v >> 28) + 4)) ^ v, 277_803_737);
    (word >> 22) ^ word
}

pub struct Pcg32 {
    state: u32,
}

impl Pcg32 {
    /// The current generator state, for stating how `next_u32` advances it.
    pub closed spec fn spec_state(&self) -> u32 {
        self.state
    }

    pub fn new(seed: u32) -> (r: Self)
        ensures
            r.spec_state() == seed,
    {
        Self { state: seed }
    }

    #[verifier::rlimit(100)]
    pub fn next_u32(&mut self) -> (r: u32)
        ensures
            r == spec_pcg32_step(old(self).spec_state()),
            final(self).spec_state() == r,
    {
        let ghost s0 = self.state;
        let mut v = self.state;
        v = v.wrapping_mul(747_796_405).wrapping_add(2_891_336_453);
        proof {
            assert(v == vstd::wrapping::u32_specs::wrapping_add(
                vstd::wrapping::u32_specs::wrapping_mul(s0, 747_796_405),
                2_891_336_453,
            ));
        }
        assert(v >> 28 < 16u32) by (bit_vector);
        let shift = (v >> 28) + 4;
        let word = ((v >> shift) ^ v).wrapping_mul(277_803_737);
        proof {
            assert(word == vstd::wrapping::u32_specs::wrapping_mul(
                (v >> ((v >> 28) + 4)) ^ v,
                277_803_737,
            ));
        }
        let result = (word >> 22) ^ word;
        self.state = result;
        result
    }
}

} // verus!
