//! A deterministic, seedable pseudo-random generator.
//!
//! Every worker (and, in this renderer, every pixel) owns its own generator
//! seeded from the base seed and the pixel index, so parallel rendering
//! shares no mutable state and a fixed seed reproduces the image exactly.

use vstd::prelude::*;
use crate::num::SCALE;

verus! {

/// One step of the 64-bit linear congruential generator.
pub closed spec fn rng_next(s: u64) -> u64 {
    ((s * 6364136223846793005 + 1442695040888963407) % 0x1_0000_0000_0000_0000) as u64
}

/// The fixed-point sample in `[0, 1)` drawn by one step from state `s`.
pub closed spec fn rand_val(s: u64) -> i64 {
    ((rng_next(s) >> 16) % 65536) as i64
}

/// Mixing a seed with an index gives each pixel its own stream.
pub open spec fn spec_mix(seed: u64, idx: u64) -> u64 {
    rng_next(seed ^ idx)
}

/// Every drawn sample lies in `[0, 1)`.
pub proof fn lemma_rand_val_bounds(s: u64)
    ensures
        0 <= rand_val(s) < SCALE,
{
    vstd::arithmetic::div_mod::lemma_mod_division_less_than_divisor((rng_next(s) >> 16) as int, 65536);
}

pub struct Rng {
    pub state: u64,
}

impl Rng {
    pub fn seed(seed: u64) -> (r: Rng)
        ensures
            r.state == seed,
    {
        Rng { state: seed }
    }

    /// Draw one fixed-point sample uniform over `[0, 1)`.
    pub fn next_unit(&mut self) -> (r: i64)
        ensures
            final(self).state == rng_next(old(self).state),
            r == rand_val(old(self).state),
            0 <= r < SCALE,
    {
        let wide: u128 = (self.state as u128) * 6364136223846793005u128 + 1442695040888963407u128;
        self.state = (wide % 0x1_0000_0000_0000_0000u128) as u64;
        let r = ((self.state >> 16) % 65536) as i64;
        r
    }
}

/// Derive the generator state for one pixel from the base seed.
pub fn mix(seed: u64, idx: u64) -> (r: u64)
    ensures
        r == spec_mix(seed, idx),
{
    let x = seed ^ idx;
    let wide: u128 = (x as u128) * 6364136223846793005u128 + 1442695040888963407u128;
    (wide % 0x1_0000_0000_0000_0000u128) as u64
}

} // verus!
