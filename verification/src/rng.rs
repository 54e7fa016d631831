//! The Park-Miller-Lehmer pseudo-random sequence used to seed hashers.
//!
//! The generator state is a single `u32` seed that the caller owns; each step
//! multiplies it by 48271 modulo `RAND_MAX` and hands back the value the seed
//! held before the step.

use vstd::prelude::*;

verus! {

pub const RAND_MAX: u64 = 2_147_483_647;

/// The successor of a seed in the Park-Miller-Lehmer sequence.
pub open spec fn next_seed(x: u32) -> u32 {
    (((x as int) * 48271) % (RAND_MAX as int)) as u32
}

/// Advance the generator one step, returning the value the seed held before.
pub fn step_rng(seed: &mut u32) -> (r: u32)
    ensures
        r == *old(seed),
        *final(seed) == next_seed(*old(seed)),
{
    let prev: u32 = *seed;
    let stepped: u64 = ((prev as u64) * 48271) % RAND_MAX;
    *seed = stepped as u32;
    prev
}

/// Draw 64 pseudo-random bits: two generator steps, the first in the high word.
pub fn random(seed: &mut u32) -> (r: u64)
    ensures
        r == ((*old(seed) as u64) << 32) | (next_seed(*old(seed)) as u64),
        *final(seed) == next_seed(next_seed(*old(seed))),
{
    let hi: u32 = step_rng(seed);
    let lo: u32 = step_rng(seed);
    ((hi as u64) << 32) | (lo as u64)
}

} // verus!
