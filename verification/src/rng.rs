//! A small PCG32 random number generator.
use vstd::prelude::*;

verus! {

/// The multiplier of the underlying 64-bit linear congruential generator.
pub const PCG_MULT: u64 = 6364136223846793005;

/// One step of the linear congruential generator that drives the PCG state.
pub open spec fn pcg_step(state: u64, inc: u64) -> u64 {
    vstd::wrapping::u64_specs::wrapping_add(
        vstd::wrapping::u64_specs::wrapping_mul(state, PCG_MULT),
        inc,
    )
}

/// Rotation of a 32-bit word to the right by `rot % 32` places.
pub open spec fn rotr32(x: u32, rot: u32) -> u32 {
    let r = rot % 32;
    if r == 0 {
        x
    } else {
        ((x >> r) | (x << ((32 - r) as u32))) as u32
    }
}

/// The XSH-RR output permutation applied to the state before a step.
pub open spec fn pcg_output(old: u64) -> u32 {
    rotr32((((old >> 18u64) ^ old) >> 27u64) as u32, (old >> 59u64) as u32)
}

/// The state after `Pcg32::new(seed, seq)`.
pub open spec fn pcg_seeded(seed: u64, seq: u64) -> u64 {
    let inc = pcg_inc(seq);
    pcg_step(vstd::wrapping::u64_specs::wrapping_add(pcg_step(0, inc), seed), inc)
}

/// The stream increment chosen by `seq`: always odd.
pub open spec fn pcg_inc(seq: u64) -> u64 {
    ((seq << 1u64) | 1u64) as u64
}

/// How many draws `below` makes at most before it settles for the last one.
pub const BELOW_DRAW_LIMIT: u64 = 0xffff_ffff_ffff_ffff;

/// The draw that `below` accepts, starting from `state`, and the state after
/// it: the first output not under `threshold`, within `fuel` further draws.
pub open spec fn below_draw(state: u64, inc: u64, threshold: u32, fuel: nat) -> (u32, u64)
    decreases fuel,
{
    let value = pcg_output(state);
    let next = pcg_step(state, inc);
    if value >= threshold || fuel == 0 {
        (value, next)
    } else {
        below_draw(next, inc, threshold, (fuel - 1) as nat)
    }
}

/// The rejection threshold of `below`: `2^32 mod limit`.
pub open spec fn below_threshold(limit: u32) -> u32
    recommends
        limit > 0,
{
    (vstd::wrapping::u32_specs::wrapping_sub(0, limit) % limit) as u32
}

/// A small permuted congruential generator (PCG32, XSH-RR).
pub struct Pcg32 {
    state: u64,
    inc: u64,
}

impl Pcg32 {
    /// The generator's internal state.
    pub closed spec fn spec_state(&self) -> u64 {
        self.state
    }

    /// The generator's stream increment.
    pub closed spec fn spec_inc(&self) -> u64 {
        self.inc
    }

    /// Seeds a generator on stream `seq`.
    pub fn new(seed: u64, seq: u64) -> (rng: Self)
        ensures
            rng.spec_inc() == pcg_inc(seq),
            rng.spec_state() == pcg_seeded(seed, seq),
    {
        let mut rng = Self { state: 0, inc: (seq << 1u64) | 1u64 };
        rng.next_u32();
        rng.state = rng.state.wrapping_add(seed);
        rng.next_u32();
        rng
    }

    /// Returns the next 32 pseudo-random bits.
    pub fn next_u32(&mut self) -> (value: u32)
        ensures
            value == pcg_output(old(self).spec_state()),
            final(self).spec_state() == pcg_step(old(self).spec_state(), old(self).spec_inc()),
            final(self).spec_inc() == old(self).spec_inc(),
    {
        let old = self.state;
        self.state = old.wrapping_mul(PCG_MULT).wrapping_add(self.inc);
        let xorshifted = (((old >> 18u64) ^ old) >> 27u64) as u32;
        let rot = (old >> 59u64) as u32;
        rotate_right_u32(xorshifted, rot)
    }

    /// Draws a value uniformly below `limit` by rejecting the biased low
    /// outputs.
    pub fn below(&mut self, limit: u32) -> (value: u32)
        requires
            limit > 0,
        ensures
            value < limit,
            ({
                let (draw, next) = below_draw(
                    old(self).spec_state(),
                    old(self).spec_inc(),
                    below_threshold(limit),
                    BELOW_DRAW_LIMIT as nat,
                );
                value == draw % limit && final(self).spec_state() == next
            }),
            final(self).spec_inc() == old(self).spec_inc(),
    {
        let threshold = 0u32.wrapping_sub(limit) % limit;
        let mut fuel: u64 = BELOW_DRAW_LIMIT;
        loop
            invariant
                self.spec_inc() == old(self).spec_inc(),
                threshold == below_threshold(limit),
                limit > 0,
                below_draw(self.spec_state(), self.spec_inc(), threshold, fuel as nat)
                    == below_draw(
                    old(self).spec_state(),
                    old(self).spec_inc(),
                    threshold,
                    BELOW_DRAW_LIMIT as nat,
                ),
            decreases fuel,
        {
            let value = self.next_u32();
            if value >= threshold || fuel == 0 {
                return value % limit;
            }
            fuel = fuel - 1;
        }
    }
}

/// Rotates `x` right by `rot % 32` places.
fn rotate_right_u32(x: u32, rot: u32) -> (r: u32)
    ensures
        r == rotr32(x, rot),
{
    let r = rot % 32;
    if r == 0 {
        x
    } else {
        (x >> r) | (x << (32 - r))
    }
}

} // verus!
