//! Tiny deterministic PRNG.
//!
//! Probability trigs must be deterministic and replayable: the same seed,
//! pattern, and call sequence always produce identical output. No global
//! state, no system entropy.

use vstd::prelude::*;
use vstd::wrapping::u64_specs::{wrapping_add, wrapping_mul};

verus! {

/// PCG32 multiplier.
pub const PCG_MULT: u64 = 6_364_136_223_846_793_005;
/// PCG32 stream increment (odd).
pub const PCG_INC: u64 = 0xda3e_39cb_94b9_5bdb;

/// One LCG step of the PCG32 state.
pub open spec fn pcg_step(state: u64, inc: u64) -> u64 {
    wrapping_add(wrapping_mul(state, PCG_MULT), inc)
}

/// Rotate a 32-bit word right by `r` (`r < 32`).
pub open spec fn rotr32(x: u32, r: u32) -> u32 {
    if r == 0 {
        x
    } else {
        (x >> r) | (x << (32 - r) as u32)
    }
}

/// The XSH-RR output permutation of a PCG32 state.
pub open spec fn pcg_output(old: u64) -> u32 {
    let xorshifted = (((old >> 18u64) ^ old) >> 27u64) as u32;
    let rot = (old >> 59u64) as u32;
    rotr32(xorshifted, rot)
}

/// The state a generator created from `seed` starts in.
pub open spec fn pcg_seeded_state(seed: u64) -> u64 {
    pcg_step(wrapping_add(pcg_step(0, PCG_INC), seed), PCG_INC)
}

/// The inverse of `PCG_MULT` modulo `2^64` (the multiplier is odd).
pub open spec fn pcg_mult_inverse() -> int {
    13_877_824_140_714_322_085
}

/// Multiplying by `PCG_MULT` modulo `2^64` is undone by multiplying by its
/// inverse.
proof fn lemma_mult_undone(x: u64)
    ensures
        (wrapping_mul(x, PCG_MULT) as int * pcg_mult_inverse()) % 0x1_0000_0000_0000_0000 == x as int,
{
    let r: int = 0x1_0000_0000_0000_0000;
    let m: int = PCG_MULT as int;
    let inv = pcg_mult_inverse();
    let k: int = 4_787_856_489_426_250_814;
    assert(m * inv == 1 + k * r) by (nonlinear_arith)
        requires
            m == PCG_MULT as int,
            inv == pcg_mult_inverse(),
            k == 4_787_856_489_426_250_814int,
            r == 0x1_0000_0000_0000_0000int,
    ;
    vstd::arithmetic::div_mod::lemma_mul_mod_noop_left(x as int * m, inv, r);
    assert(x as int * m * inv == r * (x as int * k) + x as int) by (nonlinear_arith)
        requires
            m * inv == 1 + k * r,
    ;
    vstd::arithmetic::div_mod::lemma_mod_multiples_vanish(x as int * k, x as int, r);
    vstd::arithmetic::div_mod::lemma_small_mod(x as nat, r as nat);
}

/// One LCG step is a bijection of the state.
pub proof fn lemma_pcg_step_injective(x: u64, y: u64, inc: u64)
    requires
        pcg_step(x, inc) == pcg_step(y, inc),
    ensures
        x == y,
{
    assert(wrapping_mul(x, PCG_MULT) == wrapping_mul(y, PCG_MULT));
    lemma_mult_undone(x);
    lemma_mult_undone(y);
}

/// Seeding is injective: different seeds start the generator in different
/// states, so they give different streams, and equal seeds equal streams.
pub proof fn lemma_seeding_injective(seed1: u64, seed2: u64)
    ensures
        pcg_seeded_state(seed1) == pcg_seeded_state(seed2) <==> seed1 == seed2,
{
    if pcg_seeded_state(seed1) == pcg_seeded_state(seed2) {
        let z = pcg_step(0, PCG_INC);
        lemma_pcg_step_injective(wrapping_add(z, seed1), wrapping_add(z, seed2), PCG_INC);
    }
}

/// Minimal PCG32 (XSH-RR variant).
#[derive(Clone, Copy, Debug)]
pub struct Pcg32 {
    pub state: u64,
    pub inc: u64,
}

impl Pcg32 {
    /// Seeds a generator: the state is stepped once from zero, the seed is
    /// added, and the state is stepped again.
    pub fn new(seed: u64) -> (r: Self)
        ensures
            r.state == pcg_seeded_state(seed),
            r.inc == PCG_INC,
    {
        let mut rng = Pcg32 { state: 0, inc: PCG_INC };
        rng.next_u32();
        rng.state = rng.state.wrapping_add(seed);
        rng.next_u32();
        rng
    }

    /// Advances the state and returns the next 32-bit output.
    pub fn next_u32(&mut self) -> (r: u32)
        ensures
            r == pcg_output(old(self).state),
            final(self).state == pcg_step(old(self).state, old(self).inc),
            final(self).inc == old(self).inc,
    {
        let old = self.state;
        self.state = old.wrapping_mul(PCG_MULT).wrapping_add(self.inc);
        let xorshifted = (((old >> 18u64) ^ old) >> 27u64) as u32;
        let rot = (old >> 59u64) as u32;
        assert(rot < 32) by (bit_vector)
            requires rot == (old >> 59u64) as u32;
        if rot == 0 {
            xorshifted
        } else {
            (xorshifted >> rot) | (xorshifted << (32 - rot))
        }
    }

    /// A uniform draw `k` in `0..2^24`, standing for the number `k / 2^24`
    /// in `[0, 1)`: the top 24 bits of the next output.
    pub fn next_draw(&mut self) -> (k: u32)
        ensures
            k == pcg_output(old(self).state) >> 8u32,
            k < 0x100_0000,
            final(self).state == pcg_step(old(self).state, old(self).inc),
            final(self).inc == old(self).inc,
    {
        let x = self.next_u32();
        assert(x >> 8u32 < 0x100_0000) by (bit_vector);
        x >> 8
    }
}

} // verus!
