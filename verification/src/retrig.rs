//! Retrigs: rapid repeats of a fired trig.

use vstd::prelude::*;
use crate::nonzero::NonZeroU16;
use crate::unit::{f32_is_nan, INF_BITS, NEG_ONE_BITS, NEG_ZERO_BITS, ONE_BITS};

verus! {

/// Hit rate of a retrig train, as a note value. Only rates representable as
/// a whole number of pulses on the 96 PPQN grid exist.
///
/// | Rate  | Note | Pulses |
/// |-------|------|--------|
/// | `R4`  | 1/4  | 96     |
/// | `R6`  | 1/6  | 64     |
/// | `R8`  | 1/8  | 48     |
/// | `R12` | 1/12 | 32     |
/// | `R16` | 1/16 | 24     |
/// | `R24` | 1/24 | 16     |
/// | `R32` | 1/32 | 12     |
/// | `R48` | 1/48 | 8      |
/// | `R64` | 1/64 | 6      |
/// | `R96` | 1/96 | 4      |
#[derive(Clone, Copy, Debug, PartialEq, Eq, Structural)]
pub enum RetrigRate {
    /// Quarter notes (96 pulses).
    R4,
    /// Quarter-note triplets (64 pulses).
    R6,
    /// Eighth notes (48 pulses).
    R8,
    /// Eighth-note triplets (32 pulses).
    R12,
    /// Sixteenth notes — one hit per step (24 pulses).
    R16,
    /// Sixteenth-note triplets (16 pulses).
    R24,
    /// Thirty-second notes (12 pulses).
    R32,
    /// Thirty-second-note triplets (8 pulses).
    R48,
    /// Sixty-fourth notes (6 pulses).
    R64,
    /// The fastest rate (4 pulses).
    R96,
}

/// Pulses between consecutive hits of each rate (the table above).
pub open spec fn rate_interval(rate: RetrigRate) -> u16 {
    match rate {
        RetrigRate::R4 => 96,
        RetrigRate::R6 => 64,
        RetrigRate::R8 => 48,
        RetrigRate::R12 => 32,
        RetrigRate::R16 => 24,
        RetrigRate::R24 => 16,
        RetrigRate::R32 => 12,
        RetrigRate::R48 => 8,
        RetrigRate::R64 => 6,
        RetrigRate::R96 => 4,
    }
}

impl Default for RetrigRate {
    fn default() -> (r: Self)
        ensures
            r == RetrigRate::R16,
    {
        RetrigRate::R16
    }
}

impl RetrigRate {
    /// Pulses between consecutive hits.
    pub fn interval(self) -> (r: u16)
        ensures
            r == rate_interval(self),
            4 <= r <= 96,
    {
        match self {
            RetrigRate::R4 => 96,
            RetrigRate::R6 => 64,
            RetrigRate::R8 => 48,
            RetrigRate::R12 => 32,
            RetrigRate::R16 => 24,
            RetrigRate::R24 => 16,
            RetrigRate::R32 => 12,
            RetrigRate::R48 => 8,
            RetrigRate::R64 => 6,
            RetrigRate::R96 => 4,
        }
    }
}

/// How long a retrig train runs.
#[derive(Clone, Copy, Debug, PartialEq, Eq)]
pub enum RetrigLength {
    /// The train covers this many pulses from the trig: hits land at
    /// `0, interval, 2×interval, …` up to and including this length.
    Pulses(NonZeroU16),
    /// The train runs until the next fired trig on the track replaces it.
    Infinite,
}

impl RetrigLength {
    /// Convenience constructor; `n` is clamped up to at least 1 pulse.
    pub fn pulses(n: u16) -> (r: Self)
        ensures
            r matches RetrigLength::Pulses(p) && p.spec_get() == (if n == 0 {
                1
            } else {
                n
            }),
    {
        match NonZeroU16::new(n) {
            Some(p) => RetrigLength::Pulses(p),
            None => RetrigLength::Pulses(NonZeroU16::min_value()),
        }
    }
}

/// The bit patterns of the numbers in `-1.0..=1.0` (zeros of both signs
/// included).
pub open spec fn ramp_bits(b: u32) -> bool {
    b <= ONE_BITS || (NEG_ZERO_BITS <= b && b <= NEG_ONE_BITS)
}

/// Clamping a ramp into `-1.0..=1.0`: NaN becomes `0.0`, numbers above
/// `1.0` (and `+inf`) become `1.0`, numbers below `-1.0` (and `-inf`)
/// become `-1.0`, the rest are kept.
pub open spec fn clamp_ramp_bits(b: u32) -> u32 {
    if f32_is_nan(b) {
        0
    } else if ONE_BITS < b && b <= INF_BITS {
        ONE_BITS
    } else if NEG_ONE_BITS < b {
        NEG_ONE_BITS
    } else {
        b
    }
}

/// A velocity ramp in `-1.0..=1.0`, held as a single-precision bit pattern.
#[derive(Clone, Copy, Debug, PartialEq, Eq)]
pub struct VelRamp {
    bits: u32,
}

impl VelRamp {
    #[verifier::type_invariant]
    spec fn inv(self) -> bool {
        ramp_bits(self.bits)
    }

    /// The bit pattern held.
    pub closed spec fn spec_bits(self) -> u32 {
        self.bits
    }

    /// Clamps a bit pattern into `-1.0..=1.0` (NaN becomes `0.0`).
    pub fn from_bits(bits: u32) -> (r: Self)
        ensures
            r.spec_bits() == clamp_ramp_bits(bits),
    {
        if bits % 0x8000_0000 > INF_BITS {
            VelRamp { bits: 0 }
        } else if ONE_BITS < bits && bits <= INF_BITS {
            VelRamp { bits: ONE_BITS }
        } else if NEG_ONE_BITS < bits {
            VelRamp { bits: NEG_ONE_BITS }
        } else {
            VelRamp { bits }
        }
    }

    /// The held bit pattern, always in `-1.0..=1.0`.
    pub fn to_bits(self) -> (r: u32)
        ensures
            r == self.spec_bits(),
            ramp_bits(r),
    {
        proof {
            use_type_invariant(&self);
        }
        self.bits
    }
}

/// Per-step retrig settings: when the step's trig fires, it becomes the
/// first hit of a train.
#[derive(Clone, Copy, Debug, PartialEq)]
pub struct Retrig {
    /// Interval between hits.
    pub rate: RetrigRate,
    /// How long the train runs.
    pub length: RetrigLength,
    /// Velocity ramp across a finite train, `-1.0..=1.0` (the type keeps it
    /// in range; see `vel_ramp`/`set_vel_ramp`).
    pub vel_ramp: VelRamp,
}

impl Retrig {
    /// Creates retrig settings from the bit pattern of a single-precision
    /// ramp; the ramp is clamped to `-1.0..=1.0` (NaN becomes `0.0`).
    pub fn new(rate: RetrigRate, length: RetrigLength, vel_ramp_bits: u32) -> (r: Self)
        ensures
            r.rate == rate,
            r.length == length,
            r.vel_ramp.spec_bits() == clamp_ramp_bits(vel_ramp_bits),
    {
        Retrig { rate, length, vel_ramp: VelRamp::from_bits(vel_ramp_bits) }
    }

    /// The velocity ramp's bit pattern: the last hit of an `n`-hit train
    /// plays at `clamp(v0 + vel_ramp, 0, 1)`, hits in between interpolate
    /// linearly. `0.0` = flat; ignored by `Infinite` and single-hit trains.
    pub fn vel_ramp(&self) -> (r: u32)
        ensures
            r == self.vel_ramp.spec_bits(),
            ramp_bits(r),
    {
        self.vel_ramp.to_bits()
    }

    /// Sets the velocity ramp from a bit pattern, clamping to `-1.0..=1.0`
    /// (NaN becomes `0.0`).
    pub fn set_vel_ramp(&mut self, ramp_bits: u32)
        ensures
            final(self).rate == old(self).rate,
            final(self).length == old(self).length,
            final(self).vel_ramp.spec_bits() == clamp_ramp_bits(ramp_bits),
    {
        self.vel_ramp = VelRamp::from_bits(ramp_bits);
    }
}

impl Default for Retrig {
    /// Sixteenth-note hits, one step long, flat velocity.
    fn default() -> (r: Self)
        ensures
            r.rate == RetrigRate::R16,
            r.length matches RetrigLength::Pulses(p) && p.spec_get() == 24,
            r.vel_ramp.spec_bits() == 0,
    {
        Retrig::new(RetrigRate::R16, RetrigLength::pulses(24), 0)
    }
}

} // verus!
