//! The unit-interval value type used for velocities and parameter lanes.
//!
//! Values are held as IEEE-754 single-precision bit patterns: the library
//! stores and compares them exactly, and never rounds them.

use vstd::prelude::*;
use std::cmp::Ordering;
use vstd::arithmetic::power2::{pow2, lemma_pow2_adds, lemma_pow2_strictly_increases, lemma2_to64, lemma_pow2_pos};

verus! {

/// Bit pattern of the single-precision number `1.0`.
pub const ONE_BITS: u32 = 0x3F80_0000;
/// Bit pattern of the single-precision number `-0.0`.
pub const NEG_ZERO_BITS: u32 = 0x8000_0000;
/// Bit pattern of positive infinity.
pub const INF_BITS: u32 = 0x7F80_0000;
/// Bit pattern of `-1.0`.
pub const NEG_ONE_BITS: u32 = 0xBF80_0000;

/// `b` is the bit pattern of a NaN.
pub open spec fn f32_is_nan(b: u32) -> bool {
    b % 0x8000_0000 > INF_BITS
}

/// The number with bit pattern `b` compares `>= 1.0`.
pub open spec fn f32_ge_one(b: u32) -> bool {
    ONE_BITS <= b <= INF_BITS
}

/// The number with bit pattern `b` compares `>= 0.0` (`-0.0` included).
pub open spec fn f32_ge_zero(b: u32) -> bool {
    b <= INF_BITS || b == NEG_ZERO_BITS
}

/// The bit patterns of the numbers in `0.0..=1.0` (`-0.0` included, which
/// compares equal to `0.0`).
pub open spec fn unit_bits(b: u32) -> bool {
    b <= ONE_BITS || b == NEG_ZERO_BITS
}

/// Clamping into `0.0..=1.0`: values `>= 1.0` (and `+inf`) become `1.0`,
/// values in range are kept, everything else (negatives, `-inf`, NaN)
/// becomes `0.0`.
pub open spec fn clamp_unit_bits(b: u32) -> u32 {
    if f32_ge_one(b) {
        ONE_BITS
    } else if f32_ge_zero(b) {
        b
    } else {
        0
    }
}

/// The value of a non-negative finite bit pattern, scaled by `2^149` (the
/// reciprocal of the smallest subnormal), so that it is a whole number.
pub open spec fn f32_scaled(b: u32) -> nat {
    let e = (b / 0x80_0000) as nat;
    let m = (b % 0x80_0000) as nat;
    if e == 0 {
        m
    } else {
        (m + 0x80_0000) * pow2((e - 1) as nat)
    }
}

/// A value clamped to `0.0..=1.0`.
///
/// Constructors clamp, so a stored `UnitValue` is always valid; NaN clamps
/// to `0.0`.
#[derive(Clone, Copy, Debug)]
pub struct UnitValue {
    bits: u32,
}

impl UnitValue {
    #[verifier::type_invariant]
    spec fn inv(self) -> bool {
        unit_bits(self.bits)
    }

    /// The bit pattern held.
    pub closed spec fn spec_bits(self) -> u32 {
        self.bits
    }

    /// The value a bit pattern clamps to.
    pub closed spec fn spec_from_bits(bits: u32) -> Self {
        UnitValue { bits: clamp_unit_bits(bits) }
    }

    /// The value a bit pattern clamps to holds the clamped pattern.
    pub proof fn lemma_from_bits(bits: u32)
        ensures
            Self::spec_from_bits(bits).spec_bits() == clamp_unit_bits(bits),
    {
    }

    /// A value is determined by its bit pattern.
    pub proof fn lemma_bits_eq(a: Self, b: Self)
        requires
            a.spec_bits() == b.spec_bits(),
        ensures
            a == b,
    {
    }

    /// Creates a `UnitValue` from a single-precision bit pattern, clamping
    /// the number into `0.0..=1.0` (NaN becomes `0.0`).
    pub fn from_bits(bits: u32) -> (r: Self)
        ensures
            r.spec_bits() == clamp_unit_bits(bits),
            r == Self::spec_from_bits(bits),
    {
        if ONE_BITS <= bits && bits <= INF_BITS {
            UnitValue { bits: ONE_BITS }
        } else if bits <= INF_BITS || bits == NEG_ZERO_BITS {
            UnitValue { bits }
        } else {
            UnitValue { bits: 0 }
        }
    }

    /// The single-precision bit pattern of the value, always in `0.0..=1.0`.
    pub fn to_bits(self) -> (r: u32)
        ensures
            r == self.spec_bits(),
            unit_bits(r),
    {
        proof {
            use_type_invariant(&self);
        }
        self.bits
    }

    /// The minimum value, `0.0`.
    pub fn zero() -> (r: Self)
        ensures
            r.spec_bits() == 0,
    {
        UnitValue { bits: 0 }
    }

    /// The maximum value, `1.0`.
    pub fn one() -> (r: Self)
        ensures
            r.spec_bits() == ONE_BITS,
    {
        UnitValue { bits: ONE_BITS }
    }

    /// The value is `0.0` or `-0.0`.
    pub open spec fn spec_is_zero(self) -> bool {
        self.spec_bits() == 0 || self.spec_bits() == NEG_ZERO_BITS
    }

    /// Equality as numbers: the same bit pattern, or both zeros.
    pub open spec fn spec_num_eq(self, other: Self) -> bool {
        self.spec_bits() == other.spec_bits() || (self.spec_is_zero() && other.spec_is_zero())
    }
}

impl Default for UnitValue {
    /// Defaults to `1.0` (full velocity).
    fn default() -> (r: Self)
        ensures
            r.spec_bits() == ONE_BITS,
    {
        UnitValue::one()
    }
}

impl PartialEq for UnitValue {
    /// Numeric equality: `0.0 == -0.0`, as for the numbers themselves.
    fn eq(&self, other: &Self) -> (r: bool) {
        self.bits == other.bits || ((self.bits == 0 || self.bits == NEG_ZERO_BITS) && (
        other.bits == 0 || other.bits == NEG_ZERO_BITS))
    }
}

impl vstd::std_specs::cmp::PartialEqSpecImpl for UnitValue {
    open spec fn obeys_eq_spec() -> bool {
        true
    }

    open spec fn eq_spec(&self, other: &Self) -> bool {
        self.spec_num_eq(*other)
    }
}

/// The bit pattern with `-0.0` read as `0.0`: for numbers in `0.0..=1.0`
/// it orders them as the numbers are ordered.
pub open spec fn order_key(b: u32) -> u32 {
    if b == NEG_ZERO_BITS {
        0
    } else {
        b
    }
}

impl PartialOrd for UnitValue {
    /// Numeric order (`-0.0` and `0.0` are equal); always comparable.
    fn partial_cmp(&self, other: &Self) -> (r: Option<Ordering>) {
        let a = if self.bits == NEG_ZERO_BITS {
            0
        } else {
            self.bits
        };
        let b = if other.bits == NEG_ZERO_BITS {
            0
        } else {
            other.bits
        };
        if a < b {
            Some(Ordering::Less)
        } else if a == b {
            Some(Ordering::Equal)
        } else {
            Some(Ordering::Greater)
        }
    }
}

impl vstd::std_specs::cmp::PartialOrdSpecImpl for UnitValue {
    open spec fn obeys_partial_cmp_spec() -> bool {
        true
    }

    open spec fn partial_cmp_spec(&self, other: &Self) -> Option<Ordering> {
        let a = order_key(self.spec_bits());
        let b = order_key(other.spec_bits());
        if a < b {
            Some(Ordering::Less)
        } else if a == b {
            Some(Ordering::Equal)
        } else {
            Some(Ordering::Greater)
        }
    }
}

/// A draw `k` in `0..2^24` stands for the number `k / 2^24` in `[0, 1)`;
/// it lies below `p` when `k · 2^125 < p · 2^149`.
pub open spec fn draw_below_spec(k: u32, p: UnitValue) -> bool {
    p.spec_bits() != NEG_ZERO_BITS && (k as nat) * pow2(125)
        < f32_scaled(p.spec_bits())
}

/// Every draw lies below `1.0` and none lies below `0.0` (or `-0.0`): a
/// `Percent(1.0)` trig always passes and a `Percent(0.0)` trig never does.
pub proof fn lemma_draw_extremes(k: u32)
    requires
        k < 0x100_0000,
    ensures
        draw_below_spec(k, UnitValue::spec_from_bits(ONE_BITS)),
        !draw_below_spec(k, UnitValue::spec_from_bits(0)),
        !draw_below_spec(k, UnitValue::spec_from_bits(NEG_ZERO_BITS)),
{
    lemma2_to64();
    lemma_pow2_pos(125);
    lemma_pow2_adds(23, 126);
    lemma_pow2_adds(24, 125);
    assert(f32_scaled(ONE_BITS) == 0x80_0000 * pow2(126));
    assert(pow2(23) == 0x80_0000);
    assert(pow2(24) == 0x100_0000);
    assert((k as nat) * pow2(125) < 0x100_0000 * pow2(125)) by (nonlinear_arith)
        requires
            k < 0x100_0000,
            pow2(125) > 0,
    ;
}

} // verus!

verus! {

/// Whether a PRNG draw `k` (standing for `k / 2^24`) lies strictly below
/// the probability `p` — the test behind a `Percent` trig condition.
pub fn draw_below(k: u32, p: UnitValue) -> (r: bool)
    requires
        k < 0x100_0000,
    ensures
        r == draw_below_spec(k, p),
{
    let b = p.to_bits();
    proof {
        lemma2_to64();
        lemma_pow2_pos(125);
    }
    if b == NEG_ZERO_BITS {
        return false;
    }
    let e = b / 0x80_0000;
    let m = b % 0x80_0000;
    assert(e <= 127);
    if e == 0 {
        proof {
            lemma_pow2_strictly_increases(23, 125);
            if k > 0 {
                assert((k as nat) * pow2(125) >= pow2(125)) by (nonlinear_arith)
                    requires k > 0;
            }
        }
        return k == 0 && m > 0;
    }
    let mant: u64 = (m as u64) + 0x80_0000;
    proof {
        assert(f32_scaled(b) == mant * pow2((e - 1) as nat));
    }
    if e == 127 {
        proof {
            lemma_pow2_adds(1, 125);
            let p125 = pow2(125);
            assert(pow2(126) == 2 * p125);
            assert((k as nat) * p125 < mant * (2 * p125) <==> (k as nat) < 2 * mant) by (nonlinear_arith)
                requires p125 > 0;
        }
        return (k as u64) < 2 * mant;
    }
    let s = 126 - e;
    proof {
        lemma_pow2_adds(s as nat, (e - 1) as nat);
        let ps = pow2(s as nat);
        let pe = pow2((e - 1) as nat);
        lemma_pow2_pos((e - 1) as nat);
        assert(pow2(125) == ps * pe);
        assert((k as nat) * (ps * pe) < mant * pe <==> (k as nat) * ps < mant) by (nonlinear_arith)
            requires pe > 0;
    }
    if s >= 25 {
        proof {
            lemma_pow2_strictly_increases(24, s as nat);
            if k > 0 {
                assert((k as nat) * pow2(s as nat) >= pow2(s as nat)) by (nonlinear_arith)
                    requires k > 0;
            }
        }
        return k == 0;
    }
    let ps: u64 = 1u64 << s;
    proof {
        vstd::bits::lemma_u64_shl_is_mul(1, s as u64);
        if s < 24 {
            lemma_pow2_strictly_increases(s as nat, 24);
        }
        assert(pow2(s as nat) <= 0x100_0000);
        assert((k as nat) * pow2(s as nat) <= 0x100_0000 * 0x100_0000) by (nonlinear_arith)
            requires k < 0x100_0000, pow2(s as nat) <= 0x100_0000;
    }
    (k as u64) * ps < mant
}

} // verus!
