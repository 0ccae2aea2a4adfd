//! Retrig velocity ramps in single-precision arithmetic, on bit patterns.
//!
//! Hit `k` of an `n`-hit train plays at `clamp(v0 + ramp * k / (n − 1), 0, 1)`
//! where every operation is a single-precision operation rounding to
//! nearest, ties to even. The operands are narrow (`v0` in `0..=1`, `ramp`
//! in `-1..=1`, `k` and `n` small whole numbers), so the three operations
//! are written out here for those ranges: each decodes its operands into a
//! whole significand and a power-of-two exponent, computes the exact result
//! (or an exact quotient with a sticky remainder bit), and rounds once.

use vstd::prelude::*;
use vstd::arithmetic::power2::{pow2, lemma_pow2_pos, lemma_pow2_adds, lemma_pow2_strictly_increases, lemma2_to64};
use crate::unit::{clamp_unit_bits, UnitValue, NEG_ZERO_BITS};
use crate::retrig::{ramp_bits, VelRamp};

verus! {

/// The bit pattern is negative (sign bit set).
pub open spec fn f_sign(b: u32) -> bool {
    b >= 0x8000_0000
}

/// The biased exponent field of a bit pattern.
pub open spec fn f_exp_field(b: u32) -> int {
    ((b % 0x8000_0000) / 0x80_0000) as int
}

/// The whole significand of a finite bit pattern (hidden bit included).
pub open spec fn f_mant(b: u32) -> nat {
    if f_exp_field(b) == 0 {
        (b % 0x80_0000) as nat
    } else {
        (b % 0x80_0000 + 0x80_0000) as nat
    }
}

/// The power-of-two exponent of a finite bit pattern: its magnitude is
/// `f_mant(b) · 2^f_exp(b)`.
pub open spec fn f_exp(b: u32) -> int {
    if f_exp_field(b) == 0 {
        -149
    } else {
        f_exp_field(b) - 150
    }
}

/// Number of binary digits of `x` (`0` for `0`).
pub open spec fn bitlen(x: nat) -> nat
    decreases x,
{
    if x == 0 {
        0
    } else {
        1 + bitlen(x / 2)
    }
}

/// `2^e` for a signed exponent known to be non-negative.
pub open spec fn p2(e: int) -> nat {
    pow2(e as nat)
}

/// The bit pattern of `±(mant + tail) · 2^exp` rounded to nearest, ties to
/// even, where `tail` is zero when `!sticky` and strictly between 0 and 1
/// otherwise; overflow gives infinity, and a zero `mant` a zero of the
/// given sign.
pub open spec fn round_pack(sign: bool, mant: nat, exp: int, sticky: bool) -> u32 {
    let sbit: int = if sign {
        0x8000_0000
    } else {
        0
    };
    if mant == 0 {
        sbit as u32
    } else {
        let l = bitlen(mant) as int;
        let e0 = exp + l - 24;
        let e = if e0 < -149 {
            -149
        } else {
            e0
        };
        let sh = e - exp;
        let sig_e: (int, int) = if sh <= 0 {
            ((mant * p2(-sh)) as int, e)
        } else {
            let p = p2(sh);
            let q = mant / p;
            let rem = mant % p;
            let half = p / 2;
            let up = rem > half || (rem == half && (sticky || q % 2 == 1));
            let s1 = q + if up {
                1int
            } else {
                0int
            };
            if s1 == 0x100_0000 {
                (0x80_0000int, e + 1)
            } else {
                (s1, e)
            }
        };
        if sig_e.1 + 150 >= 255 {
            (sbit + 0x7F80_0000) as u32
        } else {
            (sbit + (sig_e.1 + 149) * 0x80_0000 + sig_e.0) as u32
        }
    }
}

/// Single-precision `x * k` for a whole number `k` (exactly representable).
pub open spec fn fmul_int(x: u32, k: u16) -> u32 {
    round_pack(f_sign(x), f_mant(x) * (k as nat), f_exp(x), false)
}

/// Single-precision `y / d` for a whole number `d >= 1`.
pub open spec fn fdiv_int(y: u32, d: u16) -> u32 {
    let num = f_mant(y) * p2(40);
    round_pack(f_sign(y), num / (d as nat), f_exp(y) - 40, num % (d as nat) != 0)
}

/// Single-precision `a + b` for finite operands.
pub open spec fn fadd(a: u32, b: u32) -> u32 {
    if f_mant(b) == 0 {
        if f_mant(a) == 0 {
            if f_sign(a) && f_sign(b) {
                NEG_ZERO_BITS
            } else {
                0
            }
        } else {
            a
        }
    } else if f_mant(a) == 0 {
        b
    } else {
        let ea = f_exp(a);
        let eb = f_exp(b);
        let lo = if ea < eb {
            ea
        } else {
            eb
        };
        let hi = if ea < eb {
            eb
        } else {
            ea
        };
        if hi - lo > 60 {
            if ea > eb {
                a
            } else {
                b
            }
        } else {
            let ma: int = (f_mant(a) * p2(ea - lo)) as int;
            let mb: int = (f_mant(b) * p2(eb - lo)) as int;
            let s = (if f_sign(a) {
                -ma
            } else {
                ma
            }) + (if f_sign(b) {
                -mb
            } else {
                mb
            });
            if s == 0 {
                0
            } else if s < 0 {
                round_pack(true, (-s) as nat, lo, false)
            } else {
                round_pack(false, s as nat, lo, false)
            }
        }
    }
}

/// The velocity of hit `k` of an `n`-hit train (`n >= 2`) starting at `v0`
/// with ramp `ramp`: `clamp(v0 + ramp * k / (n - 1), 0, 1)`.
pub open spec fn ramp_velocity_bits(v0: u32, ramp: u32, k: u16, n: u16) -> u32 {
    clamp_unit_bits(fadd(v0, fdiv_int(fmul_int(ramp, k), (n - 1) as u16)))
}


/// `2^127`, the bound of the shifts used below.
proof fn lemma_pow2_127()
    ensures
        pow2(127) == 0x8000_0000_0000_0000_0000_0000_0000_0000,
{
    lemma2_to64();
    vstd::arithmetic::power2::lemma2_to64_rest();
    lemma_pow2_adds(64, 63);
}

/// `bitlen` brackets its argument between powers of two.
proof fn lemma_bitlen(x: nat)
    requires
        x > 0,
    ensures
        bitlen(x) >= 1,
        pow2((bitlen(x) - 1) as nat) <= x < pow2(bitlen(x)),
    decreases x,
{
    lemma2_to64();
    if x / 2 == 0 {
        assert(bitlen(x / 2) == 0);
        assert(x == 1);
    } else {
        lemma_bitlen(x / 2);
        let b = bitlen(x / 2);
        lemma_pow2_adds((b - 1) as nat, 1);
        lemma_pow2_adds(b, 1);
    }
}

/// `x < 2^m` bounds `bitlen(x)` by `m`.
proof fn lemma_bitlen_le(x: nat, m: nat)
    requires
        x < pow2(m),
    ensures
        bitlen(x) <= m,
{
    if x > 0 {
        lemma_bitlen(x);
        if bitlen(x) > m {
            vstd::arithmetic::power2::lemma_pow2_strictly_increases(m, (bitlen(x) - 1) as nat);
            if bitlen(x) - 1 == m {
            }
        }
    }
}

/// `2^e` as a 128-bit number.
fn pow2_u128(e: u32) -> (r: u128)
    requires
        e < 127,
    ensures
        r == pow2(e as nat),
{
    proof {
        lemma2_to64();
        lemma_pow2_127();
    }
    let mut r: u128 = 1;
    let mut i: u32 = 0;
    while i < e
        invariant
            0 <= i <= e < 127,
            r == pow2(i as nat),
            pow2(127) == 0x8000_0000_0000_0000_0000_0000_0000_0000,
        decreases e - i,
    {
        proof {
            lemma_pow2_strictly_increases(i as nat, 127);
            vstd::arithmetic::power2::lemma_pow2_unfold((i + 1) as nat);
        }
        r = r * 2;
        i = i + 1;
    }
    r
}

/// Number of binary digits of a 128-bit number.
fn bitlen_u128(x: u128) -> (r: u32)
    ensures
        r == bitlen(x as nat),
        r <= 128,
{
    proof {
        lemma2_to64();
        lemma_pow2_adds(64, 64);
        assert(pow2(128) == 0x1_0000_0000_0000_0000 * 0x1_0000_0000_0000_0000int);
        lemma_bitlen_le(x as nat, 128);
    }
    let mut y = x;
    let mut n: u32 = 0;
    while y > 0
        invariant
            n + bitlen(y as nat) == bitlen(x as nat),
            bitlen(x as nat) <= 128,
        decreases y,
    {
        y = y / 2;
        n = n + 1;
    }
    n
}

/// Rounds `±(mant + tail) · 2^exp` to single precision (see `round_pack`).
fn round_pack_exec(sign: bool, mant: u128, exp: i32, sticky: bool) -> (r: u32)
    requires
        (mant as nat) < pow2(90),
        -200 <= exp <= 105,
    ensures
        r == round_pack(sign, mant as nat, exp as int, sticky),
{
    let sbit: u32 = if sign {
        0x8000_0000
    } else {
        0
    };
    if mant == 0 {
        return sbit;
    }
    let l = bitlen_u128(mant) as i32;
    proof {
        lemma_bitlen_le(mant as nat, 90);
        lemma_bitlen(mant as nat);
        lemma2_to64();
    }
    let e0 = exp + l - 24;
    let e = if e0 < -149 {
        -149
    } else {
        e0
    };
    let sh = e - exp;
    let ghost gl = l as int;
    let mut sig: u128;
    let mut e1: i32;
    if sh <= 0 {
        let k = (-sh) as u32;
        proof {
            assert(gl < 24 || e == e0);
            assert(k <= 23);
            lemma_pow2_adds(k as nat, gl as nat);
            lemma_pow2_strictly_increases((k + gl) as nat, 25);
            if k + gl == 24 {
            }
            assert((mant as nat) * pow2(k as nat) < pow2(gl as nat) * pow2(k as nat)) by (nonlinear_arith)
                requires (mant as nat) < pow2(gl as nat), pow2(k as nat) > 0;
            lemma_pow2_pos(k as nat);
            if k + gl < 24 {
                lemma_pow2_strictly_increases((k + gl) as nat, 24);
            }
        }
        let pk = pow2_u128(k);
        sig = mant * pk;
        e1 = e;
        assert(sig < 0x100_0000);
    } else {
        proof {
            assert(sh <= 66 || e == -149);
            assert(sh <= 126);
        }
        let p = pow2_u128(sh as u32);
        proof {
            lemma_pow2_pos(sh as nat);
        }
        let q = mant / p;
        let rem = mant % p;
        let half = p / 2;
        let up = rem > half || (rem == half && (sticky || q % 2 == 1));
        proof {
            // q has at most 24 binary digits.
            let d = gl - sh;
            if d <= 24 {
                if d > 0 {
                    lemma_pow2_adds(d as nat, sh as nat);
                    assert(pow2(gl as nat) == pow2(d as nat) * pow2(sh as nat));
                    assert((mant as nat) / pow2(sh as nat) < pow2(d as nat)) by (nonlinear_arith)
                        requires (mant as nat) < pow2(d as nat) * pow2(sh as nat), pow2(sh as nat) > 0;
                    if d < 24 {
                        lemma_pow2_strictly_increases(d as nat, 24);
                    }
                } else {
                    if gl < sh {
                        lemma_pow2_strictly_increases(gl as nat, sh as nat);
                    }
                    assert((mant as nat) / pow2(sh as nat) <= 1) by (nonlinear_arith)
                        requires (mant as nat) < pow2(sh as nat) || (mant as nat) < 2 * pow2(sh as nat), pow2(sh as nat) > 0;
                }
            }
            assert(d <= 24);
        }
        assert(q < 0x100_0000);
        let s1 = if up {
            q + 1
        } else {
            q
        };
        if s1 == 0x100_0000 {
            sig = 0x80_0000;
            e1 = e + 1;
        } else {
            sig = s1;
            e1 = e;
        }
    }
    if e1 + 150 >= 255 {
        sbit + 0x7F80_0000
    } else {
        assert(e1 >= -149);
        sbit + ((e1 + 149) as u32) * 0x80_0000 + (sig as u32)
    }
}

/// Sign, whole significand and exponent of a bit pattern.
fn decode(b: u32) -> (r: (bool, u32, i32))
    ensures
        r.0 == f_sign(b),
        r.1 == f_mant(b),
        r.2 == f_exp(b),
        r.1 < 0x100_0000,
        -149 <= r.2 <= 105,
{
    let ef = (b % 0x8000_0000) / 0x80_0000;
    let m = b % 0x80_0000;
    if ef == 0 {
        (b >= 0x8000_0000, m, -149)
    } else {
        (b >= 0x8000_0000, m + 0x80_0000, ef as i32 - 150)
    }
}

/// Single-precision `x * k` for a whole number `k`.
fn fmul_int_exec(x: u32, k: u16) -> (r: u32)
    ensures
        r == fmul_int(x, k),
{
    let (sign, mant, exp) = decode(x);
    proof {
        lemma2_to64();
        lemma_pow2_strictly_increases(40, 90);
        assert((mant as nat) * (k as nat) < 0x100_0000 * 0x1_0000) by (nonlinear_arith)
            requires mant < 0x100_0000, k <= 0xFFFF;
        vstd::arithmetic::power2::lemma2_to64_rest();
    }
    round_pack_exec(sign, (mant as u128) * (k as u128), exp, false)
}

/// Single-precision `y / d` for a whole number `d >= 1`.
fn fdiv_int_exec(y: u32, d: u16) -> (r: u32)
    requires
        d >= 1,
    ensures
        r == fdiv_int(y, d),
{
    let (sign, mant, exp) = decode(y);
    proof {
        lemma2_to64();
        vstd::arithmetic::power2::lemma2_to64_rest();
        lemma_pow2_strictly_increases(64, 90);
    }
    let num: u128 = (mant as u128) * 0x100_0000_0000;
    let q = num / (d as u128);
    let rem = num % (d as u128);
    proof {
        assert(num < 0x1_0000_0000_0000_0000);
        assert(q <= num) by (nonlinear_arith)
            requires q == num / (d as u128), d >= 1;
    }
    round_pack_exec(sign, q, exp - 40, rem != 0)
}

/// Single-precision `a + b`.
fn fadd_exec(a: u32, b: u32) -> (r: u32)
    ensures
        r == fadd(a, b),
{
    let (sa, ma, ea) = decode(a);
    let (sb, mb, eb) = decode(b);
    if mb == 0 {
        if ma == 0 {
            if sa && sb {
                return NEG_ZERO_BITS;
            } else {
                return 0;
            }
        } else {
            return a;
        }
    } else if ma == 0 {
        return b;
    }
    let lo = if ea < eb {
        ea
    } else {
        eb
    };
    let hi = if ea < eb {
        eb
    } else {
        ea
    };
    if hi - lo > 60 {
        if ea > eb {
            return a;
        } else {
            return b;
        }
    }
    let pa = pow2_u128((ea - lo) as u32);
    let pb = pow2_u128((eb - lo) as u32);
    proof {
        lemma2_to64();
        vstd::arithmetic::power2::lemma2_to64_rest();
        lemma_pow2_adds(24, 60);
        if ea - lo < 60 {
            lemma_pow2_strictly_increases((ea - lo) as nat, 60);
        }
        if eb - lo < 60 {
            lemma_pow2_strictly_increases((eb - lo) as nat, 60);
        }
        assert(pow2(60) == 0x1000_0000_0000_0000);
        assert((ma as nat) * pow2((ea - lo) as nat) < 0x100_0000 * 0x1000_0000_0000_0000) by (nonlinear_arith)
            requires ma < 0x100_0000, pow2((ea - lo) as nat) <= 0x1000_0000_0000_0000;
        assert((mb as nat) * pow2((eb - lo) as nat) < 0x100_0000 * 0x1000_0000_0000_0000) by (nonlinear_arith)
            requires mb < 0x100_0000, pow2((eb - lo) as nat) <= 0x1000_0000_0000_0000;
        lemma_pow2_adds(84, 6);
        lemma_pow2_adds(24, 60);
    }
    let xa: i128 = ((ma as u128) * pa) as i128;
    let xb: i128 = ((mb as u128) * pb) as i128;
    let s = (if sa {
        -xa
    } else {
        xa
    }) + (if sb {
        -xb
    } else {
        xb
    });
    if s == 0 {
        0
    } else if s < 0 {
        round_pack_exec(true, (-s) as u128, lo, false)
    } else {
        round_pack_exec(false, s as u128, lo, false)
    }
}

/// The velocity of hit `k` of an `n`-hit train (`n >= 2`) that starts at
/// `v0` and ramps by `ramp` over the train:
/// `clamp(v0 + ramp * k / (n - 1), 0, 1)` in single precision.
pub fn ramp_velocity(v0: UnitValue, ramp: VelRamp, k: u16, n: u16) -> (r: UnitValue)
    requires
        n >= 2,
    ensures
        r.spec_bits() == ramp_velocity_bits(v0.spec_bits(), ramp.spec_bits(), k, n),
        r == UnitValue::spec_from_bits(fadd(v0.spec_bits(), fdiv_int(fmul_int(ramp.spec_bits(), k), (n - 1) as u16))),
{
    let t = fmul_int_exec(ramp.to_bits(), k);
    let u = fdiv_int_exec(t, n - 1);
    let w = fadd_exec(v0.to_bits(), u);
    UnitValue::from_bits(w)
}
} // verus!
