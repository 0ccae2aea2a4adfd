//! The integer and bit-level arithmetic that stands in for floating point
//! (the retrig velocity ramp, the probability comparison) and the PRNG,
//! checked against native single-precision arithmetic and a direct PCG32.

use plock::{draw_below, ramp_velocity, Pcg32, UnitValue, VelRamp};

fn unit(v: f32) -> UnitValue {
    UnitValue::from_bits(v.to_bits())
}

/// A small deterministic generator for test inputs.
struct Lcg(u64);

impl Lcg {
    fn next(&mut self) -> u32 {
        self.0 = self.0.wrapping_mul(6_364_136_223_846_793_005).wrapping_add(1_442_695_040_888_963_407);
        (self.0 >> 32) as u32
    }
}

/// The ramp computed natively: `clamp(v0 + ramp * k / (n - 1), 0, 1)`.
fn native_ramp(v0: f32, ramp: f32, k: u16, n: u16) -> f32 {
    (v0 + ramp * f32::from(k) / f32::from(n - 1)).clamp(0.0, 1.0)
}

fn check(v0: f32, ramp: f32, k: u16, n: u16) {
    let got = ramp_velocity(unit(v0), VelRamp::from_bits(ramp.to_bits()), k, n).to_bits();
    let want = native_ramp(f32::from_bits(unit(v0).to_bits()), f32::from_bits(VelRamp::from_bits(ramp.to_bits()).to_bits()), k, n)
        .to_bits();
    assert_eq!(got, want, "v0 {v0:e} ramp {ramp:e} k {k} n {n}");
}

#[test]
fn ramp_matches_native_arithmetic_on_a_grid() {
    for vi in 0..=32 {
        let v0 = vi as f32 / 32.0;
        for ri in -16..=16 {
            let ramp = ri as f32 / 16.0;
            for n in [2u16, 3, 5, 7, 13, 25, 100, 16384] {
                for k in [0u16, 1, 2, n / 2, n - 1, n] {
                    check(v0, ramp, k, n);
                }
            }
        }
    }
}

#[test]
fn ramp_matches_native_arithmetic_on_random_values() {
    let mut g = Lcg(0x5EED);
    for _ in 0..200_000 {
        let v0 = f32::from_bits(g.next() % 0x3F80_0001);
        let mag = f32::from_bits(g.next() % 0x3F80_0001);
        let ramp = if g.next() % 2 == 0 { mag } else { -mag };
        let n = (g.next() % 16384) as u16 + 2;
        let k = (g.next() % u32::from(n + 1)) as u16;
        check(v0, ramp, k, n);
    }
}

#[test]
fn ramp_handles_signed_zeros_and_tiny_values() {
    for v0 in [0.0f32, -0.0, f32::MIN_POSITIVE, 1e-40, 1.0, 0.99999994] {
        for ramp in [0.0f32, -0.0, 1e-45, -1e-45, 1e-38, -1e-38, 1.0, -1.0, 0.1, -0.1] {
            for (k, n) in [(0u16, 2u16), (1, 2), (1, 3), (2, 3), (7, 9), (3, 16384)] {
                check(v0, ramp, k, n);
            }
        }
    }
}

#[test]
fn draw_below_matches_native_comparison() {
    let mut g = Lcg(0xD1CE);
    let probs: Vec<f32> = vec![0.0, -0.0, 1e-45, 1e-10, 0.25, 0.5, 0.7, 0.9999999, 1.0];
    for _ in 0..20_000 {
        let k = g.next() >> 8;
        let p = if g.next() % 4 == 0 {
            probs[(g.next() as usize) % probs.len()]
        } else {
            f32::from_bits(g.next() % 0x3F80_0001)
        };
        let u = unit(p);
        let native = (k as f32) * (1.0 / 16_777_216.0) < f32::from_bits(u.to_bits());
        assert_eq!(draw_below(k, u), native, "k {k} p {p:e}");
    }
    for k in [0u32, 1, 1 << 23, (1 << 24) - 1] {
        for &p in &probs {
            let u = unit(p);
            let native = (k as f32) * (1.0 / 16_777_216.0) < f32::from_bits(u.to_bits());
            assert_eq!(draw_below(k, u), native, "k {k} p {p:e}");
        }
    }
}

/// PCG32 (XSH-RR) written out directly.
fn reference_pcg(seed: u64, n: usize) -> Vec<u32> {
    const MULT: u64 = 6_364_136_223_846_793_005;
    const INC: u64 = 0xda3e_39cb_94b9_5bdb | 1;
    let step = |s: u64| s.wrapping_mul(MULT).wrapping_add(INC);
    let out = |old: u64| (((old >> 18) ^ old) >> 27) as u32;
    let mut state = step(0).wrapping_add(seed);
    state = step(state);
    (0..n)
        .map(|_| {
            let old = state;
            state = step(state);
            out(old).rotate_right((old >> 59) as u32)
        })
        .collect()
}

#[test]
fn pcg_matches_the_reference_generator() {
    for seed in [0u64, 1, 7, 42, 0xDEAD_BEEF, u64::MAX] {
        let mut r = Pcg32::new(seed);
        let got: Vec<u32> = (0..256).map(|_| r.next_u32()).collect();
        assert_eq!(got, reference_pcg(seed, 256), "seed {seed}");
    }
}

#[test]
fn draws_are_the_top_24_bits_of_the_output() {
    let mut a = Pcg32::new(99);
    let mut b = Pcg32::new(99);
    for _ in 0..100 {
        assert_eq!(a.next_draw(), b.next_u32() >> 8);
    }
}
