//! Long pseudo-random sequences of public calls: nothing panics, every
//! emitted value stays in the unit interval and inside the window, and the
//! lock pool never exceeds its capacity.

use plock::{
    Condition, Pattern, PatternId, Retrig, RetrigLength, RetrigRate, Sequencer, UnitValue, MAX_LOCK_LANES,
    NUM_PARAM_LANES, NUM_TRACKS,
};

struct Lcg(u64);

impl Lcg {
    fn next(&mut self) -> u32 {
        self.0 = self.0.wrapping_mul(6_364_136_223_846_793_005).wrapping_add(1_442_695_040_888_963_407);
        (self.0 >> 32) as u32
    }

    fn float(&mut self, lo: f32, hi: f32) -> f32 {
        lo + (hi - lo) * (self.next() as f32 / u32::MAX as f32)
    }
}

fn unit(v: f32) -> UnitValue {
    UnitValue::from_bits(v.to_bits())
}

fn val(u: UnitValue) -> f32 {
    f32::from_bits(u.to_bits())
}

const RATES: [RetrigRate; 10] = [
    RetrigRate::R4,
    RetrigRate::R6,
    RetrigRate::R8,
    RetrigRate::R12,
    RetrigRate::R16,
    RetrigRate::R24,
    RetrigRate::R32,
    RetrigRate::R48,
    RetrigRate::R64,
    RetrigRate::R96,
];

fn rate(pick: u32) -> RetrigRate {
    RATES[(pick % 10) as usize]
}

fn condition(pick: u32, a: u8, b: u8, p: f32) -> Condition {
    match pick % 12 {
        0 => Condition::Always,
        1 => Condition::Percent(unit(p)),
        2 => Condition::Fill,
        3 => Condition::NotFill,
        4 => Condition::Pre,
        5 => Condition::NotPre,
        6 => Condition::Nei,
        7 => Condition::NotNei,
        8 => Condition::First,
        9 => Condition::NotFirst,
        _ => Condition::Ratio { a, b },
    }
}

#[test]
fn arbitrary_api_sequences_never_panic_or_escape_the_unit_interval() {
    for case in 0..64u64 {
        let mut g = Lcg(case * 7919 + 1);
        let mut seq = Sequencer::new(0xF422);
        let n_ops = 1 + g.next() % 120;
        for _ in 0..n_ops {
            let track = (g.next() % 16) as usize;
            let step = (g.next() % 128) as usize;
            match g.next() % 19 {
                0 => seq.play(),
                1 => seq.stop(),
                2 => seq.reset(),
                3 => seq.set_fill(g.next() % 2 == 0),
                4 => seq.seed(u64::from(g.next())),
                5 => seq.current_pattern_mut().set_swing(g.next() as u8),
                6 | 7 | 8 => {
                    for _ in 0..(1 + g.next() % 31) {
                        for ev in &seq.tick() {
                            assert!((0.0..=1.0).contains(&val(ev.velocity)));
                            assert!(ev.lanes.iter().all(|&l| (0.0..=1.0).contains(&val(l))));
                            assert!(ev.offset < 24);
                            assert!(usize::from(ev.track) < NUM_TRACKS);
                        }
                    }
                },
                9 => seq.current_pattern_mut().tracks[track].steps[step].trig = g.next() % 2 == 0,
                10 => {
                    let _ = seq.current_pattern_mut().tracks[track].set_length(g.next() as u8);
                },
                11 => seq.current_pattern_mut().tracks[track].steps[step].set_micro(g.next() as i8),
                12 => {
                    let v = g.float(-10.0, 10.0);
                    let _ = seq.current_pattern_mut().set_velocity_lock(track, step, unit(v));
                },
                13 => {
                    let lane = (g.next() % (NUM_PARAM_LANES as u32 + 4)) as usize;
                    let v = g.float(-10.0, 10.0);
                    let _ = seq.current_pattern_mut().set_lane_lock(track, step, lane, unit(v));
                },
                14 => {
                    let lane = (g.next() % 64) as usize;
                    seq.current_pattern_mut().clear_lane_lock(track, step, lane);
                },
                15 => {
                    let (pick, a, b) = (g.next(), g.next() as u8, g.next() as u8);
                    let p = g.float(-1.0, 2.0);
                    seq.current_pattern_mut().tracks[track].steps[step].condition = condition(pick, a, b, p);
                },
                16 => {
                    let r = rate(g.next());
                    let len = (g.next() % 512) as u16;
                    let ramp = g.float(-3.0, 3.0);
                    seq.current_pattern_mut().tracks[track].steps[step].retrig =
                        Some(Retrig::new(r, RetrigLength::pulses(len), ramp.to_bits()));
                },
                17 => {
                    let _ = seq.current_pattern().tracks[0].page((g.next() % 12) as usize);
                    let _ = seq.add_pattern(Pattern::default());
                },
                _ => {
                    if g.next() % 2 == 0 {
                        let _ = seq.queue_pattern(PatternId(g.next() as u8));
                    } else {
                        seq.clear_queue();
                    }
                },
            }
            assert!(seq.current_pattern().lock_count() <= MAX_LOCK_LANES);
        }
    }
}
