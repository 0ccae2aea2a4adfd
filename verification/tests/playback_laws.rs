//! The playback laws on concrete, busy patterns.

use plock::{
    Condition, LengthError, LockError, Micro, NonZeroU16, Pattern, PatternId, RatioError, Retrig, RetrigLength,
    RetrigRate, Sequencer, Swing, TrackLength, UnitValue, InvalidPatternId,
};

fn unit(v: f32) -> UnitValue {
    UnitValue::from_bits(v.to_bits())
}

struct Lcg(u64);

impl Lcg {
    fn next(&mut self) -> u32 {
        self.0 = self.0.wrapping_mul(6_364_136_223_846_793_005).wrapping_add(1_442_695_040_888_963_407);
        (self.0 >> 32) as u32
    }
}

const RATES: [RetrigRate; 10] = [
    RetrigRate::R4,
    RetrigRate::R6,
    RetrigRate::R8,
    RetrigRate::R12,
    RetrigRate::R16,
    RetrigRate::R24,
    RetrigRate::R32,
    RetrigRate::R48,
    RetrigRate::R64,
    RetrigRate::R96,
];

/// A pattern using every timing feature: lengths, micro-timing, swing,
/// retrigs, conditions and locks.
fn busy_pattern(g: &mut Lcg, with_percent: bool) -> Pattern {
    let mut p = Pattern::default();
    p.set_swing(50 + (g.next() % 31) as u8);
    for t in 0..16 {
        let track = &mut p.tracks[t];
        track.set_length(1 + (g.next() % 40) as u8).unwrap();
        for s in 0..40 {
            if g.next() % 3 == 0 {
                let step = &mut track.steps[s];
                step.trig = true;
                step.set_micro((g.next() % 47) as i8 - 23);
                step.condition = match g.next() % 6 {
                    0 if with_percent => Condition::Percent(unit(0.5)),
                    1 => Condition::Pre,
                    2 => Condition::Nei,
                    3 => Condition::ratio(1, 2).unwrap(),
                    _ => Condition::Always,
                };
                if g.next() % 4 == 0 {
                    let rate = RATES[(g.next() % 10) as usize];
                    let length = if g.next() % 3 == 0 {
                        RetrigLength::Infinite
                    } else {
                        RetrigLength::pulses((g.next() % 100) as u16)
                    };
                    step.retrig = Some(Retrig::new(rate, length, (-0.25f32).to_bits()));
                }
            }
        }
    }
    for k in 0..20 {
        let _ = p.set_lane_lock(k % 16, k * 3, k, unit(0.125));
    }
    p
}

#[test]
fn every_tick_is_ordered_and_inside_the_window() {
    let mut g = Lcg(11);
    for round in 0..20 {
        let mut seq = Sequencer::new(round);
        *seq.current_pattern_mut() = busy_pattern(&mut g, true);
        seq.play();
        for _ in 0..300 {
            let out = seq.tick();
            out.prove_in_range();
            let evs = out.as_slice();
            assert!(evs.len() <= plock::MAX_EVENTS_PER_TICK);
            for e in evs {
                assert!(e.offset < 24 && e.track < 16);
                let v = f32::from_bits(e.velocity.to_bits());
                assert!((0.0..=1.0).contains(&v));
                for l in e.lanes.iter() {
                    assert!((0.0..=1.0).contains(&f32::from_bits(l.to_bits())));
                }
            }
            for w in evs.windows(2) {
                assert!((w[0].offset, w[0].track) <= (w[1].offset, w[1].track));
            }
        }
    }
}

#[test]
fn ticks_never_edit_the_pattern_or_the_fill_flag() {
    let mut g = Lcg(12);
    let mut seq = Sequencer::new(5);
    *seq.current_pattern_mut() = busy_pattern(&mut g, true);
    let before = seq.current_pattern().clone();
    seq.set_fill(true);
    seq.play();
    for _ in 0..200 {
        seq.tick();
    }
    assert_eq!(*seq.current_pattern(), before);
    assert!(seq.fill());
    assert!(seq.is_playing());
}

#[test]
fn playheads_advance_one_step_per_tick() {
    let mut g = Lcg(13);
    let mut seq = Sequencer::new(5);
    *seq.current_pattern_mut() = busy_pattern(&mut g, false);
    seq.play();
    for tick in 0..400 {
        let before = seq.playheads();
        if tick % 37 == 36 {
            // Shorten a track below its playhead: the next tick wraps first.
            let t = (tick / 37) % 16;
            let len = 1 + (g.next() % 8) as u8;
            seq.current_pattern_mut().tracks[t].set_length(len).unwrap();
        }
        let lengths: Vec<u8> = seq.current_pattern().tracks.iter().map(|t| t.length()).collect();
        seq.tick();
        let after = seq.playheads();
        for t in 0..16 {
            let len = lengths[t];
            let w = if before[t] >= len { before[t] % len } else { before[t] };
            let expected = if w + 1 >= len { 0 } else { w + 1 };
            assert_eq!(after[t], expected, "tick {tick} track {t}");
        }
    }
}

#[test]
fn without_percent_trigs_the_prng_is_untouched() {
    let mut g = Lcg(14);
    let quiet = busy_pattern(&mut g, false);
    let mut random = Pattern::default();
    random.tracks[0].set_length(1).unwrap();
    random.tracks[0].steps[0].trig = true;
    random.tracks[0].steps[0].condition = Condition::Percent(unit(0.5));

    // One sequencer plays a pattern without probability trigs first...
    let mut a = Sequencer::new(2024);
    *a.current_pattern_mut() = quiet;
    a.play();
    for _ in 0..500 {
        a.tick();
    }
    *a.current_pattern_mut() = random.clone();
    a.play();
    // ...the other starts with the probability pattern straight away.
    let mut b = Sequencer::new(2024);
    *b.current_pattern_mut() = random;
    b.play();
    for _ in 0..200 {
        assert_eq!(a.tick(), b.tick());
    }
}

#[test]
fn a_stopped_tick_changes_nothing() {
    let mut seq = Sequencer::new(3);
    seq.current_pattern_mut().tracks[0].steps[0].trig = true;
    seq.play();
    seq.tick();
    seq.tick();
    seq.stop();
    let heads = seq.playheads();
    for _ in 0..10 {
        assert!(seq.tick().is_empty());
        assert_eq!(seq.playheads(), heads);
    }
}

#[test]
fn constructors_and_errors() {
    assert_eq!(Condition::ratio(9, 9), Err(RatioError { a: 9, b: 9 }));
    assert_eq!(Condition::ratio(3, 8), Ok(Condition::Ratio { a: 3, b: 8 }));

    let mut seq = Sequencer::new(1);
    let t = &mut seq.current_pattern_mut().tracks[0];
    assert_eq!(t.set_length(0), Err(LengthError { steps: 0 }));
    assert_eq!(t.set_page_count(9), Err(LengthError { steps: 144 }));
    assert_eq!(t.set_page_count(3), Ok(()));
    assert_eq!(t.length(), 48);
    assert_eq!(t.page_count(), 3);

    assert_eq!(seq.queue_pattern(PatternId(3)), Err(InvalidPatternId(PatternId(3))));
    assert_eq!(seq.queue_chain(&[PatternId(0), PatternId(5), PatternId(6)]), Err(InvalidPatternId(PatternId(5))));
    assert_eq!(seq.pattern_count(), 1);

    let p = seq.current_pattern_mut();
    assert_eq!(p.set_velocity_lock(16, 0, unit(0.5)), Err(LockError::OutOfRange));

    assert!(NonZeroU16::new(0).is_none());
    assert_eq!(NonZeroU16::new(9).map(|n| n.get()), Some(9));
    assert_eq!(RetrigLength::pulses(0), RetrigLength::Pulses(NonZeroU16::min_value()));
    assert!(TrackLength::new(0).is_none());
    assert!(TrackLength::new(129).is_none());
    assert_eq!(TrackLength::new(128).map(|l| l.get()), Some(128));
    assert_eq!(Swing::clamped(10).get(), 50);
    assert_eq!(Micro::clamped(23).get(), 23);

    let r = Retrig::new(RetrigRate::R16, RetrigLength::pulses(24), 5.0f32.to_bits());
    assert_eq!(f32::from_bits(r.vel_ramp()), 1.0);
    let r = Retrig::new(RetrigRate::R16, RetrigLength::pulses(24), f32::NAN.to_bits());
    assert_eq!(f32::from_bits(r.vel_ramp()), 0.0);
    let mut r = Retrig::default();
    r.set_vel_ramp((-7.0f32).to_bits());
    assert_eq!(f32::from_bits(r.vel_ramp()), -1.0);
    assert_eq!(r.rate, RetrigRate::R16);
}

#[test]
fn swing_delay_table() {
    let mut p = Pattern::default();
    for (percent, delay) in [(50u8, 0i16), (66, 8), (75, 12), (80, 14)] {
        p.set_swing(percent);
        assert_eq!(p.swing_delay(), delay);
    }
}

#[test]
fn master_length_and_change_length() {
    let mut p = Pattern::default();
    assert_eq!(p.master_length(), 16);
    p.tracks[9].set_length(100).unwrap();
    assert_eq!(p.master_length(), 100);
    assert_eq!(p.effective_change_length(), 100);
    p.change_length = NonZeroU16::new(7);
    assert_eq!(p.effective_change_length(), 7);
}

#[test]
fn resolve_step_reports_locks_and_defaults() {
    let mut p = Pattern::default();
    p.tracks[2].defaults.lanes[5] = unit(0.25);
    p.set_lane_lock(2, 3, 6, unit(0.5)).unwrap();
    p.set_velocity_lock(2, 3, unit(0.75)).unwrap();
    let r = p.resolve_step(2, 3).unwrap();
    assert_eq!(r.velocity, unit(0.75));
    assert!(r.velocity_locked);
    assert_eq!(r.lanes[5], unit(0.25));
    assert_eq!(r.lanes[6], unit(0.5));
    assert_eq!(r.locked, 1 << 6);
    let r = p.resolve_step(2, 4).unwrap();
    assert_eq!(r.velocity, UnitValue::one());
    assert!(!r.velocity_locked);
    assert_eq!(r.locked, 0);
}

#[test]
fn an_overfull_window_keeps_the_first_events_up_to_capacity() {
    // Per track, window 1 holds six hits of a running 1/96 train (pulses
    // 0..=20), a late trig at pulse 23, and the next step pulled early to
    // pulse 5 that starts a new 1/96 train (pulses 9, 13, 17, 21): twelve
    // events per track, 192 in all, above the capacity of 160.
    let mut seq = Sequencer::new(1);
    for track in seq.current_pattern_mut().tracks.iter_mut() {
        track.set_length(128).unwrap();
        track.steps[0].trig = true;
        track.steps[0].retrig = Some(Retrig::new(RetrigRate::R96, RetrigLength::Infinite, 0));
        track.steps[1].trig = true;
        track.steps[1].set_micro(23);
        track.steps[2].trig = true;
        track.steps[2].set_micro(-19);
        track.steps[2].retrig = Some(Retrig::new(RetrigRate::R96, RetrigLength::Infinite, 0));
    }
    seq.prove_valid();
    seq.play();
    assert_eq!(seq.tick().len(), 96);
    let out = seq.tick();
    assert_eq!(out.len(), plock::MAX_EVENTS_PER_TICK);
    let evs = out.as_slice();
    for w in evs.windows(2) {
        assert!((w[0].offset, w[0].track) <= (w[1].offset, w[1].track));
    }
    // Tracks are processed in order, so the dropped events are the last
    // tracks' ones: tracks 0..13 keep all twelve.
    assert_eq!(evs.iter().filter(|e| e.track == 0).count(), 12);
    assert_eq!(evs.iter().filter(|e| e.track == 15).count(), 0);
}

#[test]
fn clear_all_locks_empties_the_pool() {
    let mut p = Pattern::default();
    p.set_lane_lock(1, 1, 1, unit(0.5)).unwrap();
    p.set_velocity_lock(2, 2, unit(0.5)).unwrap();
    assert_eq!(p.lock_count(), 2);
    p.clear_all_locks();
    assert_eq!(p.lock_count(), 0);
    assert_eq!(p.lane_lock(1, 1, 1), None);
    assert_eq!(p.velocity_lock(2, 2), None);
}
