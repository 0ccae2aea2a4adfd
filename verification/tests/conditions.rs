//! Trig condition behaviour.

use plock::{Condition, Sequencer, TickOutput, UnitValue, NUM_TRACKS};

fn unit(v: f32) -> UnitValue {
    UnitValue::from_bits(v.to_bits())
}

fn val(u: UnitValue) -> f32 {
    f32::from_bits(u.to_bits())
}

fn fired(out: &TickOutput) -> [Option<f32>; NUM_TRACKS] {
    let mut v = [None; NUM_TRACKS];
    for ev in out {
        v[ev.track as usize] = Some(val(ev.velocity));
    }
    v
}

#[test]
fn percent_one_always_fires() {
    let mut seq = Sequencer::new(1);
    let track = &mut seq.current_pattern_mut().tracks[0];
    track.set_length(1).unwrap();
    track.steps[0].trig = true;
    track.steps[0].condition = Condition::Percent(UnitValue::one());

    seq.play();
    for _ in 0..100 {
        assert!(fired(&seq.tick())[0].is_some());
    }
}

#[test]
fn percent_zero_never_fires() {
    let mut seq = Sequencer::new(1);
    let track = &mut seq.current_pattern_mut().tracks[0];
    track.set_length(1).unwrap();
    track.steps[0].trig = true;
    track.steps[0].condition = Condition::Percent(UnitValue::zero());

    seq.play();
    for _ in 0..100 {
        assert!(fired(&seq.tick())[0].is_none());
    }
}

#[test]
fn percent_half_fires_about_half_the_time() {
    let mut seq = Sequencer::new(0xFEED);
    let track = &mut seq.current_pattern_mut().tracks[0];
    track.set_length(1).unwrap();
    track.steps[0].trig = true;
    track.steps[0].condition = Condition::Percent(unit(0.5));

    seq.play();
    let fires = (0..10_000).filter(|_| fired(&seq.tick())[0].is_some()).count();
    assert!((4500..=5500).contains(&fires), "fired {fires}/10000");
}

#[test]
fn fill_fires_only_while_flag_set() {
    let mut seq = Sequencer::new(1);
    let track = &mut seq.current_pattern_mut().tracks[0];
    track.set_length(2).unwrap();
    track.steps[0].trig = true;
    track.steps[0].condition = Condition::Fill;
    track.steps[1].trig = true;
    track.steps[1].condition = Condition::NotFill;

    seq.play();
    assert!(fired(&seq.tick())[0].is_none());
    assert!(fired(&seq.tick())[0].is_some());

    seq.set_fill(true);
    assert!(fired(&seq.tick())[0].is_some());
    assert!(fired(&seq.tick())[0].is_none());
    seq.set_fill(false);
    assert!(fired(&seq.tick())[0].is_none());
}

#[test]
fn pre_mirrors_the_previous_conditional_on_the_same_track() {
    let mut seq = Sequencer::new(0xABCD);
    let track = &mut seq.current_pattern_mut().tracks[0];
    track.set_length(4).unwrap();
    track.steps[0].trig = true;
    track.steps[0].condition = Condition::Percent(unit(0.5));
    track.steps[1].trig = true;
    track.steps[2].trig = true;
    track.steps[2].condition = Condition::Pre;
    track.steps[3].trig = true;
    track.steps[3].condition = Condition::NotPre;

    seq.play();
    let mut saw_both = (false, false);
    for _ in 0..64 {
        let upstream = fired(&seq.tick())[0].is_some();
        assert!(fired(&seq.tick())[0].is_some());
        assert_eq!(fired(&seq.tick())[0].is_some(), upstream);
        assert_eq!(fired(&seq.tick())[0].is_some(), !upstream);
        if upstream {
            saw_both.0 = true;
        } else {
            saw_both.1 = true;
        }
    }
    assert!(saw_both.0 && saw_both.1, "seed must exercise both outcomes");
}

#[test]
fn nei_mirrors_the_neighbor_track() {
    let mut seq = Sequencer::new(0x5150);
    {
        let pattern = seq.current_pattern_mut();
        for t in 0..3 {
            pattern.tracks[t].set_length(1).unwrap();
            pattern.tracks[t].steps[0].trig = true;
        }
        pattern.tracks[0].steps[0].condition = Condition::Percent(unit(0.5));
        pattern.tracks[1].steps[0].condition = Condition::Nei;
        pattern.tracks[2].steps[0].condition = Condition::NotNei;
    }

    seq.play();
    for _ in 0..64 {
        let f = fired(&seq.tick());
        assert_eq!(f[1].is_some(), f[0].is_some());
        assert!(f[2].is_some());
    }
}

#[test]
fn nei_is_transparent_to_state() {
    let mut seq = Sequencer::new(0x5150);
    {
        let pattern = seq.current_pattern_mut();
        for t in 0..3 {
            pattern.tracks[t].set_length(1).unwrap();
            pattern.tracks[t].steps[0].trig = true;
        }
        pattern.tracks[0].steps[0].condition = Condition::Percent(UnitValue::one());
        pattern.tracks[1].steps[0].condition = Condition::Nei;
        pattern.tracks[2].steps[0].condition = Condition::Nei;
    }

    seq.play();
    for _ in 0..16 {
        let f = fired(&seq.tick());
        assert!(f[0].is_some());
        assert!(f[1].is_some());
        assert!(f[2].is_none());
    }
}

#[test]
fn nei_on_track_zero_never_fires() {
    let mut seq = Sequencer::new(1);
    {
        let pattern = seq.current_pattern_mut();
        pattern.tracks[0].set_length(2).unwrap();
        pattern.tracks[0].steps[0].trig = true;
        pattern.tracks[0].steps[0].condition = Condition::Nei;
        pattern.tracks[0].steps[1].trig = true;
        pattern.tracks[0].steps[1].condition = Condition::NotNei;
    }

    seq.play();
    for _ in 0..8 {
        assert!(fired(&seq.tick())[0].is_none());
        assert!(fired(&seq.tick())[0].is_some());
    }
}

#[test]
fn first_fires_only_on_the_first_loop_per_track() {
    let mut seq = Sequencer::new(1);
    {
        let pattern = seq.current_pattern_mut();
        pattern.tracks[0].set_length(4).unwrap();
        pattern.tracks[0].steps[0].trig = true;
        pattern.tracks[0].steps[0].condition = Condition::First;
        pattern.tracks[1].set_length(6).unwrap();
        pattern.tracks[1].steps[0].trig = true;
        pattern.tracks[1].steps[0].condition = Condition::NotFirst;
    }

    seq.play();
    for tick in 0..24 {
        let f = fired(&seq.tick());
        assert_eq!(f[0].is_some(), tick == 0, "tick {tick}");
        assert_eq!(f[1].is_some(), tick % 6 == 0 && tick != 0, "tick {tick}");
    }

    seq.play();
    assert!(fired(&seq.tick())[0].is_some());
}

#[test]
fn ratio_conditions_select_loops() {
    let mut seq = Sequencer::new(1);
    {
        let pattern = seq.current_pattern_mut();
        pattern.tracks[0].set_length(4).unwrap();
        pattern.tracks[0].steps[0].trig = true;
        pattern.tracks[0].steps[0].condition = Condition::ratio(1, 2).unwrap();
        pattern.tracks[1].set_length(4).unwrap();
        pattern.tracks[1].steps[0].trig = true;
        pattern.tracks[1].steps[0].condition = Condition::ratio(2, 2).unwrap();
        pattern.tracks[2].set_length(1).unwrap();
        pattern.tracks[2].steps[0].trig = true;
        pattern.tracks[2].steps[0].condition = Condition::ratio(8, 8).unwrap();
    }

    seq.play();
    for tick in 0..32 {
        let f = fired(&seq.tick());
        assert_eq!(f[0].is_some(), tick % 8 == 0, "1:2 tick {tick}");
        assert_eq!(f[1].is_some(), tick % 8 == 4, "2:2 tick {tick}");
        assert_eq!(f[2].is_some(), tick % 8 == 7, "8:8 tick {tick}");
    }
}

#[test]
fn invalid_ratios_rejected_and_raw_literals_never_panic() {
    assert!(Condition::ratio(0, 2).is_err());
    assert!(Condition::ratio(3, 2).is_err());
    assert!(Condition::ratio(1, 9).is_err());
    assert!(Condition::ratio(1, 1).is_ok());
    assert!(Condition::ratio(8, 8).is_ok());

    let mut seq = Sequencer::new(1);
    let track = &mut seq.current_pattern_mut().tracks[0];
    track.set_length(1).unwrap();
    track.steps[0].trig = true;
    track.steps[0].condition = Condition::Ratio { a: 5, b: 0 };

    seq.play();
    for _ in 0..16 {
        seq.tick();
    }
}

#[test]
fn probability_gates_locks_too() {
    let mut seq = Sequencer::new(3);
    let track = &mut seq.current_pattern_mut().tracks[0];
    track.set_length(1).unwrap();
    track.steps[0].trig = true;
    track.steps[0].condition = Condition::Percent(unit(0.5));
    seq.current_pattern_mut().set_lane_lock(0, 0, 4, unit(0.9)).unwrap();

    seq.play();
    let mut fired_count = 0;
    for _ in 0..1000 {
        let out = seq.tick();
        for ev in &out {
            assert_eq!(val(ev.lanes[4]), 0.9);
            fired_count += 1;
        }
    }
    assert!(fired_count > 0);
}
