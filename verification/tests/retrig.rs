//! Retrig trains.

use plock::{Condition, Retrig, RetrigLength, RetrigRate, Sequencer, TickOutput, UnitValue};

fn unit(v: f32) -> UnitValue {
    UnitValue::from_bits(v.to_bits())
}

fn val(u: UnitValue) -> f32 {
    f32::from_bits(u.to_bits())
}

fn ramp(v: f32) -> u32 {
    v.to_bits()
}

fn offsets(out: &TickOutput, track: u8) -> Vec<u8> {
    out.iter().filter(|e| e.track == track).map(|e| e.offset).collect()
}

#[test]
fn hit_spacing_matches_the_rate_table() {
    for (rate, interval) in [
        (RetrigRate::R4, 96u32),
        (RetrigRate::R6, 64),
        (RetrigRate::R8, 48),
        (RetrigRate::R12, 32),
        (RetrigRate::R16, 24),
        (RetrigRate::R24, 16),
        (RetrigRate::R32, 12),
        (RetrigRate::R48, 8),
        (RetrigRate::R64, 6),
        (RetrigRate::R96, 4),
    ] {
        assert_eq!(u32::from(rate.interval()), interval);

        let mut seq = Sequencer::new(1);
        let track = &mut seq.current_pattern_mut().tracks[0];
        track.set_length(128).unwrap();
        track.steps[0].trig = true;
        track.steps[0].retrig = Some(Retrig::new(rate, RetrigLength::Infinite, ramp(0.0)));

        seq.play();
        let mut pulses = Vec::new();
        for window in 0..8u32 {
            for off in offsets(&seq.tick(), 0) {
                pulses.push(window * 24 + u32::from(off));
            }
        }
        let expected: Vec<u32> = (0..192).step_by(interval as usize).collect();
        assert_eq!(pulses, expected, "rate {rate:?}");
    }
}

#[test]
fn finite_train_hit_count_and_window_spanning() {
    let mut seq = Sequencer::new(1);
    let track = &mut seq.current_pattern_mut().tracks[0];
    track.set_length(128).unwrap();
    track.steps[0].trig = true;
    track.steps[0].retrig = Some(Retrig::new(RetrigRate::R32, RetrigLength::pulses(24), ramp(0.0)));

    seq.play();
    assert_eq!(offsets(&seq.tick(), 0), vec![0, 12]);
    assert_eq!(offsets(&seq.tick(), 0), vec![0]);
    for _ in 2..8 {
        assert!(seq.tick().is_empty());
    }
}

#[test]
fn single_hit_train_plays_at_base_velocity() {
    let mut seq = Sequencer::new(1);
    let track = &mut seq.current_pattern_mut().tracks[0];
    track.set_length(128).unwrap();
    track.defaults.velocity = unit(0.6);
    track.steps[0].trig = true;
    track.steps[0].retrig = Some(Retrig::new(RetrigRate::R32, RetrigLength::pulses(8), ramp(-1.0)));

    seq.play();
    let out = seq.tick();
    assert_eq!(out.len(), 1);
    assert_eq!(val(out.as_slice()[0].velocity), 0.6);
    assert!(seq.tick().is_empty());
}

#[test]
fn infinite_train_runs_until_the_next_fired_trig() {
    let mut seq = Sequencer::new(1);
    let track = &mut seq.current_pattern_mut().tracks[0];
    track.set_length(8).unwrap();
    track.steps[0].trig = true;
    track.steps[0].retrig = Some(Retrig::new(RetrigRate::R96, RetrigLength::Infinite, ramp(0.0)));
    track.steps[4].trig = true;

    seq.play();
    for window in 0..4 {
        assert_eq!(offsets(&seq.tick(), 0), vec![0, 4, 8, 12, 16, 20], "window {window}");
    }
    assert_eq!(offsets(&seq.tick(), 0), vec![0]);
    for _ in 5..8 {
        assert!(seq.tick().is_empty(), "train is dead");
    }
}

#[test]
fn replacement_mid_window_truncates_at_the_new_trigs_pulse() {
    let mut seq = Sequencer::new(1);
    let track = &mut seq.current_pattern_mut().tracks[0];
    track.set_length(128).unwrap();
    track.steps[0].trig = true;
    track.steps[0].retrig = Some(Retrig::new(RetrigRate::R48, RetrigLength::Infinite, ramp(0.0)));
    track.steps[1].trig = true;
    track.steps[1].set_micro(4);

    seq.play();
    assert_eq!(offsets(&seq.tick(), 0), vec![0, 8, 16]);
    assert_eq!(offsets(&seq.tick(), 0), vec![0, 4]);
    assert!(seq.tick().is_empty());
}

#[test]
fn velocity_ramp_interpolates_and_clamps() {
    let mut seq = Sequencer::new(1);
    let track = &mut seq.current_pattern_mut().tracks[0];
    track.set_length(128).unwrap();
    track.steps[0].trig = true;
    track.steps[0].retrig = Some(Retrig::new(RetrigRate::R96, RetrigLength::pulses(16), ramp(-1.0)));

    seq.play();
    let out = seq.tick();
    let velocities: Vec<f32> = out.iter().map(|e| val(e.velocity)).collect();
    assert_eq!(velocities, vec![1.0, 0.75, 0.5, 0.25, 0.0]);

    let mut seq = Sequencer::new(1);
    let track = &mut seq.current_pattern_mut().tracks[0];
    track.set_length(128).unwrap();
    track.defaults.velocity = unit(0.5);
    track.steps[0].trig = true;
    track.steps[0].retrig = Some(Retrig::new(RetrigRate::R96, RetrigLength::pulses(8), ramp(1.0)));

    seq.play();
    let out = seq.tick();
    let velocities: Vec<f32> = out.iter().map(|e| val(e.velocity)).collect();
    assert_eq!(velocities, vec![0.5, 1.0, 1.0]);
}

#[test]
fn lanes_ride_unchanged_on_every_hit() {
    let mut seq = Sequencer::new(1);
    let track = &mut seq.current_pattern_mut().tracks[0];
    track.set_length(128).unwrap();
    track.defaults.lanes[2] = unit(0.3);
    track.steps[0].trig = true;
    track.steps[0].retrig = Some(Retrig::new(RetrigRate::R96, RetrigLength::pulses(20), ramp(-0.5)));
    seq.current_pattern_mut().set_lane_lock(0, 0, 7, unit(0.9)).unwrap();

    seq.play();
    let out = seq.tick();
    assert_eq!(out.len(), 6);
    for ev in &out {
        assert_eq!(val(ev.lanes[2]), 0.3);
        assert_eq!(val(ev.lanes[7]), 0.9);
    }
}

#[test]
fn worst_case_stays_within_capacity() {
    let mut seq = Sequencer::new(1);
    for track in seq.current_pattern_mut().tracks.iter_mut() {
        track.set_length(1).unwrap();
        track.steps[0].trig = true;
        track.steps[0].retrig = Some(Retrig::new(RetrigRate::R96, RetrigLength::Infinite, ramp(0.0)));
    }

    seq.play();
    for _ in 0..16 {
        let out = seq.tick();
        assert_eq!(out.len(), 96);
    }
}

#[test]
fn condition_gates_the_whole_train() {
    let mut seq = Sequencer::new(1);
    let track = &mut seq.current_pattern_mut().tracks[0];
    track.set_length(16).unwrap();
    track.steps[0].trig = true;
    track.steps[0].condition = Condition::ratio(2, 2).unwrap();
    track.steps[0].retrig = Some(Retrig::new(RetrigRate::R96, RetrigLength::pulses(8), ramp(0.0)));

    seq.play();
    let mut per_loop = Vec::new();
    for _ in 0..4 {
        let mut hits = 0;
        for _ in 0..16 {
            hits += seq.tick().len();
        }
        per_loop.push(hits);
    }
    assert_eq!(per_loop, vec![0, 3, 0, 3]);
}

#[test]
fn probability_gated_retrig_is_deterministic() {
    let run = || -> Vec<usize> {
        let mut seq = Sequencer::new(0xBEEF);
        let track = &mut seq.current_pattern_mut().tracks[0];
        track.set_length(4).unwrap();
        track.steps[0].trig = true;
        track.steps[0].condition = Condition::Percent(unit(0.5));
        track.steps[0].retrig = Some(Retrig::new(RetrigRate::R96, RetrigLength::pulses(8), ramp(0.0)));
        seq.play();
        (0..256).map(|_| seq.tick().len()).collect()
    };
    let a = run();
    assert_eq!(a, run());
    assert!(a.contains(&3) && a.contains(&0));
}

#[test]
fn stop_and_play_clear_trains() {
    let mut seq = Sequencer::new(1);
    let track = &mut seq.current_pattern_mut().tracks[0];
    track.set_length(128).unwrap();
    track.steps[0].trig = true;
    track.steps[0].retrig = Some(Retrig::new(RetrigRate::R96, RetrigLength::Infinite, ramp(0.0)));

    seq.play();
    let first = seq.tick();
    seq.stop();
    assert!(seq.tick().is_empty());

    seq.play();
    let restarted = seq.tick();
    assert_eq!(first, restarted, "fresh start, no leftover train hits");
}
