//! Basic trigs, transport and wrap behaviour.

use plock::{Sequencer, TickOutput, UnitValue, NUM_TRACKS};

fn unit(v: f32) -> UnitValue {
    UnitValue::from_bits(v.to_bits())
}

fn val(u: UnitValue) -> f32 {
    f32::from_bits(u.to_bits())
}

/// Per track: the velocity it fired with this tick, if it fired.
fn fired(out: &TickOutput) -> [Option<f32>; NUM_TRACKS] {
    let mut v = [None; NUM_TRACKS];
    for ev in out {
        v[ev.track as usize] = Some(val(ev.velocity));
    }
    v
}

/// The ticks (within `n`) on which `track` fired.
fn fire_ticks(seq: &mut Sequencer, track: usize, n: usize) -> Vec<usize> {
    (0..n).filter(|_| fired(&seq.tick())[track].is_some()).collect()
}

#[test]
fn programmed_steps_fire_on_the_right_ticks() {
    let mut seq = Sequencer::new(1);
    let track = &mut seq.current_pattern_mut().tracks[3];
    track.steps[0].trig = true;
    track.steps[4].trig = true;
    track.steps[15].trig = true;

    seq.play();
    assert_eq!(fire_ticks(&mut seq, 3, 16), vec![0, 4, 15]);
}

#[test]
fn wraps_after_sixteen_ticks() {
    let mut seq = Sequencer::new(1);
    seq.current_pattern_mut().tracks[0].steps[2].trig = true;

    seq.play();
    assert_eq!(fire_ticks(&mut seq, 0, 48), vec![2, 18, 34]);
}

#[test]
fn tick_while_stopped_is_a_no_op() {
    let mut seq = Sequencer::new(1);
    seq.current_pattern_mut().tracks[0].steps[0].trig = true;

    assert!(!seq.is_playing());
    assert!(seq.tick().is_empty());
    assert!(seq.tick().is_empty());

    // Stopping mid-pattern freezes the position; only play() resets it.
    seq.play();
    seq.tick();
    seq.stop();
    assert!(seq.tick().is_empty());
}

#[test]
fn play_restarts_from_step_zero() {
    let mut seq = Sequencer::new(1);
    seq.current_pattern_mut().tracks[0].steps[0].trig = true;

    seq.play();
    assert_eq!(fired(&seq.tick())[0], Some(1.0));
    seq.tick();
    seq.tick();

    seq.play();
    assert_eq!(fired(&seq.tick())[0], Some(1.0));
}

#[test]
fn velocity_output_equals_track_default() {
    let mut seq = Sequencer::new(1);
    let track = &mut seq.current_pattern_mut().tracks[5];
    track.defaults.velocity = unit(0.7);
    track.steps[0].trig = true;

    seq.play();
    assert_eq!(fired(&seq.tick())[5], Some(0.7));
}

#[test]
fn lanes_default_to_track_defaults() {
    let mut seq = Sequencer::new(1);
    let track = &mut seq.current_pattern_mut().tracks[0];
    track.defaults.lanes[3] = unit(0.25);
    track.steps[0].trig = true;

    seq.play();
    let out = seq.tick();
    let ev = out.as_slice()[0];
    assert_eq!(val(ev.lanes[3]), 0.25);
    assert_eq!(val(ev.lanes[0]), 0.0);
}

#[test]
fn edits_while_playing_take_effect_on_next_pass() {
    let mut seq = Sequencer::new(1);
    seq.play();
    seq.tick();

    seq.current_pattern_mut().tracks[0].steps[0].trig = true;
    assert_eq!(fire_ticks(&mut seq, 0, 16), vec![15]);
}

#[test]
fn all_sixteen_tracks_fire_independently() {
    let mut seq = Sequencer::new(1);
    for (i, track) in seq.current_pattern_mut().tracks.iter_mut().enumerate() {
        track.steps[i].trig = true;
    }

    seq.play();
    for step in 0..16 {
        let f = fired(&seq.tick());
        for (t, v) in f.iter().enumerate() {
            assert_eq!(v.is_some(), t == step, "tick {step}, track {t}");
        }
    }
}
