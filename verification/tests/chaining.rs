//! Pattern chaining and quantized changes.

use plock::{
    Condition, NonZeroU16, Pattern, PatternId, Retrig, RetrigLength, RetrigRate, Sequencer, TickOutput,
    UnitValue, NUM_TRACKS,
};

fn val(u: UnitValue) -> f32 {
    f32::from_bits(u.to_bits())
}

fn fired(out: &TickOutput) -> [Option<f32>; NUM_TRACKS] {
    let mut v = [None; NUM_TRACKS];
    for ev in out {
        v[ev.track as usize] = Some(val(ev.velocity));
    }
    v
}

/// Pattern with a single trig on track 0 at `step`.
fn one_trig(step: usize) -> Pattern {
    let mut p = Pattern::default();
    p.tracks[0].steps[step].trig = true;
    p
}

#[test]
fn change_lands_exactly_on_the_boundary() {
    let mut seq = Sequencer::new(1);
    *seq.current_pattern_mut() = one_trig(0);
    let b = seq.add_pattern(one_trig(1)).unwrap();

    seq.play();
    for _ in 0..5 {
        seq.tick();
    }
    seq.queue_pattern(b).unwrap();
    assert_eq!(seq.pending(), Some(b));

    let mut fires = Vec::new();
    for tick in 5..40 {
        if fired(&seq.tick())[0].is_some() {
            fires.push(tick);
        }
    }
    assert_eq!(fires, vec![17, 33]);
    assert_eq!(seq.pending(), None);
    assert_eq!(seq.current_pattern_id(), b);
}

#[test]
fn default_master_length_is_the_longest_track_under_polymeter() {
    let mut seq = Sequencer::new(1);
    {
        let a = seq.current_pattern_mut();
        a.tracks[0].steps[0].trig = true;
        a.tracks[1].set_length(12).unwrap();
        assert_eq!(a.master_length(), 16);
    }
    let b = seq.add_pattern(one_trig(0)).unwrap();

    seq.play();
    seq.tick();
    seq.queue_pattern(b).unwrap();
    for tick in 1..16 {
        assert_eq!(seq.current_pattern_id(), PatternId(0), "tick {tick}");
        seq.tick();
    }
    seq.tick();
    assert_eq!(seq.current_pattern_id(), b);
}

#[test]
fn explicit_change_length_switches_mid_pattern() {
    let mut seq = Sequencer::new(1);
    {
        let a = seq.current_pattern_mut();
        a.tracks[0].steps[0].trig = true;
        a.change_length = Some(NonZeroU16::new(4).unwrap());
    }
    let b = seq.add_pattern(one_trig(0)).unwrap();

    seq.play();
    seq.tick();
    seq.queue_pattern(b).unwrap();
    seq.tick();
    seq.tick();
    seq.tick();
    assert_eq!(seq.current_pattern_id(), PatternId(0));
    let out = seq.tick();
    assert_eq!(seq.current_pattern_id(), b);
    assert!(fired(&out)[0].is_some(), "B's step 0 plays immediately");
}

#[test]
fn chain_plays_in_order_and_the_last_pattern_loops() {
    let mut seq = Sequencer::new(1);
    *seq.current_pattern_mut() = one_trig(0);
    let b = seq.add_pattern(one_trig(1)).unwrap();
    let c = seq.add_pattern(one_trig(2)).unwrap();
    seq.queue_chain(&[b, c]).unwrap();

    seq.play();
    let mut fires = Vec::new();
    for tick in 0..64 {
        if fired(&seq.tick())[0].is_some() {
            fires.push(tick);
        }
    }
    assert_eq!(fires, vec![1, 18, 34, 50]);
    assert_eq!(seq.current_pattern_id(), c);
}

#[test]
fn queued_change_while_stopped_applies_on_the_first_tick() {
    let mut seq = Sequencer::new(1);
    *seq.current_pattern_mut() = one_trig(0);
    let b = seq.add_pattern(one_trig(0)).unwrap();
    seq.queue_pattern(b).unwrap();

    seq.play();
    assert_eq!(seq.pending(), Some(b));
    let out = seq.tick();
    assert_eq!(seq.current_pattern_id(), b);
    assert!(fired(&out)[0].is_some(), "B's step 0 plays on tick 0");
}

#[test]
fn first_condition_fires_again_after_a_switch() {
    let mut seq = Sequencer::new(1);
    seq.current_pattern_mut().tracks[0].steps[0].trig = true;
    let mut b = Pattern::default();
    b.tracks[0].steps[0].trig = true;
    b.tracks[0].steps[0].condition = Condition::First;
    let b = seq.add_pattern(b).unwrap();

    seq.play();
    seq.tick();
    seq.queue_pattern(b).unwrap();
    let mut fires = Vec::new();
    for tick in 1..64 {
        if fired(&seq.tick())[0].is_some() {
            fires.push(tick);
        }
    }
    assert_eq!(fires, vec![16]);
}

#[test]
fn clear_queue_cancels_a_pending_change() {
    let mut seq = Sequencer::new(1);
    let b = seq.add_pattern(Pattern::default()).unwrap();

    seq.play();
    seq.tick();
    seq.queue_pattern(b).unwrap();
    seq.clear_queue();
    for _ in 1..40 {
        seq.tick();
    }
    assert_eq!(seq.current_pattern_id(), PatternId(0));
}

#[test]
fn out_of_range_ids_rejected_at_queue_time() {
    let mut seq = Sequencer::new(1);
    let bogus = PatternId(7);
    assert!(seq.queue_pattern(bogus).is_err());
    assert!(seq.queue_chain(&[PatternId(0), bogus]).is_err());
    assert_eq!(seq.pending(), None, "rejected chain queued nothing");

    assert!(seq.pattern(bogus).is_none());
    assert!(seq.pattern_mut(bogus).is_none());
    assert!(seq.pattern(PatternId(0)).is_some());
}

#[test]
fn switch_drops_in_flight_sub_step_events() {
    let mut seq = Sequencer::new(1);
    {
        let a = seq.current_pattern_mut();
        a.change_length = Some(NonZeroU16::new(2).unwrap());
        a.tracks[0].steps[1].trig = true;
        a.tracks[0].steps[1].retrig = Some(Retrig::new(RetrigRate::R96, RetrigLength::Infinite, 0));
    }
    let b = seq.add_pattern(Pattern::default()).unwrap();

    seq.play();
    seq.tick();
    seq.queue_pattern(b).unwrap();
    let out = seq.tick();
    assert_eq!(out.len(), 6);
    assert!(seq.tick().is_empty());
    assert_eq!(seq.current_pattern_id(), b);
}

#[test]
fn next_boundary_uses_the_new_patterns_change_length() {
    let mut seq = Sequencer::new(1);
    *seq.current_pattern_mut() = one_trig(0);
    let mut pb = Pattern::default();
    pb.change_length = Some(NonZeroU16::new(4).unwrap());
    let b = seq.add_pattern(pb).unwrap();
    let c = seq.add_pattern(one_trig(0)).unwrap();

    seq.play();
    seq.tick();
    seq.queue_chain(&[b, c]).unwrap();
    for tick in 1..20 {
        seq.tick();
        let expect = if tick <= 15 { PatternId(0) } else { b };
        assert_eq!(seq.current_pattern_id(), expect, "tick {tick}");
    }
    seq.tick();
    assert_eq!(seq.current_pattern_id(), c);
}
