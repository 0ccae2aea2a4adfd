//! The determinism contract around probability trigs.

use plock::{Condition, NonZeroU16, Pattern, Retrig, RetrigLength, RetrigRate, Sequencer, TickOutput, UnitValue};

fn unit(v: f32) -> UnitValue {
    UnitValue::from_bits(v.to_bits())
}

/// A pattern with probability trigs on several tracks.
fn probabilistic_pattern() -> Pattern {
    let mut pattern = Pattern::default();
    for (i, track) in pattern.tracks.iter_mut().enumerate().take(4) {
        track.steps[i * 2].trig = true;
        track.steps[i * 2].condition = Condition::Percent(unit(0.5));
        track.steps[7].trig = true;
    }
    pattern
}

fn run(seed: u64, ticks: usize) -> Vec<TickOutput> {
    let mut seq = Sequencer::new(seed);
    *seq.current_pattern_mut() = probabilistic_pattern();
    seq.play();
    (0..ticks).map(|_| seq.tick()).collect()
}

#[test]
fn same_seed_same_output_over_1000_ticks() {
    assert_eq!(run(42, 1000), run(42, 1000));
}

#[test]
fn different_seeds_diverge() {
    assert_ne!(run(1, 1000), run(2, 1000));
}

#[test]
fn reseeding_replays_a_take() {
    let mut seq = Sequencer::new(9);
    *seq.current_pattern_mut() = probabilistic_pattern();

    seq.seed(123);
    seq.play();
    let first: Vec<TickOutput> = (0..500).map(|_| seq.tick()).collect();

    seq.seed(123);
    seq.play();
    let second: Vec<TickOutput> = (0..500).map(|_| seq.tick()).collect();

    assert_eq!(first, second);
}

#[test]
fn always_steps_do_not_consume_draws() {
    let collect_track0 = |with_extra: bool| -> Vec<bool> {
        let mut seq = Sequencer::new(77);
        let pattern = seq.current_pattern_mut();
        pattern.tracks[0].steps[0].trig = true;
        pattern.tracks[0].steps[0].condition = Condition::Percent(unit(0.5));
        if with_extra {
            pattern.tracks[5].steps[3].trig = true;
        }
        seq.play();
        (0..256).map(|_| seq.tick().iter().any(|e| e.track == 0)).collect()
    };
    assert_eq!(collect_track0(false), collect_track0(true));
}

/// A project exercising every feature: conditions, locks, polymeter,
/// micro-timing, swing, retrigs, and a two-pattern chain.
fn build() -> (Sequencer, plock::PatternId) {
    let mut seq = Sequencer::new(0x0E1E_C7E0);
    {
        let a = seq.current_pattern_mut();
        a.set_swing(66);
        a.change_length = NonZeroU16::new(32);

        let t0 = &mut a.tracks[0];
        for s in [0, 4, 8, 12] {
            t0.steps[s].trig = true;
        }

        let t1 = &mut a.tracks[1];
        t1.set_length(12).unwrap();
        t1.steps[2].trig = true;
        t1.steps[2].condition = Condition::Percent(unit(0.5));
        t1.steps[7].trig = true;
        t1.steps[7].condition = Condition::Pre;

        let t2 = &mut a.tracks[2];
        t2.steps[3].trig = true;
        t2.steps[3].set_micro(9);
        t2.steps[8].trig = true;
        t2.steps[8].set_micro(-7);

        let t3 = &mut a.tracks[3];
        t3.steps[0].trig = true;
        t3.steps[0].condition = Condition::ratio(1, 2).unwrap();
        t3.steps[0].retrig = Some(Retrig::new(RetrigRate::R32, RetrigLength::pulses(36), (-0.6f32).to_bits()));

        let t4 = &mut a.tracks[4];
        t4.steps[2].trig = true;
        t4.steps[2].condition = Condition::Nei;

        let t5 = &mut a.tracks[5];
        t5.steps[0].trig = true;
        t5.steps[0].condition = Condition::First;
        t5.steps[10].trig = true;
        t5.steps[10].condition = Condition::Fill;
    }
    let a = seq.current_pattern_mut();
    a.set_velocity_lock(0, 12, unit(0.5)).unwrap();
    a.set_lane_lock(2, 8, 0, unit(0.77)).unwrap();
    let mut b = Pattern::default();
    b.tracks[6].set_length(5).unwrap();
    b.tracks[6].steps[0].trig = true;
    b.tracks[6].steps[0].retrig = Some(Retrig::new(RetrigRate::R96, RetrigLength::Infinite, 0));
    b.tracks[6].defaults.lanes[9] = unit(0.33);
    let b = seq.add_pattern(b).unwrap();

    seq.play();
    (seq, b)
}

/// The scripted 512-tick take, rendered one row per event.
fn render_take() -> (String, Vec<plock::PatternId>) {
    let (mut seq, b) = build();
    let mut rendered = String::new();
    let mut current = Vec::new();
    for tick in 0..512 {
        if tick == 40 {
            seq.set_fill(true);
        }
        if tick == 56 {
            seq.set_fill(false);
        }
        if tick == 100 {
            seq.queue_pattern(b).unwrap();
        }
        for ev in &seq.tick() {
            rendered.push_str(&format!(
                "{tick},{},{},{:08x},{},{:016x}",
                ev.track,
                ev.offset,
                ev.velocity.to_bits(),
                u8::from(ev.velocity_locked),
                ev.locked
            ));
            for lane in ev.lanes {
                rendered.push_str(&format!(",{:08x}", lane.to_bits()));
            }
            rendered.push('\n');
        }
        current.push(seq.current_pattern_id());
    }
    (rendered, current)
}

#[test]
fn scripted_take_is_reproducible_and_switches_at_the_boundary() {
    let (first, current) = render_take();
    let (second, _) = render_take();
    assert_eq!(first, second);
    // Queued at tick 100 with a change length of 32: the switch happens at
    // master step 128.
    assert!(current[..128].iter().all(|&id| id == plock::PatternId(0)));
    assert!(current[128..].iter().all(|&id| id == plock::PatternId(1)));
    // After the switch only pattern B's track 6 plays.
    for row in first.lines() {
        let mut cols = row.split(',');
        let tick: usize = cols.next().unwrap().parse().unwrap();
        let track: u8 = cols.next().unwrap().parse().unwrap();
        if tick >= 128 {
            assert_eq!(track, 6, "tick {tick}");
        }
    }
}
