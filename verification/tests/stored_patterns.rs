//! Storing and loading patterns: the sparse lock-pool form and the
//! validation of stored tracks.

use plock::{
    Condition, LockEntry, LockPool, Micro, NonZeroU16, Params, Pattern, PoolDataError, Retrig, RetrigLength,
    RetrigRate, Swing, Track, TrackDataError, UnitValue, VELOCITY_DEST,
};

fn unit(v: f32) -> UnitValue {
    UnitValue::from_bits(v.to_bits())
}

fn rich_pattern() -> Pattern {
    let mut p = Pattern::default();
    p.set_swing(66);
    p.change_length = NonZeroU16::new(12);
    let t = &mut p.tracks[0];
    t.set_length(48).unwrap();
    t.defaults.velocity = unit(0.8);
    t.defaults.lanes[3] = unit(0.5);
    t.steps[0].trig = true;
    t.steps[0].condition = Condition::Percent(unit(0.7));
    t.steps[0].set_micro(-11);
    t.steps[5].trig = true;
    t.steps[5].condition = Condition::ratio(3, 8).unwrap();
    t.steps[5].retrig = Some(Retrig::new(RetrigRate::R48, RetrigLength::Infinite, (-0.4f32).to_bits()));
    p.tracks[7].set_length(1).unwrap();
    p.set_velocity_lock(0, 0, unit(0.3)).unwrap();
    p.set_lane_lock(0, 0, 63, unit(0.9)).unwrap();
    p.set_lane_lock(2, 8, 0, unit(0.77)).unwrap();
    p
}

/// A pattern rebuilt from its stored parts, through the validating
/// constructors a loader uses.
fn reload(p: &Pattern) -> Pattern {
    let entries = p.locks.entries();
    let mut tracks = [Track::default(); 16];
    for (i, t) in p.tracks.iter().enumerate() {
        let lanes: Vec<UnitValue> = t.defaults.lanes.to_vec();
        let steps: Vec<_> = t.steps.to_vec();
        let defaults = Params::from_lanes(t.defaults.velocity, &lanes).unwrap();
        tracks[i] = Track::from_parts(t.length(), defaults, &steps).unwrap();
    }
    Pattern {
        tracks,
        swing: Swing::clamped(p.swing()),
        change_length: p.change_length.and_then(|c| NonZeroU16::new(c.get())),
        locks: LockPool::from_entries(&entries).unwrap(),
    }
}

#[test]
fn pattern_round_trips_exactly() {
    let original = rich_pattern();
    let back = reload(&original);
    assert_eq!(original, back);
}

#[test]
fn set_then_cleared_locks_round_trip_exactly() {
    let mut original = rich_pattern();
    original.set_lane_lock(5, 7, 10, unit(0.4)).unwrap();
    original.set_lane_lock(5, 9, 10, unit(0.6)).unwrap();
    original.clear_lane_lock(5, 9, 10);
    original.set_velocity_lock(6, 0, unit(0.2)).unwrap();
    original.clear_velocity_lock(6, 0);

    let back = reload(&original);
    assert_eq!(original, back);
}

#[test]
fn invalid_track_length_is_rejected() {
    let t = Track::default();
    let steps = t.steps.to_vec();
    assert_eq!(Track::from_parts(0, t.defaults, &steps), Err(TrackDataError::Length(0)));
    assert_eq!(Track::from_parts(200, t.defaults, &steps), Err(TrackDataError::Length(200)));
}

#[test]
fn wrong_step_count_is_rejected() {
    let t = Track::default();
    let steps = t.steps[..100].to_vec();
    assert_eq!(Track::from_parts(16, t.defaults, &steps), Err(TrackDataError::StepCount(100)));
}

#[test]
fn wrong_lane_count_is_rejected() {
    let t = Track::default();
    let lanes = t.defaults.lanes[..10].to_vec();
    assert_eq!(Params::from_lanes(t.defaults.velocity, &lanes), Err(TrackDataError::LaneCount(10)));
}

#[test]
fn out_of_range_scalars_reclamp() {
    assert_eq!(Swing::clamped(99).get(), 80);
    assert_eq!(unit(7.5), UnitValue::one());
    assert_eq!(Micro::clamped(-99).get(), -23);
    let entries = vec![LockEntry { track: 0, dest: VELOCITY_DEST, steps: vec![(0, unit(7.5))] }];
    let pool = LockPool::from_entries(&entries).unwrap();
    let mut p = Pattern::default();
    p.locks = pool;
    assert_eq!(p.velocity_lock(0, 0), Some(UnitValue::one()));
}

#[test]
fn missing_locks_field_loads_as_empty_pool() {
    let pool = LockPool::from_entries(&[]).unwrap();
    assert_eq!(pool.count(), 0);
}

fn entry(track: u8, dest: u8, steps: &[(u8, f32)]) -> LockEntry {
    LockEntry { track, dest, steps: steps.iter().map(|&(s, v)| (s, unit(v))).collect() }
}

#[test]
fn structurally_broken_lock_pools_are_rejected() {
    let err = |es: Vec<LockEntry>| LockPool::from_entries(&es).err();

    assert_eq!(err(vec![entry(16, 0, &[(0, 0.5)])]), Some(PoolDataError::TrackOutOfRange(16)));
    assert_eq!(err(vec![entry(0, 70, &[(0, 0.5)])]), Some(PoolDataError::DestOutOfRange(70)));
    assert_eq!(err(vec![entry(0, 0, &[(128, 0.5)])]), Some(PoolDataError::StepOutOfRange(128)));
    assert_eq!(err(vec![entry(0, 0, &[(3, 0.5), (3, 0.6)])]), Some(PoolDataError::DuplicateStep(3)));
    assert_eq!(err(vec![entry(0, 0, &[])]), Some(PoolDataError::EmptyEntry));
    assert_eq!(
        err(vec![entry(0, 0, &[(0, 0.5)]), entry(0, 0, &[(1, 0.5)])]),
        Some(PoolDataError::DuplicateDest { track: 0, dest: 0 })
    );
    let over: Vec<LockEntry> = (0..81u8).map(|i| entry(i % 16, i / 16, &[(0, 0.5)])).collect();
    assert_eq!(err(over), Some(PoolDataError::OverCapacity(81)));
}

#[test]
fn export_lists_locked_steps_in_ascending_order() {
    let mut p = Pattern::default();
    p.set_lane_lock(3, 40, 9, unit(0.25)).unwrap();
    p.set_lane_lock(3, 2, 9, unit(0.5)).unwrap();
    p.set_velocity_lock(1, 7, unit(0.75)).unwrap();
    let es = p.locks.entries();
    assert_eq!(es.len(), 2);
    assert_eq!(es[0], entry(3, 9, &[(2, 0.5), (40, 0.25)]));
    assert_eq!(es[1], entry(1, VELOCITY_DEST, &[(7, 0.75)]));
}

#[test]
fn the_first_fault_is_the_one_reported() {
    // A bad destination is reported before a bad track, and both before the
    // steps of the entry are looked at.
    assert_eq!(
        LockPool::from_entries(&[entry(20, 100, &[(200, 0.5)])]).err(),
        Some(PoolDataError::DestOutOfRange(100))
    );
    assert_eq!(
        LockPool::from_entries(&[entry(20, 1, &[(200, 0.5)])]).err(),
        Some(PoolDataError::TrackOutOfRange(20))
    );
    // Earlier entries are checked first.
    assert_eq!(
        LockPool::from_entries(&[entry(0, 1, &[(5, 0.5), (5, 0.5)]), entry(0, 99, &[])]).err(),
        Some(PoolDataError::DuplicateStep(5))
    );
    // A track length fault comes before a step count fault.
    let t = Track::default();
    assert_eq!(Track::from_parts(0, t.defaults, &t.steps[..3]), Err(TrackDataError::Length(0)));
}
