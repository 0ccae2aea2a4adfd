//! Patterns: the pure-data layer of the sequencer.

use vstd::prelude::*;
use crate::locks::{
    clear_result, keeps_order, lock_at, has_slot, only_step, resolves_to, set_result, LockError, LockPool,
    ResolvedStep, VELOCITY_DEST,
};
use crate::laws::pattern_valid;
use crate::nonzero::NonZeroU16;
use crate::track::{is_default_track, Track};
use crate::unit::UnitValue;
use crate::{MAX_LOCK_LANES, MAX_STEPS, NUM_PARAM_LANES, NUM_TRACKS};

verus! {

/// Identifies a pattern within a `Sequencer`: an index into its pattern
/// list, as returned by `add_pattern`.
#[derive(Clone, Copy, Debug, PartialEq, Eq, Hash, PartialOrd, Ord, Structural)]
pub struct PatternId(pub u8);

/// A swing amount in percent, always in `50..=80`.
#[derive(Clone, Copy, Debug, PartialEq, Eq)]
pub struct Swing {
    percent: u8,
}

/// Clamping a swing amount into `50..=80`.
pub open spec fn clamp_swing(percent: u8) -> u8 {
    if percent < 50 {
        50
    } else if percent > 80 {
        80
    } else {
        percent
    }
}

/// The delay in pulses that a swing amount applies to odd-indexed steps:
/// `(48 × swing + 50) / 100 − 24` — 0 at 50%, 8 at 66%, 12 at 75%, 14 at
/// 80%.
pub open spec fn swing_delay_spec(percent: u8) -> int {
    (48 * percent + 50) / 100 - 24
}

impl Swing {
    #[verifier::type_invariant]
    spec fn inv(self) -> bool {
        50 <= self.percent <= 80
    }

    /// The amount held.
    pub closed spec fn spec_percent(self) -> u8 {
        self.percent
    }

    /// A swing amount is determined by its percent.
    pub proof fn lemma_percent_eq(a: Self, b: Self)
        requires
            a.spec_percent() == b.spec_percent(),
        ensures
            a == b,
    {
    }

    /// `percent`, clamped to `50..=80`.
    pub fn clamped(percent: u8) -> (r: Self)
        ensures
            r.spec_percent() == clamp_swing(percent),
    {
        if percent < 50 {
            Swing { percent: 50 }
        } else if percent > 80 {
            Swing { percent: 80 }
        } else {
            Swing { percent }
        }
    }

    /// The amount in percent, in `50..=80`.
    pub fn get(self) -> (r: u8)
        ensures
            r == self.spec_percent(),
            50 <= r <= 80,
    {
        proof {
            use_type_invariant(&self);
        }
        self.percent
    }
}

/// What to play: 16 tracks of steps, a swing amount, a change length, and
/// the parameter-lock pool.
///
/// A `Pattern` is plain data — it contains nothing about playback position.
#[derive(Debug, PartialEq)]
pub struct Pattern {
    /// The 16 tracks.
    pub tracks: [Track; 16],
    /// Swing percent, `50..=80` (kept in range by its type; see
    /// `swing`/`set_swing`).
    pub swing: Swing,
    /// Pattern-change quantization in steps: queued pattern changes apply
    /// when the master step counter reaches a multiple of this. `None` =
    /// the pattern's master length (its longest track length).
    pub change_length: Option<NonZeroU16>,
    /// The parameter-lock pool, edited through the lock API below.
    pub locks: LockPool,
}

impl Clone for Pattern {
    fn clone(&self) -> (r: Self)
        ensures
            r.tracks == self.tracks,
            r.swing == self.swing,
            r.change_length == self.change_length,
            r.locks.lanes() == self.locks.lanes(),
    {
        Pattern {
            tracks: self.tracks,
            swing: self.swing,
            change_length: self.change_length,
            locks: self.locks.clone(),
        }
    }
}

impl Default for Pattern {
    fn default() -> (r: Self)
        ensures
            forall|i: int| 0 <= i < NUM_TRACKS ==> is_default_track(#[trigger] r.tracks[i]),
            r.swing.spec_percent() == 50,
            r.change_length is None,
            r.locks.lanes().len() == 0,
    {
        let t = Track::default();
        Pattern {
            tracks: vstd::array::array_fill_for_copy_types(t),
            swing: Swing::clamped(50),
            change_length: None,
            locks: LockPool::new(),
        }
    }
}

/// The longest track length among the first `n` tracks (at least 1).
pub open spec fn max_length_upto(tracks: [Track; 16], n: int) -> u8
    decreases n,
{
    if n <= 0 {
        1
    } else {
        let rest = max_length_upto(tracks, n - 1);
        let l = tracks[n - 1].length.spec_steps();
        if l > rest {
            l
        } else {
            rest
        }
    }
}

impl Pattern {
    /// The lock held on destination `d` of track `t` at step `s`.
    pub open spec fn lock(self, t: u8, s: int, d: u8) -> Option<UnitValue> {
        self.locks.lock(t, s, d)
    }

    /// The pattern's master length: its longest track length.
    pub open spec fn spec_master_length(self) -> u16 {
        max_length_upto(self.tracks, 16) as u16
    }

    /// The effective change quantization: `change_length` if set, else the
    /// master length.
    pub open spec fn spec_change_length(self) -> u32 {
        match self.change_length {
            Some(c) => c.spec_get() as u32,
            None => self.spec_master_length() as u32,
        }
    }

    /// What step `s` of track `t` plays against the track defaults.
    pub open spec fn spec_resolve(self, t: int, s: int) -> ResolvedStep {
        crate::locks::resolved(
            self.locks.lanes(),
            self.tracks[t].defaults.velocity,
            self.tracks[t].defaults.lanes,
            t as u8,
            s,
        )
    }

    /// Swing amount in percent, `50..=80`. 50 = straight.
    pub fn swing(&self) -> (r: u8)
        ensures
            r == self.swing.spec_percent(),
            50 <= r <= 80,
    {
        self.swing.get()
    }

    /// Sets the swing amount, clamping to `50..=80`. Swing delays the
    /// odd-indexed steps of every track (parity is per-track).
    pub fn set_swing(&mut self, percent: u8)
        ensures
            final(self).swing.spec_percent() == clamp_swing(percent),
            final(self).tracks == old(self).tracks,
            final(self).change_length == old(self).change_length,
            final(self).locks == old(self).locks,
    {
        self.swing = Swing::clamped(percent);
    }

    /// The swing delay in pulses applied to odd-indexed steps, `0..=14`.
    pub fn swing_delay(&self) -> (r: i16)
        ensures
            r == swing_delay_spec(self.swing.spec_percent()),
            0 <= r <= 14,
    {
        let sw = self.swing() as i16;
        (48 * sw + 50) / 100 - 24
    }

    /// The pattern's master length in steps: its longest track length.
    /// This is the default pattern-change quantization.
    pub fn master_length(&self) -> (r: u16)
        ensures
            r == self.spec_master_length(),
            1 <= r <= 128,
            forall|i: int| 0 <= i < NUM_TRACKS ==> (#[trigger] self.tracks[i]).length.spec_steps() <= r,
            exists|i: int| 0 <= i < NUM_TRACKS && (#[trigger] self.tracks[i]).length.spec_steps() == r,
    {
        let mut m: u8 = self.tracks[0].length();
        let mut i: usize = 1;
        assert(max_length_upto(self.tracks, 0) == 1);
        while i < NUM_TRACKS
            invariant
                1 <= i <= NUM_TRACKS,
                m == max_length_upto(self.tracks, i as int),
                1 <= m <= 128,
                forall|j: int| 0 <= j < i ==> (#[trigger] self.tracks[j]).length.spec_steps() <= m,
                exists|j: int| 0 <= j < i && (#[trigger] self.tracks[j]).length.spec_steps() == m,
            decreases NUM_TRACKS - i,
        {
            let l = self.tracks[i].length();
            if l > m {
                m = l;
            }
            i += 1;
        }
        m as u16
    }

    /// The effective change quantization in steps (never zero).
    pub fn effective_change_length(&self) -> (r: u32)
        ensures
            r == self.spec_change_length(),
            r >= 1,
    {
        match self.change_length {
            Some(c) => c.get() as u32,
            None => self.master_length() as u32,
        }
    }

    /// Locks `lane` of `track` at `step` to `value` — an Elektron p-lock.
    ///
    /// `OutOfRange` for invalid indices; `PoolFull` when this would occupy
    /// a new pool slot and the pattern already holds `MAX_LOCK_LANES`
    /// distinct destinations (locking more steps of an already-locked
    /// destination always succeeds).
    pub fn set_lane_lock(&mut self, track: usize, step: usize, lane: usize, value: UnitValue) -> (r: Result<(), LockError>)
        ensures
            r == Err::<(), LockError>(LockError::OutOfRange) <==> !(track < NUM_TRACKS && step < MAX_STEPS && lane < NUM_PARAM_LANES),
            r == Err::<(), LockError>(LockError::PoolFull) <==> (track < NUM_TRACKS && step < MAX_STEPS && lane < NUM_PARAM_LANES
                && !has_slot(old(self).locks.lanes(), track as u8, lane as u8)
                && old(self).locks.lanes().len() >= MAX_LOCK_LANES),
            r is Err ==> final(self).locks.lanes() == old(self).locks.lanes(),
            r is Ok ==> final(self).lock(track as u8, step as int, lane as u8) == Some(value),
            r is Ok ==> forall|t2: u8, s2: int, d2: u8|
                !(t2 == track && s2 == step && d2 == lane) ==> #[trigger] final(self).lock(t2, s2, d2) == old(self).lock(t2, s2, d2),
            r is Ok ==> final(self).locks.lanes().len() == old(self).locks.lanes().len()
                + (if has_slot(old(self).locks.lanes(), track as u8, lane as u8) { 0int } else { 1int }),
            r is Ok ==> set_result(old(self).locks.lanes(), final(self).locks.lanes(), track as u8, step as int, lane as u8, value),
            final(self).tracks == old(self).tracks,
            final(self).swing == old(self).swing,
            final(self).change_length == old(self).change_length,
    {
        if lane >= NUM_PARAM_LANES {
            return Err(LockError::OutOfRange);
        }
        self.locks.set(track, step, lane as u8, value)
    }

    /// The lock on `lane` of `track` at `step`, or `None` if that lane is
    /// unlocked there (or any index is out of range).
    pub fn lane_lock(&self, track: usize, step: usize, lane: usize) -> (r: Option<UnitValue>)
        ensures
            r == (if track < NUM_TRACKS && step < MAX_STEPS && lane < NUM_PARAM_LANES {
                self.lock(track as u8, step as int, lane as u8)
            } else {
                None
            }),
    {
        if lane >= NUM_PARAM_LANES {
            return None;
        }
        self.locks.get(track, step, lane as u8)
    }

    /// Removes the lock on `lane` of `track` at `step`; the step reverts to
    /// the track default. Clearing a destination's last locked step frees
    /// its pool slot. No-op for unlocked steps or out-of-range indices.
    pub fn clear_lane_lock(&mut self, track: usize, step: usize, lane: usize)
        ensures
            track < NUM_TRACKS && step < MAX_STEPS && lane < NUM_PARAM_LANES ==> final(self).lock(track as u8, step as int, lane as u8) is None,
            forall|t2: u8, s2: int, d2: u8|
                !(t2 == track && s2 == step && d2 == lane) ==> #[trigger] final(self).lock(t2, s2, d2) == old(self).lock(t2, s2, d2),
            final(self).locks.lanes().len() == old(self).locks.lanes().len() - (if track < NUM_TRACKS && lane < NUM_PARAM_LANES
                && only_step(old(self).locks.lanes(), track as u8, step as int, lane as u8) { 1int } else { 0int }),
            track < NUM_TRACKS && step < MAX_STEPS && lane < NUM_PARAM_LANES ==> clear_result(
                old(self).locks.lanes(), final(self).locks.lanes(), track as u8, step as int, lane as u8),
            !(track < NUM_TRACKS && step < MAX_STEPS && lane < NUM_PARAM_LANES) ==> final(self).locks.lanes() == old(self).locks.lanes(),
            final(self).tracks == old(self).tracks,
            final(self).swing == old(self).swing,
            final(self).change_length == old(self).change_length,
    {
        if lane < NUM_PARAM_LANES {
            self.locks.clear(track, step, lane as u8);
        }
    }

    /// Locks `track`'s velocity at `step` to `value`. Velocity is a lock
    /// destination like any lane and counts toward the pool cap.
    pub fn set_velocity_lock(&mut self, track: usize, step: usize, value: UnitValue) -> (r: Result<(), LockError>)
        ensures
            r == Err::<(), LockError>(LockError::OutOfRange) <==> !(track < NUM_TRACKS && step < MAX_STEPS),
            r == Err::<(), LockError>(LockError::PoolFull) <==> (track < NUM_TRACKS && step < MAX_STEPS
                && !has_slot(old(self).locks.lanes(), track as u8, VELOCITY_DEST)
                && old(self).locks.lanes().len() >= MAX_LOCK_LANES),
            r is Err ==> final(self).locks.lanes() == old(self).locks.lanes(),
            r is Ok ==> final(self).lock(track as u8, step as int, VELOCITY_DEST) == Some(value),
            r is Ok ==> forall|t2: u8, s2: int, d2: u8|
                !(t2 == track && s2 == step && d2 == VELOCITY_DEST) ==> #[trigger] final(self).lock(t2, s2, d2) == old(self).lock(t2, s2, d2),
            r is Ok ==> final(self).locks.lanes().len() == old(self).locks.lanes().len()
                + (if has_slot(old(self).locks.lanes(), track as u8, VELOCITY_DEST) { 0int } else { 1int }),
            r is Ok ==> set_result(old(self).locks.lanes(), final(self).locks.lanes(), track as u8, step as int, VELOCITY_DEST, value),
            final(self).tracks == old(self).tracks,
            final(self).swing == old(self).swing,
            final(self).change_length == old(self).change_length,
    {
        self.locks.set(track, step, VELOCITY_DEST, value)
    }

    /// The velocity lock of `track` at `step`, or `None` if velocity is
    /// unlocked there (or any index is out of range).
    pub fn velocity_lock(&self, track: usize, step: usize) -> (r: Option<UnitValue>)
        ensures
            r == (if track < NUM_TRACKS && step < MAX_STEPS {
                self.lock(track as u8, step as int, VELOCITY_DEST)
            } else {
                None
            }),
    {
        self.locks.get(track, step, VELOCITY_DEST)
    }

    /// Removes the velocity lock of `track` at `step`. No-op for unlocked
    /// steps or out-of-range indices.
    pub fn clear_velocity_lock(&mut self, track: usize, step: usize)
        ensures
            track < NUM_TRACKS && step < MAX_STEPS ==> final(self).lock(track as u8, step as int, VELOCITY_DEST) is None,
            forall|t2: u8, s2: int, d2: u8|
                !(t2 == track && s2 == step && d2 == VELOCITY_DEST) ==> #[trigger] final(self).lock(t2, s2, d2) == old(self).lock(t2, s2, d2),
            final(self).locks.lanes().len() == old(self).locks.lanes().len() - (if track < NUM_TRACKS
                && only_step(old(self).locks.lanes(), track as u8, step as int, VELOCITY_DEST) { 1int } else { 0int }),
            track < NUM_TRACKS && step < MAX_STEPS ==> clear_result(
                old(self).locks.lanes(), final(self).locks.lanes(), track as u8, step as int, VELOCITY_DEST),
            !(track < NUM_TRACKS && step < MAX_STEPS) ==> final(self).locks.lanes() == old(self).locks.lanes(),
            final(self).tracks == old(self).tracks,
            final(self).swing == old(self).swing,
            final(self).change_length == old(self).change_length,
    {
        self.locks.clear(track, step, VELOCITY_DEST);
    }

    /// Removes every lock (velocity and all lanes) of `track` at `step`,
    /// freeing the slots this leaves empty.
    pub fn clear_step_locks(&mut self, track: usize, step: usize)
        ensures
            track < NUM_TRACKS && step < MAX_STEPS ==> forall|d: u8| #[trigger] final(self).lock(track as u8, step as int, d) is None,
            forall|t2: u8, s2: int, d2: u8|
                !(t2 == track && s2 == step) ==> #[trigger] final(self).lock(t2, s2, d2) == old(self).lock(t2, s2, d2),
            forall|t2: u8, d2: u8|
                #[trigger] has_slot(final(self).locks.lanes(), t2, d2) <==> (has_slot(old(self).locks.lanes(), t2, d2)
                    && !(t2 == track && track < NUM_TRACKS && only_step(old(self).locks.lanes(), t2, step as int, d2))),
            keeps_order(old(self).locks.lanes(), final(self).locks.lanes()),
            final(self).tracks == old(self).tracks,
            final(self).swing == old(self).swing,
            final(self).change_length == old(self).change_length,
    {
        self.locks.clear_step(track, step);
    }

    /// Removes every lock on every step of `track`, freeing its pool slots.
    pub fn clear_track_locks(&mut self, track: usize)
        ensures
            track < NUM_TRACKS ==> forall|s: int, d: u8| #[trigger] final(self).lock(track as u8, s, d) is None,
            forall|t2: u8, s2: int, d2: u8|
                t2 != track ==> #[trigger] final(self).lock(t2, s2, d2) == old(self).lock(t2, s2, d2),
            forall|t2: u8, d2: u8|
                #[trigger] has_slot(final(self).locks.lanes(), t2, d2) <==> (has_slot(old(self).locks.lanes(), t2, d2) && t2 != track),
            keeps_order(old(self).locks.lanes(), final(self).locks.lanes()),
            final(self).tracks == old(self).tracks,
            final(self).swing == old(self).swing,
            final(self).change_length == old(self).change_length,
    {
        self.locks.clear_track(track);
    }

    /// Removes every lock in the pattern, emptying the pool.
    pub fn clear_all_locks(&mut self)
        ensures
            final(self).locks.lanes().len() == 0,
            forall|t: u8, s: int, d: u8| #[trigger] final(self).lock(t, s, d) is None,
            final(self).tracks == old(self).tracks,
            final(self).swing == old(self).swing,
            final(self).change_length == old(self).change_length,
    {
        self.locks.clear_all();
    }

    /// Number of occupied pool slots — distinct (track, destination) pairs
    /// locked anywhere in the pattern, `0..=MAX_LOCK_LANES`.
    pub fn lock_count(&self) -> (r: usize)
        ensures
            r == self.locks.lanes().len(),
            r <= MAX_LOCK_LANES,
    {
        self.locks.count()
    }

    /// What `track`'s `step` would play against the track defaults: per
    /// parameter, the lock if set, else the default — plus which values came
    /// from locks. `None` if either index is out of range.
    pub fn resolve_step(&self, track: usize, step: usize) -> (r: Option<ResolvedStep>)
        ensures
            r is Some <==> track < NUM_TRACKS && step < MAX_STEPS,
            r matches Some(x) ==> x == self.spec_resolve(track as int, step as int),
            r matches Some(x) ==> resolves_to(
                self.locks.lanes(),
                self.tracks[track as int].defaults.velocity,
                self.tracks[track as int].defaults.lanes,
                track as u8,
                step as int,
                x,
            ),
    {
        if track >= NUM_TRACKS || step >= MAX_STEPS {
            return None;
        }
        let defaults = &self.tracks[track].defaults;
        let r = self.locks.resolve(track as u8, step, defaults.velocity, &defaults.lanes);
        proof {
            crate::locks::lemma_resolved_unique(
                self.locks.lanes(),
                self.tracks[track as int].defaults.velocity,
                self.tracks[track as int].defaults.lanes,
                track as u8,
                step as int,
                r,
            );
        }
        Some(r)
    }
}

impl Pattern {
    /// Makes the invariants that the pattern's field types keep available
    /// to verified callers (they hold of every pattern); does nothing else.
    pub fn prove_valid(&self)
        ensures
            pattern_valid(*self),
    {
        let _ = self.swing();
        match self.change_length {
            Some(c) => {
                let _ = c.get();
            },
            None => {
                let _ = self.master_length();
            },
        }
        let mut t: usize = 0;
        while t < NUM_TRACKS
            invariant
                t <= NUM_TRACKS,
                forall|j: int| 0 <= j < t ==> 1 <= #[trigger] self.tracks[j].length.spec_steps() <= 128,
                forall|j: int, s: int|
                    0 <= j < t && 0 <= s < MAX_STEPS ==> -23 <= #[trigger] self.tracks[j].steps[s].micro.spec_pulses() <= 23,
            decreases NUM_TRACKS - t,
        {
            let _ = self.tracks[t].length();
            let mut s: usize = 0;
            while s < MAX_STEPS
                invariant
                    t < NUM_TRACKS,
                    s <= MAX_STEPS,
                    forall|j: int| 0 <= j < t ==> 1 <= #[trigger] self.tracks[j].length.spec_steps() <= 128,
                    forall|j: int, q: int|
                        0 <= j < t && 0 <= q < MAX_STEPS ==> -23 <= #[trigger] self.tracks[j].steps[q].micro.spec_pulses() <= 23,
                    forall|q: int| 0 <= q < s ==> -23 <= #[trigger] self.tracks[t as int].steps[q].micro.spec_pulses() <= 23,
                decreases MAX_STEPS - s,
            {
                let _ = self.tracks[t].steps[s].micro();
                s += 1;
            }
            proof {
                assert(1 <= self.tracks[t as int].length.spec_steps() <= 128);
            }
            t += 1;
        }
    }
}

} // verus!
