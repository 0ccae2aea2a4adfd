//! Tracks and their default parameters.

use vstd::prelude::*;
use crate::condition::Condition;
use crate::step::{Micro, Step};
use crate::unit::{UnitValue, ONE_BITS};
use crate::{MAX_STEPS, NUM_PARAM_LANES, STEPS_PER_PAGE};

verus! {

broadcast use vstd::array::group_array_axioms;

/// Error returned when a track length (or page count) is out of range.
#[derive(Clone, Copy, Debug, PartialEq, Eq, Structural)]
pub struct LengthError {
    /// The rejected length, in steps.
    pub steps: u16,
}

/// A structural fault in a stored track.
#[derive(Clone, Copy, Debug, PartialEq, Eq, Structural)]
pub enum TrackDataError {
    /// A track length outside `1..=128`.
    Length(u8),
    /// A step list that is not exactly 128 long; holds its length.
    StepCount(usize),
    /// A default-lane list that is not exactly 64 long; holds its length.
    LaneCount(usize),
}

/// A track length in steps, always in `1..=128`.
#[derive(Clone, Copy, Debug, PartialEq, Eq)]
pub struct TrackLength {
    steps: u8,
}

impl TrackLength {
    #[verifier::type_invariant]
    spec fn inv(self) -> bool {
        1 <= self.steps <= 128
    }

    /// The length held.
    pub closed spec fn spec_steps(self) -> u8 {
        self.steps
    }

    /// A length is determined by its step count.
    pub proof fn lemma_steps_eq(a: Self, b: Self)
        requires
            a.spec_steps() == b.spec_steps(),
        ensures
            a == b,
    {
    }

    /// `Some` length of `steps`, or `None` outside `1..=128`.
    pub fn new(steps: u8) -> (r: Option<Self>)
        ensures
            r is Some <==> 1 <= steps <= 128,
            r matches Some(l) ==> l.spec_steps() == steps,
    {
        if steps == 0 || steps as usize > MAX_STEPS {
            None
        } else {
            Some(TrackLength { steps })
        }
    }

    /// The length in steps, in `1..=128`.
    pub fn get(self) -> (r: u8)
        ensures
            r == self.spec_steps(),
            1 <= r <= 128,
    {
        proof {
            use_type_invariant(&self);
        }
        self.steps
    }
}

/// Track-level default parameters.
///
/// Velocity is distinguished — it gates output and drives the retrig
/// velocity ramp. The lanes are generic, unlabeled `0..1` values whose
/// meaning the host decides.
#[derive(Clone, Copy, Debug, PartialEq)]
pub struct Params {
    /// Default velocity for trigs on this track. Defaults to `1.0`.
    pub velocity: UnitValue,
    /// Default values for the generic parameter lanes. Default to `0.0`.
    pub lanes: [UnitValue; 64],
}

impl Default for Params {
    fn default() -> (r: Self)
        ensures
            r.velocity.spec_bits() == ONE_BITS,
            forall|i: int| 0 <= i < NUM_PARAM_LANES ==> (#[trigger] r.lanes[i]).spec_bits() == 0,
    {
        let zero = UnitValue::zero();
        let lanes: [UnitValue; 64] = vstd::array::array_fill_for_copy_types(zero);
        assert(forall|i: int| 0 <= i < 64 ==> lanes@[i] == zero);
        Params { velocity: UnitValue::one(), lanes }
    }
}

/// One of the sequencer's 16 tracks: a cyclic sequence of steps.
///
/// Tracks have independent lengths (1..=128 steps), so they wrap — and loop —
/// independently of each other: polymeter.
#[derive(Clone, Copy, Debug, PartialEq)]
pub struct Track {
    /// Active length in steps, `1..=128` (kept in range by its type; see
    /// `length`/`set_length`).
    pub length: TrackLength,
    /// Default parameters used when a step has no lock.
    pub defaults: Params,
    /// Step storage. Only `steps[..length]` take part in playback.
    pub steps: [Step; 128],
}

/// A blank step: no trig, the `Always` condition, no nudge, no retrig.
pub open spec fn is_blank_step(s: Step) -> bool {
    &&& !s.trig
    &&& s.condition == Condition::Always
    &&& s.micro.spec_pulses() == 0
    &&& s.retrig is None
}

/// A default track: 16 steps long, full default velocity, all lanes at
/// `0.0`, every step blank.
pub open spec fn is_default_track(t: Track) -> bool {
    &&& t.length.spec_steps() == 16
    &&& t.defaults.velocity.spec_bits() == ONE_BITS
    &&& forall|i: int| 0 <= i < NUM_PARAM_LANES ==> (#[trigger] t.defaults.lanes[i]).spec_bits() == 0
    &&& forall|i: int| 0 <= i < MAX_STEPS ==> is_blank_step(#[trigger] t.steps[i])
}

/// There is one default track.
pub proof fn lemma_default_track_unique(a: Track, b: Track)
    requires
        is_default_track(a),
        is_default_track(b),
    ensures
        a == b,
{
    TrackLength::lemma_steps_eq(a.length, b.length);
    UnitValue::lemma_bits_eq(a.defaults.velocity, b.defaults.velocity);
    assert(a.defaults.lanes =~= b.defaults.lanes) by {
        assert forall|i: int| 0 <= i < NUM_PARAM_LANES implies a.defaults.lanes[i] == b.defaults.lanes[i] by {
            UnitValue::lemma_bits_eq(a.defaults.lanes[i], b.defaults.lanes[i]);
        }
    }
    assert(a.steps =~= b.steps) by {
        assert forall|i: int| 0 <= i < MAX_STEPS implies a.steps[i] == b.steps[i] by {
            assert(is_blank_step(a.steps[i]) && is_blank_step(b.steps[i]));
            Micro::lemma_pulses_eq(a.steps[i].micro, b.steps[i].micro);
        }
    }
}

impl Default for Track {
    fn default() -> (r: Self)
        ensures
            is_default_track(r),
    {
        let length = match TrackLength::new(16) {
            Some(l) => l,
            None => TrackLength { steps: 16 },
        };
        let step = Step::default();
        Track { length, defaults: Params::default(), steps: vstd::array::array_fill_for_copy_types(step) }
    }
}

/// Pages needed for `length` steps, 16 per page, rounding up.
pub open spec fn page_count_spec(length: u8) -> usize {
    ((length as int + 15) / 16) as usize
}

impl Track {
    /// The track's active length in steps.
    pub fn length(&self) -> (r: u8)
        ensures
            r == self.length.spec_steps(),
            1 <= r <= 128,
    {
        self.length.get()
    }

    /// Sets the track length in steps, `1..=128`. Legal while playing: if the
    /// playhead is left beyond the new length, it wraps into range on the
    /// next tick (without counting a completed loop).
    pub fn set_length(&mut self, steps: u8) -> (r: Result<(), LengthError>)
        ensures
            r is Ok <==> 1 <= steps <= 128,
            r is Ok ==> final(self).length.spec_steps() == steps,
            r is Err ==> final(self).length == old(self).length,
            r matches Err(e) ==> e.steps == steps,
            final(self).defaults == old(self).defaults,
            final(self).steps == old(self).steps,
    {
        match TrackLength::new(steps) {
            Some(l) => {
                self.length = l;
                Ok(())
            },
            None => Err(LengthError { steps: steps as u16 }),
        }
    }

    /// Number of pages the active length occupies (16 steps per page,
    /// rounding up — a 20-step track has 2 pages).
    pub fn page_count(&self) -> (r: usize)
        ensures
            r == page_count_spec(self.length.spec_steps()),
            1 <= r <= 8,
    {
        let len = self.length() as usize;
        (len + STEPS_PER_PAGE - 1) / STEPS_PER_PAGE
    }

    /// The 16 steps of page `i`, or `None` if `i >= page_count()`. The last
    /// page is always returned in full, even when the track length ends
    /// mid-page.
    pub fn page(&self, i: usize) -> (r: Option<&[Step]>)
        ensures
            r is Some <==> i < page_count_spec(self.length.spec_steps()),
            r matches Some(p) ==> p@ == self.steps@.subrange(16 * i as int, 16 * i as int + 16),
    {
        if i < self.page_count() {
            let s: &[Step] = self.steps.as_slice();
            Some(&s[i * STEPS_PER_PAGE..(i + 1) * STEPS_PER_PAGE])
        } else {
            None
        }
    }

    /// Mutable access to the 16 steps of page `i`, or `None` if `i >=
    /// page_count()`. Writes through it land in the track's steps.
    pub fn page_mut(&mut self, i: usize) -> (r: Option<&mut [Step]>)
        ensures
            r is Some <==> i < page_count_spec(old(self).length.spec_steps()),
            r is None ==> *final(self) == *old(self),
            r matches Some(p) ==> p@ == old(self).steps@.subrange(16 * i as int, 16 * i as int + 16),
            r matches Some(p) ==> final(self).steps@ == old(self).steps@.subrange(0, 16 * i as int) + final(p)@
                + old(self).steps@.subrange(16 * i as int + 16, 128),
            final(self).length == old(self).length,
            final(self).defaults == old(self).defaults,
    {
        if i < self.page_count() {
            let s: &mut [Step] = &mut self.steps;
            let (_, rest) = s.split_at_mut(i * STEPS_PER_PAGE);
            let (page, _) = rest.split_at_mut(STEPS_PER_PAGE);
            Some(page)
        } else {
            None
        }
    }

    /// Sets the length to `pages * 16` steps, `1..=8` pages.
    pub fn set_page_count(&mut self, pages: usize) -> (r: Result<(), LengthError>)
        ensures
            r is Ok <==> 1 <= pages <= 8,
            r is Ok ==> final(self).length.spec_steps() == pages * 16,
            r is Err ==> final(self).length == old(self).length,
            r matches Err(e) ==> e.steps == (pages * 16) % 0x1_0000,
            final(self).defaults == old(self).defaults,
            final(self).steps == old(self).steps,
    {
        if pages == 0 || pages > crate::MAX_PAGES {
            let steps = ((pages % 0x1000) * STEPS_PER_PAGE) as u16;
            assert(((pages % 0x1000) * 16) == (pages * 16) % 0x1_0000) by (nonlinear_arith);
            return Err(LengthError { steps });
        }
        let steps = (pages * STEPS_PER_PAGE) as u8;
        match TrackLength::new(steps) {
            Some(l) => {
                self.length = l;
                Ok(())
            },
            None => Err(LengthError { steps: steps as u16 }),
        }
    }

    /// The track's cyclic timeline length in pulses (`length() × 24`).
    pub fn pulse_length(&self) -> (r: u32)
        ensures
            r == self.length.spec_steps() * 24,
    {
        (self.length() as u32) * 24
    }

    /// The pulse position of `step`'s grid slot on the track's timeline
    /// (before micro-timing or swing displacement).
    pub fn step_pulse(&self, step: u8) -> (r: u32)
        ensures
            r == step * 24,
    {
        (step as u32) * 24
    }
}

impl Params {
    /// Track defaults from a velocity and exactly 64 lane values.
    pub fn from_lanes(velocity: UnitValue, lanes: &[UnitValue]) -> (r: Result<Params, TrackDataError>)
        ensures
            r is Ok <==> lanes@.len() == NUM_PARAM_LANES,
            r matches Err(e) ==> e == TrackDataError::LaneCount(lanes@.len() as usize),
            r matches Ok(p) ==> p.velocity == velocity && p.lanes@ == lanes@,
    {
        if lanes.len() != NUM_PARAM_LANES {
            return Err(TrackDataError::LaneCount(lanes.len()));
        }
        let mut out: [UnitValue; 64] = vstd::array::array_fill_for_copy_types(velocity);
        let mut i: usize = 0;
        while i < NUM_PARAM_LANES
            invariant
                i <= NUM_PARAM_LANES,
                lanes@.len() == NUM_PARAM_LANES,
                forall|j: int| 0 <= j < i ==> #[trigger] out[j] == lanes@[j],
            decreases NUM_PARAM_LANES - i,
        {
            out[i] = lanes[i];
            i += 1;
        }
        assert(out@ =~= lanes@);
        Ok(Params { velocity, lanes: out })
    }
}

impl Track {
    /// A track from its stored parts: the length must be in `1..=128` and
    /// the step list exactly 128 long (checked in that order).
    pub fn from_parts(length: u8, defaults: Params, steps: &[Step]) -> (r: Result<Track, TrackDataError>)
        ensures
            !(1 <= length <= 128) ==> r == Err::<Track, TrackDataError>(TrackDataError::Length(length)),
            1 <= length <= 128 && steps@.len() != MAX_STEPS ==> r == Err::<Track, TrackDataError>(
                TrackDataError::StepCount(steps@.len() as usize),
            ),
            r is Ok <==> 1 <= length <= 128 && steps@.len() == MAX_STEPS,
            r matches Ok(t) ==> t.length.spec_steps() == length && t.defaults == defaults && t.steps@ == steps@,
    {
        let len = match TrackLength::new(length) {
            Some(l) => l,
            None => {
                return Err(TrackDataError::Length(length));
            },
        };
        if steps.len() != MAX_STEPS {
            return Err(TrackDataError::StepCount(steps.len()));
        }
        let mut out: [Step; 128] = vstd::array::array_fill_for_copy_types(Step::default());
        let mut i: usize = 0;
        while i < MAX_STEPS
            invariant
                i <= MAX_STEPS,
                steps@.len() == MAX_STEPS,
                forall|j: int| 0 <= j < i ==> #[trigger] out[j] == steps@[j],
            decreases MAX_STEPS - i,
        {
            out[i] = steps[i];
            i += 1;
        }
        assert(out@ =~= steps@);
        Ok(Track { length: len, defaults, steps: out })
    }
}

} // verus!
