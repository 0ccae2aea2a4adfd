//! A single sequencer step.

use vstd::prelude::*;
use crate::condition::Condition;
use crate::retrig::Retrig;

verus! {

/// The largest micro-timing nudge: one pulse short of a full step.
pub const MAX_MICRO: i8 = 23;

/// A micro-timing nudge in pulses, always in `-23..=23`.
#[derive(Clone, Copy, Debug, PartialEq, Eq)]
pub struct Micro {
    pulses: i8,
}

/// Clamping a nudge into `-23..=23`.
pub open spec fn clamp_micro(pulses: i8) -> i8 {
    if pulses < -23 {
        -23i8
    } else if pulses > 23 {
        23i8
    } else {
        pulses
    }
}

impl Micro {
    #[verifier::type_invariant]
    spec fn inv(self) -> bool {
        -MAX_MICRO <= self.pulses <= MAX_MICRO
    }

    /// The nudge held.
    pub closed spec fn spec_pulses(self) -> i8 {
        self.pulses
    }

    /// A nudge is determined by its pulse count.
    pub proof fn lemma_pulses_eq(a: Self, b: Self)
        requires
            a.spec_pulses() == b.spec_pulses(),
        ensures
            a == b,
    {
    }

    /// A nudge of `pulses`, clamped to `-23..=23`.
    pub fn clamped(pulses: i8) -> (r: Self)
        ensures
            r.spec_pulses() == clamp_micro(pulses),
    {
        if pulses < -MAX_MICRO {
            Micro { pulses: -MAX_MICRO }
        } else if pulses > MAX_MICRO {
            Micro { pulses: MAX_MICRO }
        } else {
            Micro { pulses }
        }
    }

    /// The nudge in pulses, in `-23..=23`.
    pub fn get(self) -> (r: i8)
        ensures
            r == self.spec_pulses(),
            -MAX_MICRO <= r <= MAX_MICRO,
    {
        proof {
            use_type_invariant(&self);
        }
        self.pulses
    }
}

/// One step of a track: a trig slot.
///
/// Parameter locks are not stored here — they live in the pattern-level
/// lock pool, edited through the `Pattern` lock API.
#[derive(Clone, Copy, Debug, PartialEq)]
pub struct Step {
    /// Is there a trig on this step at all?
    pub trig: bool,
    /// When the trig fires. Default: `Condition::Always`.
    pub condition: Condition,
    /// Micro-timing nudge in pulses, `-23..=23` (kept in range by its type;
    /// see `micro`/`set_micro`).
    pub micro: Micro,
    /// Retrig: when this trig fires it starts a train of rapid repeats.
    /// `None` = a single hit.
    pub retrig: Option<Retrig>,
}

impl Default for Step {
    fn default() -> (r: Self)
        ensures
            !r.trig,
            r.condition == Condition::Always,
            r.micro.spec_pulses() == 0,
            r.retrig is None,
    {
        Step { trig: false, condition: Condition::Always, micro: Micro::clamped(0), retrig: None }
    }
}

impl Step {
    /// This step's micro-timing nudge in pulses. Negative plays early (the
    /// event lands near the end of the previous step window), positive late.
    pub fn micro(&self) -> (r: i8)
        ensures
            r == self.micro.spec_pulses(),
            -MAX_MICRO <= r <= MAX_MICRO,
    {
        self.micro.get()
    }

    /// Sets the micro-timing nudge, clamping to `-23..=23`.
    pub fn set_micro(&mut self, pulses: i8)
        ensures
            final(self).micro.spec_pulses() == clamp_micro(pulses),
            final(self).trig == old(self).trig,
            final(self).condition == old(self).condition,
            final(self).retrig == old(self).retrig,
    {
        self.micro = Micro::clamped(pulses);
    }
}

} // verus!
