//! Trig conditions: when an enabled trig actually fires.

use vstd::prelude::*;
use crate::unit::UnitValue;

verus! {

/// Error from `Condition::ratio` for out-of-range arguments.
#[derive(Clone, Copy, Debug, PartialEq, Eq, Structural)]
pub struct RatioError {
    /// The rejected numerator.
    pub a: u8,
    /// The rejected denominator.
    pub b: u8,
}

/// When a trig fires.
///
/// Probability and logical conditions share one parameter slot per step, as
/// on Elektron hardware — they are mutually exclusive, which is why this is a
/// single enum rather than separate fields.
///
/// "Updates state" below refers to the per-track memory that `Pre`/`Nei`
/// read: the result of the most recent *state-writing* conditional evaluated
/// on a track. `Always`, `Pre`, and `Nei` themselves are transparent.
#[derive(Clone, Copy, Debug, PartialEq)]
#[non_exhaustive]
pub enum Condition {
    /// No condition: the trig always fires. Transparent to `Pre`/`Nei` state.
    Always,
    /// Fires with the given probability; updates state. A random draw happens
    /// only when an enabled trig with this condition is evaluated.
    Percent(UnitValue),
    /// Fires iff fill mode is active; updates state.
    Fill,
    /// Fires iff fill mode is inactive; updates state.
    NotFill,
    /// Fires iff the most recent state-writing conditional on the same track
    /// passed. Transparent.
    Pre,
    /// Complement of `Pre`. Transparent.
    NotPre,
    /// Like `Pre` but reads the neighbour track (track N−1); never fires on
    /// track 0. Transparent.
    Nei,
    /// Complement of `Nei`; passes on track 0. Transparent.
    NotNei,
    /// Fires only on the track's first loop after transport start; updates
    /// state.
    First,
    /// Fires on every loop except the first; updates state.
    NotFirst,
    /// Fires on loop `a` of every `b`-loop cycle (1-based); updates state.
    /// Evaluation clamps `b` to `1..=8` and `a` to `1..=b`.
    Ratio {
        /// Which loop of the cycle fires, `1..=b`.
        a: u8,
        /// Cycle length in loops, `1..=8`.
        b: u8,
    },
}

impl Default for Condition {
    fn default() -> (r: Self)
        ensures
            r == Condition::Always,
    {
        Condition::Always
    }
}

/// The arguments accepted by the validated ratio constructor.
pub open spec fn valid_ratio(a: u8, b: u8) -> bool {
    1 <= a && a <= b && b <= 8
}

impl Condition {
    /// Validated constructor for `Condition::Ratio`: accepts exactly
    /// `1 <= a <= b <= 8`.
    pub fn ratio(a: u8, b: u8) -> (r: Result<Self, RatioError>)
        ensures
            r is Ok <==> valid_ratio(a, b),
            r matches Ok(c) ==> c == (Condition::Ratio { a, b }),
            r matches Err(e) ==> e == (RatioError { a, b }),
    {
        if a >= 1 && a <= b && b <= 8 {
            Ok(Condition::Ratio { a, b })
        } else {
            Err(RatioError { a, b })
        }
    }
}

} // verus!
