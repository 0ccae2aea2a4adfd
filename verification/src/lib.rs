//! A headless Elektron-style step sequencer: pure state and behaviour, no
//! UI, no audio, no clock.
//!
//! The host owns time and presentation; it drives the sequencer by calling
//! `Sequencer::tick` once per step (a sixteenth note at the host's tempo) and
//! scheduling the returned events.

use vstd::prelude::*;

pub mod condition;
pub mod laws;
pub mod locks;
pub mod nonzero;
pub mod output;
pub mod pattern;
pub mod persist;
pub mod ramp;
pub mod retrig;
pub mod rng;
pub mod sequencer;
pub mod step;
pub mod track;
pub mod unit;

pub use condition::{Condition, RatioError};
pub use locks::{LockError, LockLane, LockPool, ResolvedStep, VELOCITY_DEST};
pub use nonzero::NonZeroU16;
pub use output::{Event, EventBuf, TickOutput, MAX_EVENTS_PER_TICK};
pub use pattern::{Pattern, PatternId, Swing};
pub use persist::{LockEntry, PoolDataError};
pub use ramp::ramp_velocity;
pub use retrig::{Retrig, RetrigLength, RetrigRate, VelRamp};
pub use rng::Pcg32;
pub use sequencer::{InvalidPatternId, Sequencer};
pub use step::{Micro, Step, MAX_MICRO};
pub use track::{LengthError, Params, Track, TrackDataError, TrackLength};
pub use unit::{draw_below, UnitValue};

verus! {

/// Number of tracks in a pattern.
pub const NUM_TRACKS: usize = 16;
/// Steps per page; also the default track length.
pub const STEPS_PER_PAGE: usize = 16;
/// Maximum pages per track.
pub const MAX_PAGES: usize = 8;
/// Maximum track length in steps.
pub const MAX_STEPS: usize = 128;
/// Pulses per step: the sub-step timing resolution (96 PPQN).
pub const PULSES_PER_STEP: u8 = 24;
/// Number of generic parameter lanes carried per track and per fired event.
pub const NUM_PARAM_LANES: usize = 64;
/// Maximum number of distinct (track, destination) lock lanes per pattern.
pub const MAX_LOCK_LANES: usize = 80;

} // verus!
