//! The runtime layer: transport and playback state around the patterns.

use vstd::prelude::*;
use std::collections::VecDeque;
use vstd::wrapping::u32_specs::wrapping_add as u32_wrapping_add;
use vstd::wrapping::u16_specs::wrapping_add as u16_wrapping_add;
use crate::condition::Condition;
use crate::laws::{pattern_valid, patterns_valid};
use crate::locks::ResolvedStep;
use crate::output::{
    is_placeholder, out_push, out_push_all, by_offset, Event, EventBuf, TickOutput, MAX_EVENTS_PER_TICK,
};
use crate::pattern::{swing_delay_spec, Pattern, PatternId};
use crate::ramp::{fadd, fdiv_int, fmul_int, ramp_velocity};
use crate::retrig::{rate_interval, Retrig, RetrigLength, VelRamp};
use crate::rng::{pcg_output, pcg_seeded_state, pcg_step, Pcg32, PCG_INC};
use crate::unit::{draw_below, draw_below_spec, UnitValue};
use crate::{MAX_STEPS, NUM_PARAM_LANES, NUM_TRACKS};

verus! {

broadcast use vstd::array::group_array_axioms;

/// Error for a `PatternId` that doesn't exist in this sequencer.
#[derive(Clone, Copy, Debug, PartialEq, Eq, Structural)]
pub struct InvalidPatternId(pub PatternId);

/// Events displaced past their examination window (by swing or combined
/// micro+swing offsets of 24 pulses or more), waiting for the next window.
#[derive(Clone, Copy, Debug)]
pub struct PendingEvents {
    pub events: [Event; 4],
    pub len: u8,
}

/// Appending to a pending buffer of capacity 4: a full buffer drops the
/// event.
pub open spec fn pend_push(p: Seq<Event>, e: Event) -> Seq<Event> {
    if p.len() < 4 {
        p.push(e)
    } else {
        p
    }
}

impl PendingEvents {
    /// The events waiting.
    pub open spec fn view(&self) -> Seq<Event> {
        self.events@.take(self.len as int)
    }

    /// An empty buffer whose every slot holds the placeholder event.
    pub fn empty() -> (r: Self)
        ensures
            r.len == 0,
            r.view() == Seq::<Event>::empty(),
            forall|i: int| 0 <= i < 4 ==> is_placeholder(#[trigger] r.events[i]),
    {
        PendingEvents { events: vstd::array::array_fill_for_copy_types(Event::empty()), len: 0 }
    }

    /// Appends `e`, dropping it when the buffer is full.
    pub fn push(&mut self, e: Event)
        requires
            old(self).len <= 4,
        ensures
            final(self).len <= 4,
            final(self).view() == pend_push(old(self).view(), e),
    {
        if self.len < 4 {
            self.events[self.len as usize] = e;
            self.len = self.len + 1;
            assert(self.view() =~= old(self).view().push(e));
        }
    }
}

/// An in-flight retrig train.
#[derive(Clone, Copy, Debug)]
pub struct ActiveTrain {
    /// Pulses between hits.
    pub interval: u16,
    /// Hits emitted so far; the fired trig's own event is hit 0.
    pub emitted: u16,
    /// Total hits for a finite train (`length / interval + 1`), or `None`
    /// for `Infinite`.
    pub total: Option<u16>,
    /// Pulse position of the next hit relative to the current window's
    /// start; re-based by −24 as each window passes.
    pub next_offset: i16,
    /// The trig's resolved velocity — the ramp's starting point.
    pub velocity: UnitValue,
    /// Velocity ramp over the train.
    pub vel_ramp: VelRamp,
    /// The trig's resolved lanes, riding unchanged on every hit.
    pub lanes: [UnitValue; 64],
    /// Which lanes came from locks.
    pub locked: u64,
    /// Whether the trig's velocity came from a velocity lock.
    pub velocity_locked: bool,
}

/// A finite train has emitted all its hits.
pub open spec fn train_done(t: ActiveTrain) -> bool {
    match t.total {
        Some(n) => t.emitted >= n,
        None => false,
    }
}

/// Velocity of hit `k`: linear from the trig's velocity to `velocity +
/// vel_ramp`, clamped per hit; single-hit and `Infinite` trains play flat.
pub open spec fn hit_velocity(t: ActiveTrain, k: u16) -> UnitValue {
    match t.total {
        Some(n) => if n > 1 {
            UnitValue::spec_from_bits(
                fadd(t.velocity.spec_bits(), fdiv_int(fmul_int(t.vel_ramp.spec_bits(), k), (n - 1) as u16)),
            )
        } else {
            t.velocity
        },
        None => t.velocity,
    }
}

/// The event of a train's next hit.
pub open spec fn hit_event(t: ActiveTrain, track: int) -> Event {
    Event {
        track: track as u8,
        velocity: hit_velocity(t, t.emitted),
        offset: t.next_offset as u8,
        lanes: t.lanes,
        locked: t.locked,
        velocity_locked: t.velocity_locked,
    }
}

/// A train after emitting one hit.
pub open spec fn train_step(t: ActiveTrain) -> ActiveTrain {
    ActiveTrain {
        emitted: u16_wrapping_add(t.emitted, 1),
        next_offset: (t.next_offset + t.interval) as i16,
        ..t
    }
}

/// Emits the train's hits strictly before pulse `limit` (and inside the
/// window), returning the advanced train and the output.
pub open spec fn run_hits(t: ActiveTrain, track: int, limit: int, out: Seq<Event>) -> (ActiveTrain, Seq<Event>)
    decreases (if t.next_offset < 24 {
        24 - t.next_offset
    } else {
        0
    }),
{
    if t.next_offset < limit && t.next_offset < 24 && !train_done(t) && 0 < t.interval <= 96 {
        run_hits(train_step(t), track, limit, out_push(out, hit_event(t, track)))
    } else {
        (t, out)
    }
}

/// Emits the train's hits inside the window, then re-bases it to the next
/// window, or retires it when done.
pub open spec fn emit_hits(t: ActiveTrain, track: int, out: Seq<Event>) -> (Option<ActiveTrain>, Seq<Event>) {
    let (t2, out2) = run_hits(t, track, 24, out);
    let t3 = ActiveTrain { next_offset: (t2.next_offset - 24) as i16, ..t2 };
    (if train_done(t3) {
        None
    } else {
        Some(t3)
    }, out2)
}

/// The train a fired retrig trig starts at pulse `offset`: its own event is
/// hit 0.
pub open spec fn start_train(rt: Retrig, offset: int, r: ResolvedStep) -> ActiveTrain {
    let iv = rate_interval(rt.rate);
    ActiveTrain {
        interval: iv,
        emitted: 1,
        total: match rt.length {
            RetrigLength::Infinite => None,
            RetrigLength::Pulses(p) => Some((p.spec_get() / iv + 1) as u16),
        },
        next_offset: (offset + iv) as i16,
        velocity: r.velocity,
        vel_ramp: rt.vel_ramp,
        lanes: r.lanes,
        locked: r.locked,
        velocity_locked: r.velocity_locked,
    }
}

/// A well-formed train.
pub open spec fn train_wf(t: ActiveTrain) -> bool {
    &&& 4 <= t.interval <= 96
    &&& 0 <= t.next_offset <= 133
    &&& t.total matches Some(n) ==> 1 <= n <= 16384 && t.emitted <= n
}

/// Per-track playback state. Runtime only — never part of pattern data.
#[derive(Clone, Copy, Debug)]
pub struct TrackState {
    /// Next step to evaluate (the window index of the next tick).
    pub playhead: u8,
    /// Completed loops of this track since `play()`.
    pub loop_count: u32,
    /// Result of the most recent state-writing conditional evaluated on
    /// this track.
    pub last_cond: bool,
    /// Events spilled past the previous window.
    pub pending: PendingEvents,
    /// The track's in-flight retrig train, if any.
    pub train: Option<ActiveTrain>,
}

/// The abstract per-track playback state.
#[verifier::ext_equal]
pub struct TrackView {
    pub playhead: u8,
    pub loop_count: u32,
    pub last_cond: bool,
    pub pending: Seq<Event>,
    pub train: Option<ActiveTrain>,
}

impl TrackState {
    /// The abstract state.
    pub open spec fn view(&self) -> TrackView {
        TrackView {
            playhead: self.playhead,
            loop_count: self.loop_count,
            last_cond: self.last_cond,
            pending: self.pending.view(),
            train: self.train,
        }
    }

    /// Fresh state: step 0, loop 0, no condition result, nothing in flight.
    pub fn fresh() -> (r: Self)
        ensures
            r.view() == fresh_track(),
            r.playhead == 0,
            r.loop_count == 0,
            !r.last_cond,
            r.train is None,
            r.pending.len == 0,
            forall|i: int| 0 <= i < 4 ==> is_placeholder(#[trigger] r.pending.events[i]),
    {
        TrackState { playhead: 0, loop_count: 0, last_cond: false, pending: PendingEvents::empty(), train: None }
    }
}

/// The state of a track right after `play()`, `reset()` or a pattern switch.
pub open spec fn fresh_track() -> TrackView {
    TrackView { playhead: 0, loop_count: 0, last_cond: false, pending: Seq::empty(), train: None }
}

/// Sixteen fresh tracks.
pub open spec fn fresh_tracks() -> Seq<TrackView> {
    Seq::new(16, |i: int| fresh_track())
}

/// A well-formed track state for track `i`: playhead inside the step array,
/// pending events in the window and on this track, a well-formed train.
pub open spec fn track_view_wf(t: TrackView, i: int) -> bool {
    &&& t.playhead < MAX_STEPS
    &&& t.pending.len() <= 4
    &&& forall|k: int| 0 <= k < t.pending.len() ==> (#[trigger] t.pending[k]).offset < 24 && t.pending[k].track == i
    &&& t.train matches Some(tr) ==> train_wf(tr)
}

/// The abstract sequencer state.
#[verifier::ext_equal]
pub struct SequencerView {
    /// The patterns held.
    pub patterns: Seq<Pattern>,
    /// Index of the pattern playing.
    pub current: int,
    /// Queued pattern changes.
    pub queue: Seq<PatternId>,
    /// Steps since the current pattern started.
    pub master_step: u32,
    /// The transport is running.
    pub playing: bool,
    /// Fill mode.
    pub fill: bool,
    /// PRNG state.
    pub rng: u64,
    /// Per-track playback state.
    pub tracks: Seq<TrackView>,
}

/// A well-formed sequencer state.
pub open spec fn view_wf(v: SequencerView) -> bool {
    &&& 1 <= v.patterns.len() <= 256
    &&& 0 <= v.current < v.patterns.len()
    &&& forall|k: int| 0 <= k < v.queue.len() ==> (#[trigger] v.queue[k]).0 < v.patterns.len()
    &&& v.tracks.len() == NUM_TRACKS
    &&& forall|i: int| 0 <= i < NUM_TRACKS ==> track_view_wf(#[trigger] v.tracks[i], i)
}

/// The state with track `i` replaced.
pub open spec fn with_track(v: SequencerView, i: int, t: TrackView) -> SequencerView {
    SequencerView { tracks: v.tracks.update(i, t), ..v }
}

/// A ratio condition's clamped `(a, b)`: `b` into `1..=8`, `a` into `1..=b`.
pub open spec fn clamp_ratio(a: u8, b: u8) -> (u8, u8) {
    let b2: u8 = if b < 1 {
        1
    } else if b > 8 {
        8
    } else {
        b
    };
    let a2: u8 = if a < 1 {
        1
    } else if a > b2 {
        b2
    } else {
        a
    };
    (a2, b2)
}

/// Whether `cond` passes on `track` in state `v` (with loop count `lc`),
/// and whether it records its result for `Pre`/`Nei`.
pub open spec fn cond_outcome(v: SequencerView, track: int, cond: Condition, lc: u32) -> (bool, bool) {
    match cond {
        Condition::Always => (true, false),
        Condition::Percent(p) => (draw_below_spec(pcg_output(v.rng) >> 8u32, p), true),
        Condition::Fill => (v.fill, true),
        Condition::NotFill => (!v.fill, true),
        Condition::Pre => (v.tracks[track].last_cond, false),
        Condition::NotPre => (!v.tracks[track].last_cond, false),
        Condition::Nei => (track > 0 && v.tracks[track - 1].last_cond, false),
        Condition::NotNei => (!(track > 0 && v.tracks[track - 1].last_cond), false),
        Condition::First => (lc == 0, true),
        Condition::NotFirst => (lc > 0, true),
        Condition::Ratio { a, b } => {
            let (a2, b2) = clamp_ratio(a, b);
            (lc % (b2 as u32) == a2 - 1, true)
        },
    }
}

/// Evaluates `cond`: consumes a draw for `Percent` only, and records the
/// result for the state-writing conditions.
pub open spec fn eval_cond(v: SequencerView, track: int, cond: Condition, lc: u32) -> (SequencerView, bool) {
    let (passed, writes) = cond_outcome(v, track, cond, lc);
    let v1 = match cond {
        Condition::Percent(_) => SequencerView { rng: pcg_step(v.rng, PCG_INC), ..v },
        _ => v,
    };
    let v2 = if writes {
        with_track(v1, track, TrackView { last_cond: passed, ..v1.tracks[track] })
    } else {
        v1
    };
    (v2, passed)
}

/// Examines step `index` of `track` for the current window: the un-pulled
/// pass takes a step with `micro >= 0` (offset `micro`), the pulled pass a
/// step with `micro < 0` (offset `24 + micro`); swing adds its delay on
/// odd steps. A fired trig truncates the track's train at its pulse, is
/// emitted (or spilled into the pending buffer when the offset reaches 24),
/// and starts a new train when it has a retrig.
pub open spec fn examine_spec(v: SequencerView, out: Seq<Event>, track: int, index: int, pulled: bool) -> (SequencerView, Seq<Event>) {
    let pat = v.patterns[v.current];
    let step = pat.tracks[track].steps[index];
    let micro = step.micro.spec_pulses();
    if !step.trig || pulled != (micro < 0) {
        (v, out)
    } else {
        let lc0 = v.tracks[track].loop_count;
        let lc = if pulled && index == 0 {
            u32_wrapping_add(lc0, 1)
        } else {
            lc0
        };
        let (v1, passed) = eval_cond(v, track, step.condition, lc);
        if !passed {
            (v1, out)
        } else {
            fire_spec(v1, out, track, index, pulled)
        }
    }
}

/// A passing trig on step `index` of `track` fires: its event (at its
/// micro-timing plus swing offset) truncates the track's train at its pulse,
/// is emitted (or spilled into the pending buffer when the offset reaches
/// 24), and starts a new train when the step has a retrig.
pub open spec fn fire_spec(v1: SequencerView, out: Seq<Event>, track: int, index: int, pulled: bool) -> (SequencerView, Seq<Event>) {
    let pat = v1.patterns[v1.current];
    let step = pat.tracks[track].steps[index];
    let micro = step.micro.spec_pulses();
    let r = pat.spec_resolve(track, index);
    let swing = if index % 2 == 1 {
        swing_delay_spec(pat.swing.spec_percent())
    } else {
        0
    };
    let offset: int = (if pulled {
        24 + micro
    } else {
        micro as int
    }) + swing;
    let ev = Event {
        track: track as u8,
        velocity: r.velocity,
        offset: (offset % 24) as u8,
        lanes: r.lanes,
        locked: r.locked,
        velocity_locked: r.velocity_locked,
    };
    let ts = v1.tracks[track];
    let out1 = match ts.train {
        Some(t) => run_hits(t, track, offset, out).1,
        None => out,
    };
    let pend = if offset >= 24 {
        pend_push(ts.pending, ev)
    } else {
        ts.pending
    };
    let out2 = if offset >= 24 {
        out1
    } else {
        out_push(out1, ev)
    };
    let train = match step.retrig {
        Some(rt) => Some(start_train(rt, offset, r)),
        None => None,
    };
    (with_track(v1, track, TrackView { pending: pend, train, ..ts }), out2)
}

/// One track's part of a tick: spilled events first, then the window's
/// step, the next step when pulled early, the train's hits, and the
/// playhead's advance (wrapping at the track length, counting a loop).
pub open spec fn window_spec(v: SequencerView, out: Seq<Event>, i: int) -> (SequencerView, Seq<Event>) {
    let ts = v.tracks[i];
    let out1 = out_push_all(out, ts.pending);
    let len = v.patterns[v.current].tracks[i].length.spec_steps();
    let ph: u8 = if ts.playhead >= len {
        (ts.playhead % len) as u8
    } else {
        ts.playhead
    };
    let v1 = with_track(v, i, TrackView { pending: Seq::empty(), playhead: ph, ..ts });
    let (v2, out2) = examine_spec(v1, out1, i, ph as int, false);
    let (v3, out3) = examine_spec(v2, out2, i, ((ph + 1) % (len as int)), true);
    let (v4, out4) = match v3.tracks[i].train {
        Some(t) => {
            let (nt, o) = emit_hits(t, i, out3);
            (with_track(v3, i, TrackView { train: nt, ..v3.tracks[i] }), o)
        },
        None => (v3, out3),
    };
    let t4 = v4.tracks[i];
    let t5 = if t4.playhead + 1 >= len {
        TrackView { playhead: 0, loop_count: u32_wrapping_add(t4.loop_count, 1), ..t4 }
    } else {
        TrackView { playhead: (t4.playhead + 1) as u8, ..t4 }
    };
    (with_track(v4, i, t5), out4)
}

/// The first `n` tracks' parts of a tick, in track order.
pub open spec fn windows_spec(v: SequencerView, n: int) -> (SequencerView, Seq<Event>)
    decreases n,
{
    if n <= 0 {
        (v, Seq::empty())
    } else {
        let (w, o) = windows_spec(v, n - 1);
        window_spec(w, o, n - 1)
    }
}

/// At a change boundary (`master_step` a multiple of the current pattern's
/// change length) the head of the queue, if any, becomes current, with
/// fresh positional state.
pub open spec fn boundary_spec(v: SequencerView) -> SequencerView {
    let pat = v.patterns[v.current];
    if v.master_step % pat.spec_change_length() == 0 && v.queue.len() > 0 {
        SequencerView {
            current: v.queue[0].0 as int,
            queue: v.queue.subrange(1, v.queue.len() as int),
            tracks: fresh_tracks(),
            master_step: 0,
            ..v
        }
    } else {
        v
    }
}

/// One tick: nothing while stopped; otherwise the change boundary, every
/// track's window in order 0..16, the master step's advance, and the
/// events ordered by offset.
pub open spec fn tick_spec(v: SequencerView) -> (SequencerView, Seq<Event>) {
    if !v.playing {
        (v, Seq::empty())
    } else {
        let v1 = boundary_spec(v);
        let (v2, pushed) = windows_spec(v1, 16);
        (SequencerView { master_step: u32_wrapping_add(v2.master_step, 1), ..v2 }, by_offset(pushed))
    }
}


/// The state of a new sequencer seeded with `seed`: stopped, at step 0,
/// nothing queued, fill off, the PRNG seeded, and one default pattern —
/// swing 50%, no change length, no locks, 16 default tracks.
pub open spec fn new_view(v: SequencerView, seed: u64) -> bool {
    &&& v.patterns.len() == 1
    &&& v.current == 0
    &&& v.queue.len() == 0
    &&& v.master_step == 0
    &&& !v.playing
    &&& !v.fill
    &&& v.rng == pcg_seeded_state(seed)
    &&& v.tracks == fresh_tracks()
    &&& v.patterns[0].swing.spec_percent() == 50
    &&& v.patterns[0].change_length is None
    &&& v.patterns[0].locks.lanes().len() == 0
    &&& forall|i: int| 0 <= i < NUM_TRACKS ==> crate::track::is_default_track(#[trigger] v.patterns[0].tracks[i])
}

/// The sequencer state machine: the patterns plus all playback state.
///
/// The host owns time: call `tick()` once per step (a sixteenth note at the
/// host's tempo) and schedule the returned events. All pattern mutation is
/// legal while playing, as on the hardware.
#[derive(Clone, Debug)]
pub struct Sequencer {
    patterns: Vec<Pattern>,
    current: usize,
    queue: VecDeque<PatternId>,
    master_step: u32,
    playing: bool,
    fill: bool,
    rng: Pcg32,
    track_state: [TrackState; 16],
}

impl View for Sequencer {
    type V = SequencerView;

    closed spec fn view(&self) -> SequencerView {
        SequencerView {
            patterns: self.patterns@,
            current: self.current as int,
            queue: self.queue@,
            master_step: self.master_step,
            playing: self.playing,
            fill: self.fill,
            rng: self.rng.state,
            tracks: self.track_state@.map_values(|t: TrackState| t.view()),
        }
    }
}

impl Sequencer {
    /// The sequencer's internal consistency: its view is well formed.
    pub closed spec fn wf(&self) -> bool {
        &&& view_wf(self@)
        &&& self.rng.inc == PCG_INC
        &&& forall|i: int| 0 <= i < NUM_TRACKS ==> (#[trigger] self.track_state[i]).pending.len <= 4
    }

    /// Makes what the laws of playback assume available to verified
    /// callers: the view is well formed and every pattern keeps the
    /// invariants of its field types. Does nothing else.
    pub fn prove_valid(&self)
        requires
            self.wf(),
        ensures
            view_wf(self@),
            patterns_valid(self@.patterns),
    {
        let mut k: usize = 0;
        while k < self.patterns.len()
            invariant
                k <= self.patterns@.len(),
                forall|j: int| 0 <= j < k ==> pattern_valid(#[trigger] self.patterns@[j]),
            decreases self.patterns@.len() - k,
        {
            self.patterns[k].prove_valid();
            k += 1;
        }
    }

    /// Replaces track `i`'s playback state.
    fn set_track(&mut self, i: usize, ts: TrackState)
        requires
            old(self).wf(),
            i < NUM_TRACKS,
            ts.pending.len <= 4,
            track_view_wf(ts.view(), i as int),
        ensures
            final(self).wf(),
            final(self)@ == with_track(old(self)@, i as int, ts.view()),
    {
        self.track_state[i] = ts;
        proof {
            assert(self.track_state@.map_values(|t: TrackState| t.view()) =~= old(self).track_state@.map_values(
                |t: TrackState| t.view(),
            ).update(i as int, ts.view()));
            assert(self@ =~= with_track(old(self)@, i as int, ts.view()));
        }
    }

    /// Creates a stopped sequencer with one default (empty) pattern.
    ///
    /// The seed drives the deterministic PRNG behind probability trigs; the
    /// same seed, pattern, and call sequence always produce identical output.
    pub fn new(seed: u64) -> (r: Self)
        ensures
            r.wf(),
            new_view(r@, seed),
    {
        let mut patterns: Vec<Pattern> = Vec::new();
        patterns.push(Pattern::default());
        let fresh = TrackState::fresh();
        let r = Sequencer {
            patterns,
            current: 0,
            queue: VecDeque::new(),
            master_step: 0,
            playing: false,
            fill: false,
            rng: Pcg32::new(seed),
            track_state: vstd::array::array_fill_for_copy_types(fresh),
        };
        proof {
            assert(r@.tracks =~= fresh_tracks());
        }
        r
    }

    /// Adds a pattern, returning its id. `None` if the sequencer is full
    /// (256 patterns).
    pub fn add_pattern(&mut self, pattern: Pattern) -> (r: Option<PatternId>)
        requires
            old(self).wf(),
        ensures
            final(self).wf(),
            r is None <==> old(self)@.patterns.len() >= 256,
            r is None ==> final(self)@ == old(self)@,
            r matches Some(id) ==> id.0 == old(self)@.patterns.len() && final(self)@ == (SequencerView {
                patterns: old(self)@.patterns.push(pattern),
                ..old(self)@
            }),
    {
        if self.patterns.len() >= 256 {
            return None;
        }
        let id = self.patterns.len() as u8;
        self.patterns.push(pattern);
        proof {
            assert(self@ =~= (SequencerView { patterns: old(self)@.patterns.push(pattern), ..old(self)@ }));
        }
        Some(PatternId(id))
    }

    /// Number of patterns held.
    pub fn pattern_count(&self) -> (r: usize)
        requires
            self.wf(),
        ensures
            r == self@.patterns.len(),
    {
        self.patterns.len()
    }

    /// The pattern with the given id, if it exists.
    pub fn pattern(&self, id: PatternId) -> (r: Option<&Pattern>)
        requires
            self.wf(),
        ensures
            r is Some <==> id.0 < self@.patterns.len(),
            r matches Some(p) ==> *p == self@.patterns[id.0 as int],
    {
        let i = id.0 as usize;
        if i < self.patterns.len() {
            Some(&self.patterns[i])
        } else {
            None
        }
    }

    /// Mutable access to the pattern with the given id, if it exists.
    pub fn pattern_mut(&mut self, id: PatternId) -> (r: Option<&mut Pattern>)
        requires
            old(self).wf(),
        ensures
            r is Some <==> id.0 < old(self)@.patterns.len(),
            r is None ==> final(self)@ == old(self)@,
            r matches Some(p) ==> *p == old(self)@.patterns[id.0 as int],
            r matches Some(p) ==> final(self)@ == (SequencerView {
                patterns: old(self)@.patterns.update(id.0 as int, *final(p)),
                ..old(self)@
            }),
            final(self).wf(),
    {
        let i = id.0 as usize;
        if i < self.patterns.len() {
            Some(&mut self.patterns[i])
        } else {
            None
        }
    }

    /// The id of the pattern currently playing.
    pub fn current_pattern_id(&self) -> (r: PatternId)
        requires
            self.wf(),
        ensures
            r.0 as int == self@.current,
    {
        PatternId(self.current as u8)
    }

    /// Queues a pattern change, applied at the next change boundary (every
    /// `change_length` steps of the current pattern, by default its master
    /// length). Queued changes accumulate into a chain; the last pattern of a
    /// chain loops. Rejects ids that don't exist.
    pub fn queue_pattern(&mut self, id: PatternId) -> (r: Result<(), InvalidPatternId>)
        requires
            old(self).wf(),
        ensures
            final(self).wf(),
            r is Ok <==> id.0 < old(self)@.patterns.len(),
            r is Ok ==> final(self)@ == (SequencerView { queue: old(self)@.queue.push(id), ..old(self)@ }),
            r matches Err(e) ==> e == InvalidPatternId(id) && final(self)@ == old(self)@,
    {
        if id.0 as usize >= self.patterns.len() {
            return Err(InvalidPatternId(id));
        }
        self.queue.push_back(id);
        proof {
            assert(self@ =~= (SequencerView { queue: old(self)@.queue.push(id), ..old(self)@ }));
        }
        Ok(())
    }

    /// Queues several pattern changes at once — a chain. All ids are
    /// validated before any is queued; the first invalid one is reported.
    pub fn queue_chain(&mut self, ids: &[PatternId]) -> (r: Result<(), InvalidPatternId>)
        requires
            old(self).wf(),
        ensures
            final(self).wf(),
            r is Ok <==> forall|k: int| 0 <= k < ids@.len() ==> (#[trigger] ids@[k]).0 < old(self)@.patterns.len(),
            r is Ok ==> final(self)@ == (SequencerView { queue: old(self)@.queue + ids@, ..old(self)@ }),
            r matches Err(e) ==> final(self)@ == old(self)@ && exists|k: int|
                0 <= k < ids@.len() && #[trigger] ids@[k] == e.0 && e.0.0 >= old(self)@.patterns.len()
                    && forall|j: int| 0 <= j < k ==> (#[trigger] ids@[j]).0 < old(self)@.patterns.len(),
    {
        let mut k: usize = 0;
        while k < ids.len()
            invariant
                0 <= k <= ids@.len(),
                self.wf(),
                self@ == old(self)@,
                forall|j: int| 0 <= j < k ==> (#[trigger] ids@[j]).0 < self@.patterns.len(),
            decreases ids@.len() - k,
        {
            if ids[k].0 as usize >= self.patterns.len() {
                return Err(InvalidPatternId(ids[k]));
            }
            k += 1;
        }
        let mut k: usize = 0;
        while k < ids.len()
            invariant
                0 <= k <= ids@.len(),
                self.wf(),
                forall|j: int| 0 <= j < ids@.len() ==> (#[trigger] ids@[j]).0 < self@.patterns.len(),
                self@ == (SequencerView { queue: old(self)@.queue + ids@.take(k as int), ..old(self)@ }),
            decreases ids@.len() - k,
        {
            let ghost before = self@;
            self.queue.push_back(ids[k]);
            proof {
                assert(self@.queue == before.queue.push(ids@[k as int]));
                assert forall|q: int| 0 <= q < self@.queue.len() implies (#[trigger] self@.queue[q]).0 < self@.patterns.len() by {
                    if q < before.queue.len() {
                        assert(self@.queue[q] == before.queue[q]);
                    } else {
                        assert(self@.queue[q] == ids@[k as int]);
                    }
                }
                assert(old(self)@.queue + ids@.take(k as int + 1) =~= (old(self)@.queue + ids@.take(k as int)).push(ids@[k as int]));
                assert(self@ =~= (SequencerView { queue: old(self)@.queue + ids@.take(k as int + 1), ..old(self)@ }));
            }
            k += 1;
        }
        proof {
            assert(ids@.take(ids@.len() as int) =~= ids@);
        }
        Ok(())
    }

    /// Drops all queued pattern changes; the current pattern keeps looping.
    pub fn clear_queue(&mut self)
        requires
            old(self).wf(),
        ensures
            final(self).wf(),
            final(self)@ == (SequencerView { queue: Seq::<PatternId>::empty(), ..old(self)@ }),
    {
        self.queue.clear();
        proof {
            assert(self@ =~= (SequencerView { queue: Seq::<PatternId>::empty(), ..old(self)@ }));
        }
    }

    /// The next queued pattern change, if any.
    pub fn pending(&self) -> (r: Option<PatternId>)
        requires
            self.wf(),
        ensures
            r is Some <==> self@.queue.len() > 0,
            r matches Some(id) ==> id == self@.queue[0],
    {
        if self.queue.len() > 0 {
            Some(self.queue[0])
        } else {
            None
        }
    }

    /// Sets fill mode, read by the `Fill`/`NotFill` conditions at each
    /// evaluation. Momentary, latched or one-shot behaviours are host policy
    /// layered on this flag.
    pub fn set_fill(&mut self, fill: bool)
        requires
            old(self).wf(),
        ensures
            final(self).wf(),
            final(self)@ == (SequencerView { fill, ..old(self)@ }),
    {
        self.fill = fill;
    }

    /// Current fill mode.
    pub fn fill(&self) -> (r: bool)
        requires
            self.wf(),
        ensures
            r == self@.fill,
    {
        self.fill
    }

    /// Reseeds the PRNG (e.g. to replay a take). Transport, position, and
    /// patterns are untouched.
    pub fn seed(&mut self, seed: u64)
        requires
            old(self).wf(),
        ensures
            final(self).wf(),
            final(self)@ == (SequencerView { rng: pcg_seeded_state(seed), ..old(self)@ }),
    {
        self.rng = Pcg32::new(seed);
    }

    /// The pattern currently being played (and edited).
    pub fn current_pattern(&self) -> (r: &Pattern)
        requires
            self.wf(),
        ensures
            *r == self@.patterns[self@.current],
    {
        &self.patterns[self.current]
    }

    /// Mutable access to the current pattern. Edits while playing are legal
    /// and take effect the next time the affected step is evaluated.
    pub fn current_pattern_mut(&mut self) -> (r: &mut Pattern)
        requires
            old(self).wf(),
        ensures
            *r == old(self)@.patterns[old(self)@.current],
            final(self)@ == (SequencerView {
                patterns: old(self)@.patterns.update(old(self)@.current, *final(r)),
                ..old(self)@
            }),
            final(self).wf(),
    {
        &mut self.patterns[self.current]
    }

    /// Resets the playback position to step 0 without changing the
    /// transport state. Like `play()`, this does not clear the
    /// pattern-change queue.
    pub fn reset(&mut self)
        requires
            old(self).wf(),
        ensures
            final(self).wf(),
            final(self)@ == (SequencerView { tracks: fresh_tracks(), master_step: 0, ..old(self)@ }),
    {
        let fresh = TrackState::fresh();
        self.track_state = vstd::array::array_fill_for_copy_types(fresh);
        self.master_step = 0;
        proof {
            assert(self@.tracks =~= fresh_tracks());
            assert(self@ =~= (SequencerView { tracks: fresh_tracks(), master_step: 0, ..old(self)@ }));
        }
    }

    /// Starts playback from step 0. Calling this while already playing
    /// restarts from step 0. Does not reseed the PRNG and does not clear the
    /// pattern-change queue.
    pub fn play(&mut self)
        requires
            old(self).wf(),
        ensures
            final(self).wf(),
            final(self)@ == (SequencerView { playing: true, tracks: fresh_tracks(), master_step: 0, ..old(self)@ }),
    {
        self.playing = true;
        self.reset();
    }

    /// Halts playback. While stopped, `tick()` returns an empty output and
    /// advances nothing. The position is kept; in-flight sub-step events
    /// (spilled events and retrig trains) are dropped.
    pub fn stop(&mut self)
        requires
            old(self).wf(),
        ensures
            final(self).wf(),
            final(self)@ == (SequencerView {
                playing: false,
                tracks: old(self)@.tracks.map_values(|t: TrackView| TrackView { pending: Seq::empty(), train: None, ..t }),
                ..old(self)@
            }),
    {
        self.playing = false;
        let mut i: usize = 0;
        while i < NUM_TRACKS
            invariant
                0 <= i <= NUM_TRACKS,
                self.wf(),
                !self.playing,
                self@.patterns == old(self)@.patterns,
                self@.current == old(self)@.current,
                self@.queue == old(self)@.queue,
                self@.master_step == old(self)@.master_step,
                self@.fill == old(self)@.fill,
                self@.rng == old(self)@.rng,
                forall|j: int| 0 <= j < NUM_TRACKS ==> #[trigger] self@.tracks[j] == (if j < i {
                    TrackView { pending: Seq::empty(), train: None, ..old(self)@.tracks[j] }
                } else {
                    old(self)@.tracks[j]
                }),
            decreases NUM_TRACKS - i,
        {
            let mut ts = self.track_state[i];
            proof {
                assert(ts.view() == self@.tracks[i as int]);
                assert(track_view_wf(self@.tracks[i as int], i as int));
            }
            ts.pending = PendingEvents::empty();
            ts.train = None;
            self.set_track(i, ts);
            proof {
                assert(self@.tracks[i as int] =~= TrackView { pending: Seq::empty(), train: None, ..old(self)@.tracks[i as int] });
            }
            i += 1;
        }
        proof {
            assert(self@.tracks =~= old(self)@.tracks.map_values(|t: TrackView| TrackView { pending: Seq::empty(), train: None, ..t }));
            assert(self@ =~= (SequencerView {
                playing: false,
                tracks: old(self)@.tracks.map_values(|t: TrackView| TrackView { pending: Seq::empty(), train: None, ..t }),
                ..old(self)@
            }));
        }
    }

    /// `true` while the transport is running.
    pub fn is_playing(&self) -> (r: bool)
        requires
            self.wf(),
        ensures
            r == self@.playing,
    {
        self.playing
    }

    /// Each track's playhead: the step index the next tick will evaluate
    /// (before wrapping into a shortened track).
    pub fn playheads(&self) -> (r: [u8; 16])
        requires
            self.wf(),
        ensures
            forall|i: int| 0 <= i < NUM_TRACKS ==> #[trigger] r[i] == self@.tracks[i].playhead,
    {
        let mut r = [0u8; 16];
        let mut i: usize = 0;
        while i < NUM_TRACKS
            invariant
                0 <= i <= NUM_TRACKS,
                self.wf(),
                forall|j: int| 0 <= j < i ==> #[trigger] r[j] == self@.tracks[j].playhead,
            decreases NUM_TRACKS - i,
        {
            r[i] = self.track_state[i].playhead;
            i += 1;
        }
        r
    }
}

/// Emits a train's hits strictly before pulse `limit` and inside the window.
fn run_hits_exec(t: ActiveTrain, track: usize, limit: i16, buf: &mut EventBuf) -> (r: ActiveTrain)
    requires
        old(buf).wf(),
        train_wf(t),
        track < NUM_TRACKS,
    ensures
        final(buf).wf(),
        (r, final(buf).view()) == run_hits(t, track as int, limit as int, old(buf).view()),
        4 <= r.interval <= 96,
        0 <= r.next_offset <= 133,
        r.total == t.total,
        r.total matches Some(n) ==> r.emitted <= n,
        !train_done(r) ==> r.next_offset >= limit || r.next_offset >= 24,
        r.interval == t.interval,
        r.vel_ramp == t.vel_ramp,
        r.velocity == t.velocity,
        r.lanes == t.lanes,
        r.locked == t.locked,
        r.velocity_locked == t.velocity_locked,
{
    let mut cur = t;
    loop
        invariant
            buf.wf(),
            track < NUM_TRACKS,
            4 <= cur.interval <= 96,
            0 <= cur.next_offset <= 133,
            cur.total == t.total,
            cur.total matches Some(n) ==> 1 <= n <= 16384 && cur.emitted <= n,
            cur.interval == t.interval,
            cur.vel_ramp == t.vel_ramp,
            cur.velocity == t.velocity,
            cur.lanes == t.lanes,
            cur.locked == t.locked,
            cur.velocity_locked == t.velocity_locked,
            run_hits(cur, track as int, limit as int, buf.view()) == run_hits(t, track as int, limit as int, old(buf).view()),
        decreases (if cur.next_offset < 24 {
            24 - cur.next_offset
        } else {
            0
        }),
    {
        let done = match cur.total {
            Some(n) => cur.emitted >= n,
            None => false,
        };
        if !(cur.next_offset < limit && cur.next_offset < 24 && !done) {
            return cur;
        }
        let velocity = match cur.total {
            Some(n) => {
                if n > 1 {
                    ramp_velocity(cur.velocity, cur.vel_ramp, cur.emitted, n)
                } else {
                    cur.velocity
                }
            },
            None => cur.velocity,
        };
        let ev = Event {
            track: track as u8,
            velocity,
            offset: cur.next_offset as u8,
            lanes: cur.lanes,
            locked: cur.locked,
            velocity_locked: cur.velocity_locked,
        };
        proof {
            assert(ev == hit_event(cur, track as int));
        }
        buf.push(ev);
        cur = ActiveTrain {
            emitted: cur.emitted.wrapping_add(1),
            next_offset: cur.next_offset + cur.interval as i16,
            ..cur
        };
    }
}

impl Sequencer {
    /// Evaluates a trig condition for `track`: `Always`/`Pre`/`Nei` are
    /// transparent, everything else records its result for `Pre`/`Nei`; a
    /// random draw is consumed only by `Percent`. `lc` is the loop count to
    /// evaluate against (a wrapped early examination belongs to the next
    /// loop).
    fn eval_condition(&mut self, track: usize, cond: Condition, lc: u32) -> (r: bool)
        requires
            old(self).wf(),
            track < NUM_TRACKS,
        ensures
            final(self).wf(),
            (final(self)@, r) == eval_cond(old(self)@, track as int, cond, lc),
    {
        let ghost v = self@;
        let (passed, writes): (bool, bool) = match cond {
            Condition::Always => (true, false),
            Condition::Percent(p) => {
                let k = self.rng.next_draw();
                proof {
                    assert(self@ =~= SequencerView { rng: self.rng.state, ..v });
                    assert(self.wf());
                }
                (draw_below(k, p), true)
            },
            Condition::Fill => (self.fill, true),
            Condition::NotFill => (!self.fill, true),
            Condition::Pre => (self.track_state[track].last_cond, false),
            Condition::NotPre => (!self.track_state[track].last_cond, false),
            Condition::Nei => (track > 0 && self.track_state[track - 1].last_cond, false),
            Condition::NotNei => (!(track > 0 && self.track_state[track - 1].last_cond), false),
            Condition::First => (lc == 0, true),
            Condition::NotFirst => (lc > 0, true),
            Condition::Ratio { a, b } => {
                let b2: u8 = if b < 1 {
                    1
                } else if b > 8 {
                    8
                } else {
                    b
                };
                let a2: u8 = if a < 1 {
                    1
                } else if a > b2 {
                    b2
                } else {
                    a
                };
                (lc % (b2 as u32) == (a2 as u32) - 1, true)
            },
        };
        proof {
            assert(self@.tracks == v.tracks);
            if track > 0 {
                assert(self.track_state[track as int - 1].view() == v.tracks[track as int - 1]);
            }
            assert(self.track_state[track as int].view() == v.tracks[track as int]);
        }
        if writes {
            let mut ts = self.track_state[track];
            proof {
                assert(ts.view() == self@.tracks[track as int]);
                assert(track_view_wf(self@.tracks[track as int], track as int));
            }
            ts.last_cond = passed;
            self.set_track(track, ts);
            proof {
                assert(ts.view() =~= TrackView { last_cond: passed, ..self@.tracks[track as int] });
            }
        }
        proof {
            let (v2, p2) = eval_cond(v, track as int, cond, lc);
            assert(p2 == passed);
            assert(self@ =~= v2);
        }
        passed
    }
}

impl Sequencer {
    /// Examines one step for the current window (see `examine_spec`).
    /// Conditions and probability evaluate here, at examination time — in
    /// grid order, even when micro-timing makes the audible order differ.
    fn examine_step(&mut self, track: usize, index: u8, pulled: bool, buf: &mut EventBuf)
        requires
            old(self).wf(),
            old(buf).wf(),
            track < NUM_TRACKS,
            index < MAX_STEPS,
        ensures
            final(self).wf(),
            final(buf).wf(),
            (final(self)@, final(buf).view()) == examine_spec(old(self)@, old(buf).view(), track as int, index as int, pulled),
    {
        let ghost v = self@;
        let step = self.patterns[self.current].tracks[track].steps[index as usize];
        let micro = step.micro();
        if !step.trig || pulled != (micro < 0) {
            return;
        }
        let mut lc = self.track_state[track].loop_count;
        proof {
            assert(self.track_state[track as int].view() == v.tracks[track as int]);
        }
        if pulled && index == 0 {
            lc = lc.wrapping_add(1);
        }
        let passed = self.eval_condition(track, step.condition, lc);
        if !passed {
            return;
        }
        self.fire_step(track, index, pulled, buf);
    }

    /// A passing trig fires (see `fire_spec`).
    #[verifier::spinoff_prover]
    #[verifier::rlimit(40)]
    fn fire_step(&mut self, track: usize, index: u8, pulled: bool, buf: &mut EventBuf)
        requires
            old(self).wf(),
            old(buf).wf(),
            track < NUM_TRACKS,
            index < MAX_STEPS,
            old(self)@.patterns[old(self)@.current].tracks[track as int].steps[index as int].trig,
            pulled == (old(self)@.patterns[old(self)@.current].tracks[track as int].steps[index as int].micro.spec_pulses() < 0),
        ensures
            final(self).wf(),
            final(buf).wf(),
            (final(self)@, final(buf).view()) == fire_spec(old(self)@, old(buf).view(), track as int, index as int, pulled),
    {
        let ghost v1 = self@;
        let step = self.patterns[self.current].tracks[track].steps[index as usize];
        let micro = step.micro();
        let resolved = match self.patterns[self.current].resolve_step(track, index as usize) {
            Some(r) => r,
            None => {
                return;
            },
        };
        let swing: i16 = if index % 2 == 1 {
            self.patterns[self.current].swing_delay()
        } else {
            0
        };
        let offset: i16 = (if pulled {
            24 + micro as i16
        } else {
            micro as i16
        }) + swing;
        let event = Event {
            track: track as u8,
            velocity: resolved.velocity,
            offset: (offset % 24) as u8,
            lanes: resolved.lanes,
            locked: resolved.locked,
            velocity_locked: resolved.velocity_locked,
        };
        let mut ts = self.track_state[track];
        proof {
            assert(ts.view() == v1.tracks[track as int]);
            assert(track_view_wf(v1.tracks[track as int], track as int));
        }
        match ts.train {
            Some(t) => {
                let _ = run_hits_exec(t, track, offset, buf);
            },
            None => {},
        }
        ts.train = None;
        if offset >= 24 {
            ts.pending.push(event);
        } else {
            buf.push(event);
        }
        match step.retrig {
            Some(rt) => {
                let interval = rt.rate.interval();
                let total = match rt.length {
                    RetrigLength::Infinite => None,
                    RetrigLength::Pulses(p) => Some(p.get() / interval + 1),
                };
                let train = ActiveTrain {
                    interval,
                    emitted: 1,
                    total,
                    next_offset: offset + interval as i16,
                    velocity: resolved.velocity,
                    vel_ramp: rt.vel_ramp,
                    lanes: resolved.lanes,
                    locked: resolved.locked,
                    velocity_locked: resolved.velocity_locked,
                };
                proof {
                    assert(train == start_train(rt, offset as int, resolved));
                }
                ts.train = Some(train);
            },
            None => {},
        }
        proof {
            assert forall|k: int| 0 <= k < ts.pending.view().len() implies (#[trigger] ts.pending.view()[k]).offset < 24 && ts.pending.view()[k].track == track by {
                if k < v1.tracks[track as int].pending.len() {
                    assert(ts.pending.view()[k] == v1.tracks[track as int].pending[k]);
                }
            }
        }
        self.set_track(track, ts);
        proof {
            let (vs, os) = fire_spec(v1, old(buf).view(), track as int, index as int, pulled);
            assert(ts.view() =~= vs.tracks[track as int]);
            assert(self@ =~= vs);
        }
    }

    /// Emits the track's train hits that fall inside the current window,
    /// then re-bases the train to the next window (or retires it).
    fn emit_train_hits(&mut self, track: usize, buf: &mut EventBuf)
        requires
            old(self).wf(),
            old(buf).wf(),
            track < NUM_TRACKS,
        ensures
            final(self).wf(),
            final(buf).wf(),
            (final(self)@, final(buf).view()) == (match old(self)@.tracks[track as int].train {
                Some(t) => {
                    let (nt, o) = emit_hits(t, track as int, old(buf).view());
                    (with_track(old(self)@, track as int, TrackView { train: nt, ..old(self)@.tracks[track as int] }), o)
                },
                None => (old(self)@, old(buf).view()),
            }),
    {
        let mut ts = self.track_state[track];
        proof {
            assert(ts.view() == self@.tracks[track as int]);
            assert(track_view_wf(self@.tracks[track as int], track as int));
        }
        match ts.train {
            Some(t) => {
                let t2 = run_hits_exec(t, track, 24, buf);
                let t3 = ActiveTrain { next_offset: t2.next_offset - 24, ..t2 };
                let done = match t3.total {
                    Some(n) => t3.emitted >= n,
                    None => false,
                };
                ts.train = if done {
                    None
                } else {
                    Some(t3)
                };
                self.set_track(track, ts);
                proof {
                    assert(ts.view() =~= TrackView { train: emit_hits(t, track as int, old(buf).view()).0, ..old(self)@.tracks[track as int] });
                }
            },
            None => {},
        }
    }

    /// One track's part of a tick (see `window_spec`).
    #[verifier::rlimit(40)]
    fn track_window(&mut self, i: usize, buf: &mut EventBuf)
        requires
            old(self).wf(),
            old(buf).wf(),
            i < NUM_TRACKS,
        ensures
            final(self).wf(),
            final(buf).wf(),
            (final(self)@, final(buf).view()) == window_spec(old(self)@, old(buf).view(), i as int),
    {
        let ghost v = self@;
        let ghost out0 = buf.view();
        let mut ts = self.track_state[i];
        proof {
            assert(ts.view() == v.tracks[i as int]);
            assert(track_view_wf(v.tracks[i as int], i as int));
        }
        let mut k: u8 = 0;
        while k < ts.pending.len
            invariant
                0 <= k <= ts.pending.len <= 4,
                buf.wf(),
                buf.view() == out_push_all(out0, ts.pending.view().take(k as int)),
            decreases ts.pending.len - k,
        {
            proof {
                assert(ts.pending.view().take(k as int + 1).drop_last() =~= ts.pending.view().take(k as int));
            }
            buf.push(ts.pending.events[k as usize]);
            k += 1;
        }
        proof {
            assert(ts.pending.view().take(ts.pending.len as int) =~= ts.pending.view());
        }
        ts.pending.len = 0;
        let length = self.patterns[self.current].tracks[i].length();
        if ts.playhead >= length {
            ts.playhead = ts.playhead % length;
        }
        let window = ts.playhead;
        self.set_track(i, ts);
        proof {
            assert(ts.view() =~= TrackView { pending: Seq::empty(), playhead: window, ..v.tracks[i as int] });
        }
        self.examine_step(i, window, false, buf);
        self.examine_step(i, (window + 1) % length, true, buf);
        self.emit_train_hits(i, buf);
        let mut ts = self.track_state[i];
        proof {
            assert(ts.view() == self@.tracks[i as int]);
            assert(track_view_wf(self@.tracks[i as int], i as int));
        }
        if ts.playhead + 1 >= length {
            ts.playhead = 0;
            ts.loop_count = ts.loop_count.wrapping_add(1);
        } else {
            ts.playhead = ts.playhead + 1;
        }
        let ghost v4 = self@;
        self.set_track(i, ts);
        proof {
            let t4 = v4.tracks[i as int];
            assert(ts.view() =~= (if t4.playhead + 1 >= length {
                TrackView { playhead: 0, loop_count: u32_wrapping_add(t4.loop_count, 1), ..t4 }
            } else {
                TrackView { playhead: (t4.playhead + 1) as u8, ..t4 }
            }));
        }
    }

    /// Advances one step: at a change boundary applies the next queued
    /// pattern, evaluates the step window under each track's playhead
    /// (tracks in order 0..16), advances the playheads (wrapping per track)
    /// and the master step, and returns the window's events ordered by
    /// offset. While stopped it returns nothing and changes nothing. The
    /// first tick after `play()` evaluates step 0.
    pub fn tick(&mut self) -> (out: TickOutput)
        requires
            old(self).wf(),
        ensures
            final(self).wf(),
            (final(self)@, out@) == tick_spec(old(self)@),
            out@.len() <= MAX_EVENTS_PER_TICK,
    {
        if !self.playing {
            return TickOutput::empty();
        }
        let cl = self.patterns[self.current].effective_change_length();
        if self.master_step % cl == 0 {
            match self.queue.pop_front() {
                Some(id) => {
                    self.current = id.0 as usize;
                    let fresh = TrackState::fresh();
                    self.track_state = vstd::array::array_fill_for_copy_types(fresh);
                    self.master_step = 0;
                    proof {
                        assert(self@.tracks =~= fresh_tracks());
                    }
                },
                None => {},
            }
        }
        let ghost v1 = self@;
        proof {
            assert(v1 =~= boundary_spec(old(self)@));
        }
        let mut buf = EventBuf::new();
        let mut i: usize = 0;
        while i < NUM_TRACKS
            invariant
                0 <= i <= NUM_TRACKS,
                self.wf(),
                buf.wf(),
                (self@, buf.view()) == windows_spec(v1, i as int),
            decreases NUM_TRACKS - i,
        {
            self.track_window(i, &mut buf);
            i += 1;
        }
        self.master_step = self.master_step.wrapping_add(1);
        let out = TickOutput::sorted_from(&buf);
        proof {
            let (v2, pushed) = windows_spec(v1, 16);
            assert(self@ =~= SequencerView { master_step: u32_wrapping_add(v2.master_step, 1), ..v2 });
        }
        out
    }
}
} // verus!
