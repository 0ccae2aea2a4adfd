//! Laws of playback, stated over the abstract tick (`tick_spec`), which
//! `Sequencer::tick` is proved to follow exactly.

use vstd::prelude::*;
use vstd::wrapping::u32_specs::wrapping_add as u32_wrapping_add;
use crate::condition::Condition;
use crate::output::{
    by_offset, lemma_by_offset_ordered, ordered_by_offset_track, out_push, out_push_all, Event, MAX_EVENTS_PER_TICK,
};
use crate::pattern::{swing_delay_spec, Pattern};
use crate::locks::{lemma_resolved_exists, lock_at, lock_or, mask_bit, VELOCITY_DEST};
use crate::retrig::{rate_interval, RetrigLength, RetrigRate};
use crate::rng::{pcg_output, pcg_step, PCG_INC};
use crate::unit::{lemma_draw_extremes, UnitValue, ONE_BITS};
use crate::sequencer::{
    boundary_spec, fresh_track, fresh_tracks, new_view, emit_hits, eval_cond, examine_spec, fire_spec, pend_push, run_hits, start_train, tick_spec,
    track_view_wf, train_done, train_step, train_wf, view_wf, window_spec, windows_spec, with_track, ActiveTrain,
    SequencerView, TrackView,
};
use crate::{MAX_STEPS, NUM_PARAM_LANES, NUM_TRACKS};

verus! {

/// What the library's types keep true of every pattern: track lengths in
/// `1..=128`, micro-timing in `-23..=23`, swing in `50..=80`, a change
/// length of at least one step.
pub open spec fn pattern_valid(p: Pattern) -> bool {
    &&& forall|t: int| 0 <= t < NUM_TRACKS ==> 1 <= #[trigger] p.tracks[t].length.spec_steps() <= 128
    &&& forall|t: int, s: int|
        0 <= t < NUM_TRACKS && 0 <= s < MAX_STEPS ==> -23 <= #[trigger] p.tracks[t].steps[s].micro.spec_pulses() <= 23
    &&& 50 <= p.swing.spec_percent() <= 80
    &&& p.spec_change_length() >= 1
}

/// Every pattern is valid.
pub open spec fn patterns_valid(ps: Seq<Pattern>) -> bool {
    forall|k: int| 0 <= k < ps.len() ==> pattern_valid(#[trigger] ps[k])
}

/// At most `MAX_EVENTS_PER_TICK` events, every one inside the step window
/// and naming one of the 16 tracks.
pub open spec fn events_in_window(out: Seq<Event>) -> bool {
    &&& out.len() <= MAX_EVENTS_PER_TICK
    &&& forall|k: int| 0 <= k < out.len() ==> (#[trigger] out[k]).offset < 24 && out[k].track < NUM_TRACKS
}

/// No step that a track can reach holds a trig with a `Percent` condition.
pub open spec fn no_percent_trigs(p: Pattern) -> bool {
    forall|t: int, s: int|
        0 <= t < NUM_TRACKS && 0 <= s < p.tracks[t].length.spec_steps() ==> !((#[trigger] p.tracks[t].steps[s]).trig
            && p.tracks[t].steps[s].condition is Percent)
}

/// `b` keeps `a`'s patterns, queue, counters and flags; only the PRNG and
/// per-track state may differ.
pub open spec fn same_setup(a: SequencerView, b: SequencerView) -> bool {
    &&& b.patterns == a.patterns
    &&& b.current == a.current
    &&& b.queue == a.queue
    &&& b.master_step == a.master_step
    &&& b.playing == a.playing
    &&& b.fill == a.fill
    &&& b.tracks.len() == a.tracks.len()
}

/// The playhead of a track after its window: the playhead wrapped into the
/// track length, plus one, wrapping to 0 at the length.
pub open spec fn next_playhead(ph: u8, len: u8) -> u8 {
    let w: int = if ph >= len {
        (ph % len) as int
    } else {
        ph as int
    };
    if w + 1 >= len {
        0
    } else {
        (w + 1) as u8
    }
}

/// The loop count of a track after its window: one more when the playhead
/// wraps to 0.
pub open spec fn next_loop_count(ph: u8, len: u8, lc: u32) -> u32 {
    let w: int = if ph >= len {
        (ph % len) as int
    } else {
        ph as int
    };
    if w + 1 >= len {
        u32_wrapping_add(lc, 1)
    } else {
        lc
    }
}

/// Appending in-window events keeps every event in the window.
proof fn lemma_push_ok(out: Seq<Event>, e: Event)
    requires
        events_in_window(out),
        e.offset < 24,
        e.track < NUM_TRACKS,
    ensures
        events_in_window(out_push(out, e)),
{
    if out.len() < 160 {
        assert forall|k: int| 0 <= k < out.push(e).len() implies (#[trigger] out.push(e)[k]).offset < 24 && out.push(e)[k].track
            < NUM_TRACKS by {
            if k < out.len() {
                assert(out.push(e)[k] == out[k]);
            }
        }
    }
}

/// Appending several in-window events keeps every event in the window.
proof fn lemma_push_all_ok(out: Seq<Event>, es: Seq<Event>)
    requires
        events_in_window(out),
        events_in_window(es),
    ensures
        events_in_window(out_push_all(out, es)),
    decreases es.len(),
{
    if es.len() > 0 {
        let init = es.drop_last();
        assert(events_in_window(init)) by {
            assert forall|k: int| 0 <= k < init.len() implies (#[trigger] init[k]).offset < 24 && init[k].track < NUM_TRACKS by {
                assert(init[k] == es[k]);
            }
        }
        lemma_push_all_ok(out, init);
        assert(es.last() == es[es.len() - 1]);
        lemma_push_ok(out_push_all(out, init), es.last());
    }
}

/// Every rate's interval is between 4 and 96 pulses.
proof fn lemma_rate_interval(r: RetrigRate)
    ensures
        4 <= rate_interval(r) <= 96,
{
}

/// Swing between 50% and 80% delays by 0 to 14 pulses.
proof fn lemma_swing_delay(p: u8)
    requires
        50 <= p <= 80,
    ensures
        0 <= swing_delay_spec(p) <= 14,
{
    assert(2450 <= 48 * p + 50 <= 3890);
    assert(24 <= (48 * p + 50) / 100 <= 38) by (nonlinear_arith)
        requires
            2450 <= 48 * p + 50 <= 3890,
    ;
}

/// Emitting a well-formed train's hits before `limit` emits in-window
/// events on the train's track and leaves a well-formed train that is done
/// or has reached `limit` or the window's end.
proof fn lemma_run_hits(t: ActiveTrain, track: int, limit: int, out: Seq<Event>)
    requires
        train_wf(t),
        0 <= track < NUM_TRACKS,
        events_in_window(out),
    ensures
        events_in_window(run_hits(t, track, limit, out).1),
        train_wf(run_hits(t, track, limit, out).0),
        run_hits(t, track, limit, out).0.interval == t.interval,
        !train_done(run_hits(t, track, limit, out).0) ==> run_hits(t, track, limit, out).0.next_offset >= limit
            || run_hits(t, track, limit, out).0.next_offset >= 24,
    decreases (if t.next_offset < 24 {
        24 - t.next_offset
    } else {
        0
    }),
{
    if t.next_offset < limit && t.next_offset < 24 && !train_done(t) && 0 < t.interval <= 96 {
        let ev = crate::sequencer::hit_event(t, track);
        lemma_push_ok(out, ev);
        let t2 = train_step(t);
        assert(train_wf(t2)) by {
            if t.total is Some {
                assert(t.emitted < t.total->0);
            }
        }
        lemma_run_hits(t2, track, limit, out_push(out, ev));
    }
}

/// A window's train hits: in-window events, and a well-formed train (if
/// any is left) re-based to the next window.
proof fn lemma_emit_hits(t: ActiveTrain, track: int, out: Seq<Event>)
    requires
        train_wf(t),
        0 <= track < NUM_TRACKS,
        events_in_window(out),
    ensures
        events_in_window(emit_hits(t, track, out).1),
        emit_hits(t, track, out).0 matches Some(nt) ==> train_wf(nt),
{
    lemma_run_hits(t, track, 24, out);
}

/// Evaluating a condition changes only the PRNG (for `Percent`) and the
/// track's own condition memory.
proof fn lemma_eval_cond(v: SequencerView, track: int, cond: Condition, lc: u32)
    requires
        view_wf(v),
        0 <= track < NUM_TRACKS,
    ensures
        view_wf(eval_cond(v, track, cond, lc).0),
        same_setup(v, eval_cond(v, track, cond, lc).0),
        forall|j: int| 0 <= j < NUM_TRACKS && j != track ==> #[trigger] eval_cond(v, track, cond, lc).0.tracks[j] == v.tracks[j],
        eval_cond(v, track, cond, lc).0.tracks[track] == (TrackView {
            last_cond: eval_cond(v, track, cond, lc).0.tracks[track].last_cond,
            ..v.tracks[track]
        }),
        eval_cond(v, track, cond, lc).0.rng == (if cond is Percent {
            pcg_step(v.rng, PCG_INC)
        } else {
            v.rng
        }),
{
    let v2 = eval_cond(v, track, cond, lc).0;
    assert forall|i: int| 0 <= i < NUM_TRACKS implies track_view_wf(#[trigger] v2.tracks[i], i) by {
        assert(track_view_wf(v.tracks[i], i));
    }
}

/// A firing trig: the track's new state is well formed, events stay in the
/// window, only this track changes, and its playhead and loop count stay.
proof fn lemma_fire(v1: SequencerView, out: Seq<Event>, track: int, index: int, pulled: bool)
    requires
        view_wf(v1),
        pattern_valid(v1.patterns[v1.current]),
        0 <= track < NUM_TRACKS,
        0 <= index < MAX_STEPS,
        events_in_window(out),
        pulled == (v1.patterns[v1.current].tracks[track].steps[index].micro.spec_pulses() < 0),
    ensures
        view_wf(fire_spec(v1, out, track, index, pulled).0),
        same_setup(v1, fire_spec(v1, out, track, index, pulled).0),
        fire_spec(v1, out, track, index, pulled).0.rng == v1.rng,
        events_in_window(fire_spec(v1, out, track, index, pulled).1),
        forall|j: int| 0 <= j < NUM_TRACKS && j != track ==> #[trigger] fire_spec(v1, out, track, index, pulled).0.tracks[j] == v1.tracks[j],
        fire_spec(v1, out, track, index, pulled).0.tracks[track].playhead == v1.tracks[track].playhead,
        fire_spec(v1, out, track, index, pulled).0.tracks[track].loop_count == v1.tracks[track].loop_count,
        fire_spec(v1, out, track, index, pulled).0.tracks[track].pending.len() <= v1.tracks[track].pending.len() + (if index
            % 2 == 1 {
            1int
        } else {
            0int
        }),
{
    let pat = v1.patterns[v1.current];
    let step = pat.tracks[track].steps[index];
    let micro = step.micro.spec_pulses();
    assert(-23 <= micro <= 23);
    lemma_swing_delay(pat.swing.spec_percent());
    let swing = if index % 2 == 1 {
        swing_delay_spec(pat.swing.spec_percent())
    } else {
        0
    };
    let offset: int = (if pulled {
        24 + micro
    } else {
        micro as int
    }) + swing;
    assert(0 <= offset <= 37);
    let r = pat.spec_resolve(track, index);
    let ev = Event {
        track: track as u8,
        velocity: r.velocity,
        offset: (offset % 24) as u8,
        lanes: r.lanes,
        locked: r.locked,
        velocity_locked: r.velocity_locked,
    };
    let ts = v1.tracks[track];
    assert(track_view_wf(ts, track));
    let out1 = match ts.train {
        Some(t) => run_hits(t, track, offset, out).1,
        None => out,
    };
    if let Some(t) = ts.train {
        lemma_run_hits(t, track, offset, out);
    }
    assert(events_in_window(out1));
    if offset < 24 {
        lemma_push_ok(out1, ev);
    }
    let pend = if offset >= 24 {
        pend_push(ts.pending, ev)
    } else {
        ts.pending
    };
    assert forall|k: int| 0 <= k < pend.len() implies (#[trigger] pend[k]).offset < 24 && pend[k].track == track by {
        if k < ts.pending.len() {
            assert(pend[k] == ts.pending[k]);
        }
    }
    if let Some(rt) = step.retrig {
        lemma_rate_interval(rt.rate);
        let nt = start_train(rt, offset, r);
        let iv = rate_interval(rt.rate);
        assert(rt.length matches crate::retrig::RetrigLength::Pulses(p) ==> p.spec_get() / iv <= 16383) by {
            if let crate::retrig::RetrigLength::Pulses(p) = rt.length {
                assert(p.spec_get() / iv <= p.spec_get() / 4) by (nonlinear_arith)
                    requires
                        iv >= 4,
                ;
            }
        }
        assert(train_wf(nt));
    }
    let v2 = fire_spec(v1, out, track, index, pulled).0;
    assert forall|i: int| 0 <= i < NUM_TRACKS implies track_view_wf(#[trigger] v2.tracks[i], i) by {
        assert(track_view_wf(v1.tracks[i], i));
    }
}

/// Examining a step: events stay in the window, only this track (and, for
/// an evaluated `Percent` trig, the PRNG) changes, and the track keeps its
/// playhead and loop count.
proof fn lemma_examine(v: SequencerView, out: Seq<Event>, track: int, index: int, pulled: bool)
    requires
        view_wf(v),
        pattern_valid(v.patterns[v.current]),
        0 <= track < NUM_TRACKS,
        0 <= index < MAX_STEPS,
        events_in_window(out),
    ensures
        view_wf(examine_spec(v, out, track, index, pulled).0),
        same_setup(v, examine_spec(v, out, track, index, pulled).0),
        events_in_window(examine_spec(v, out, track, index, pulled).1),
        forall|j: int| 0 <= j < NUM_TRACKS && j != track ==> #[trigger] examine_spec(v, out, track, index, pulled).0.tracks[j] == v.tracks[j],
        examine_spec(v, out, track, index, pulled).0.tracks[track].playhead == v.tracks[track].playhead,
        examine_spec(v, out, track, index, pulled).0.tracks[track].loop_count == v.tracks[track].loop_count,
        examine_spec(v, out, track, index, pulled).0.tracks[track].pending.len() <= v.tracks[track].pending.len() + (if index
            % 2 == 1 {
            1int
        } else {
            0int
        }),
        !(v.patterns[v.current].tracks[track].steps[index].trig && v.patterns[v.current].tracks[track].steps[index].condition is Percent)
            ==> examine_spec(v, out, track, index, pulled).0.rng == v.rng,
{
    let pat = v.patterns[v.current];
    let step = pat.tracks[track].steps[index];
    let micro = step.micro.spec_pulses();
    if step.trig && pulled == (micro < 0) {
        let lc0 = v.tracks[track].loop_count;
        let lc = if pulled && index == 0 {
            u32_wrapping_add(lc0, 1)
        } else {
            lc0
        };
        lemma_eval_cond(v, track, step.condition, lc);
        let (v1, passed) = eval_cond(v, track, step.condition, lc);
        if passed {
            lemma_fire(v1, out, track, index, pulled);
        }
    }
}

/// Of a step and the next one (wrapping at the track length), at most one
/// has an odd index.
proof fn lemma_one_odd(ph: int, len: int)
    requires
        0 <= ph < len,
    ensures
        ph % 2 == 1 ==> ((ph + 1) % len) % 2 == 0,
{
    if ph + 1 < len {
        vstd::arithmetic::div_mod::lemma_small_mod((ph + 1) as nat, len as nat);
    } else {
        vstd::arithmetic::div_mod::lemma_mod_self_0(len);
    }
}

/// One track's window: events stay in the window, only this track (and the
/// PRNG, when a `Percent` trig is evaluated) changes, and its playhead and
/// loop count advance by one step.
proof fn lemma_window(v: SequencerView, out: Seq<Event>, i: int)
    requires
        view_wf(v),
        pattern_valid(v.patterns[v.current]),
        0 <= i < NUM_TRACKS,
        events_in_window(out),
    ensures
        view_wf(window_spec(v, out, i).0),
        same_setup(v, window_spec(v, out, i).0),
        events_in_window(window_spec(v, out, i).1),
        forall|j: int| 0 <= j < NUM_TRACKS && j != i ==> #[trigger] window_spec(v, out, i).0.tracks[j] == v.tracks[j],
        window_spec(v, out, i).0.tracks[i].playhead == next_playhead(
            v.tracks[i].playhead,
            v.patterns[v.current].tracks[i].length.spec_steps(),
        ),
        window_spec(v, out, i).0.tracks[i].loop_count == next_loop_count(
            v.tracks[i].playhead,
            v.patterns[v.current].tracks[i].length.spec_steps(),
            v.tracks[i].loop_count,
        ),
        no_percent_trigs(v.patterns[v.current]) ==> window_spec(v, out, i).0.rng == v.rng,
        window_spec(v, out, i).0.tracks[i].pending.len() <= 1,
{
    let ts = v.tracks[i];
    assert(track_view_wf(ts, i));
    let out1 = out_push_all(out, ts.pending);
    assert(events_in_window(ts.pending));
    lemma_push_all_ok(out, ts.pending);
    let len = v.patterns[v.current].tracks[i].length.spec_steps();
    assert(1 <= len <= 128);
    let ph: u8 = if ts.playhead >= len {
        (ts.playhead % len) as u8
    } else {
        ts.playhead
    };
    assert(ph < len);
    let v1 = with_track(v, i, TrackView { pending: Seq::empty(), playhead: ph, ..ts });
    assert(view_wf(v1)) by {
        assert forall|j: int| 0 <= j < NUM_TRACKS implies track_view_wf(#[trigger] v1.tracks[j], j) by {
            assert(track_view_wf(v.tracks[j], j));
        }
    }
    lemma_examine(v1, out1, i, ph as int, false);
    let (v2, out2) = examine_spec(v1, out1, i, ph as int, false);
    let nx = ((ph + 1) % (len as int));
    lemma_examine(v2, out2, i, nx, true);
    let (v3, out3) = examine_spec(v2, out2, i, nx, true);
    assert(track_view_wf(v3.tracks[i], i));
    assert(v3.tracks[i].pending.len() <= 1) by {
        assert(v1.tracks[i].pending.len() == 0);
        lemma_one_odd(ph as int, len as int);
    }
    if let Some(t) = v3.tracks[i].train {
        lemma_emit_hits(t, i, out3);
    }
    let v4 = match v3.tracks[i].train {
        Some(t) => with_track(v3, i, TrackView { train: emit_hits(t, i, out3).0, ..v3.tracks[i] }),
        None => v3,
    };
    assert(view_wf(v4)) by {
        assert forall|j: int| 0 <= j < NUM_TRACKS implies track_view_wf(#[trigger] v4.tracks[j], j) by {
            assert(track_view_wf(v3.tracks[j], j));
        }
    }
    let v5 = window_spec(v, out, i).0;
    assert forall|j: int| 0 <= j < NUM_TRACKS implies track_view_wf(#[trigger] v5.tracks[j], j) by {
        assert(track_view_wf(v4.tracks[j], j));
    }
    if no_percent_trigs(v.patterns[v.current]) {
        assert(!(v.patterns[v.current].tracks[i].steps[ph as int].trig && v.patterns[v.current].tracks[i].steps[ph as int].condition is Percent));
        assert(!(v.patterns[v.current].tracks[i].steps[nx].trig && v.patterns[v.current].tracks[i].steps[nx].condition is Percent));
    }
}

/// The first `n` windows: events stay in the window, each of those tracks
/// advances by one step, the remaining tracks are untouched, and without
/// `Percent` trigs the PRNG is untouched.
proof fn lemma_windows(v: SequencerView, n: int)
    requires
        view_wf(v),
        pattern_valid(v.patterns[v.current]),
        0 <= n <= NUM_TRACKS,
    ensures
        view_wf(windows_spec(v, n).0),
        same_setup(v, windows_spec(v, n).0),
        events_in_window(windows_spec(v, n).1),
        forall|j: int| n <= j < NUM_TRACKS ==> #[trigger] windows_spec(v, n).0.tracks[j] == v.tracks[j],
        forall|j: int|
            0 <= j < n ==> (#[trigger] windows_spec(v, n).0.tracks[j]).playhead == next_playhead(
                v.tracks[j].playhead,
                v.patterns[v.current].tracks[j].length.spec_steps(),
            ) && windows_spec(v, n).0.tracks[j].loop_count == next_loop_count(
                v.tracks[j].playhead,
                v.patterns[v.current].tracks[j].length.spec_steps(),
                v.tracks[j].loop_count,
            ),
        forall|j: int| 0 <= j < n ==> (#[trigger] windows_spec(v, n).0.tracks[j]).pending.len() <= 1,
        no_percent_trigs(v.patterns[v.current]) ==> windows_spec(v, n).0.rng == v.rng,
    decreases n,
{
    if n > 0 {
        lemma_windows(v, n - 1);
        let (w, o) = windows_spec(v, n - 1);
        lemma_window(w, o, n - 1);
    }
}

/// While the transport is stopped a tick emits nothing and changes nothing.
pub proof fn lemma_stopped_tick(v: SequencerView)
    requires
        !v.playing,
    ensures
        tick_spec(v) == (v, Seq::<Event>::empty()),
{
}

/// A tick emits at most `MAX_EVENTS_PER_TICK` events; they all lie inside
/// the step window (offsets `0..24`), name one of the 16 tracks, and come
/// ordered by offset and then by track; they are exactly the events the
/// tracks' windows produced, reordered.
pub proof fn lemma_tick_output_ordered(v: SequencerView)
    requires
        view_wf(v),
        patterns_valid(v.patterns),
    ensures
        events_in_window(tick_spec(v).1),
        ordered_by_offset_track(tick_spec(v).1),
        v.playing ==> tick_spec(v).1.to_multiset() == windows_spec(boundary_spec(v), 16).1.to_multiset(),
{
    if v.playing {
        let v1 = boundary_spec(v);
        lemma_boundary_wf(v);
        lemma_windows(v1, 16);
        let pushed = windows_spec(v1, 16).1;
        lemma_by_offset_ordered(pushed);
        crate::output::lemma_by_offset_keeps_all(pushed);
        crate::output::by_key_len(pushed, true, 256);
        crate::output::by_key_len(crate::output::by_key_upto(pushed, true, 256), false, 256);
        assert forall|k: int| 0 <= k < by_offset(pushed).len() implies (#[trigger] by_offset(pushed)[k]).offset < 24
            && by_offset(pushed)[k].track < NUM_TRACKS by {
            let x = by_offset(pushed)[k];
            assert(pushed.contains(x));
            let q = choose|q: int| 0 <= q < pushed.len() && pushed[q] == x;
            assert(pushed[q].offset < 24);
        }
    }
}

/// The state after a change boundary is well formed.
proof fn lemma_boundary_wf(v: SequencerView)
    requires
        view_wf(v),
    ensures
        view_wf(boundary_spec(v)),
        boundary_spec(v).patterns == v.patterns,
        boundary_spec(v).fill == v.fill,
        boundary_spec(v).playing == v.playing,
        boundary_spec(v).rng == v.rng,
{
    let v1 = boundary_spec(v);
    if v1 != v {
        assert(v.queue[0].0 < v.patterns.len());
        assert forall|k: int| 0 <= k < v1.queue.len() implies (#[trigger] v1.queue[k]).0 < v1.patterns.len() by {
            assert(v1.queue[k] == v.queue[k + 1]);
        }
        assert forall|j: int| 0 <= j < NUM_TRACKS implies track_view_wf(#[trigger] v1.tracks[j], j) by {}
    }
}

/// After a playing tick every track holds at most one event spilled into
/// the next window (only an odd-indexed step can be swung past the window,
/// and of the two steps a window examines at most one is odd), well below
/// the pending buffer's capacity of four: spilled events are never dropped.
pub proof fn lemma_tick_spills_bounded(v: SequencerView)
    requires
        view_wf(v),
        patterns_valid(v.patterns),
        v.playing,
    ensures
        forall|j: int| 0 <= j < NUM_TRACKS ==> (#[trigger] tick_spec(v).0.tracks[j]).pending.len() <= 1,
{
    lemma_boundary_wf(v);
    lemma_windows(boundary_spec(v), 16);
}

/// A tick never edits the patterns, the fill flag or the transport; it
/// either keeps the queue and the current pattern, or (at a change boundary)
/// makes the head of the queue current and drops it from the queue.
pub proof fn lemma_tick_keeps_setup(v: SequencerView)
    requires
        view_wf(v),
        patterns_valid(v.patterns),
    ensures
        tick_spec(v).0.patterns == v.patterns,
        tick_spec(v).0.fill == v.fill,
        tick_spec(v).0.playing == v.playing,
        (tick_spec(v).0.current == v.current && tick_spec(v).0.queue == v.queue) || (v.queue.len() > 0
            && tick_spec(v).0.current == v.queue[0].0 && tick_spec(v).0.queue == v.queue.subrange(1, v.queue.len() as int)),
        view_wf(tick_spec(v).0),
{
    if v.playing {
        lemma_boundary_wf(v);
        let v1 = boundary_spec(v);
        lemma_windows(v1, 16);
    }
}

/// On every playing tick each track's playhead moves one step on from where
/// it stood after the change boundary (wrapped into the track's length
/// first), wrapping to 0 at the track's length and then counting a loop;
/// the master step advances by one.
pub proof fn lemma_tick_advances_playheads(v: SequencerView)
    requires
        view_wf(v),
        patterns_valid(v.patterns),
        v.playing,
    ensures
        forall|j: int|
            0 <= j < NUM_TRACKS ==> (#[trigger] tick_spec(v).0.tracks[j]).playhead == next_playhead(
                boundary_spec(v).tracks[j].playhead,
                v.patterns[boundary_spec(v).current].tracks[j].length.spec_steps(),
            ) && tick_spec(v).0.tracks[j].loop_count == next_loop_count(
                boundary_spec(v).tracks[j].playhead,
                v.patterns[boundary_spec(v).current].tracks[j].length.spec_steps(),
                boundary_spec(v).tracks[j].loop_count,
            ),
        tick_spec(v).0.master_step == u32_wrapping_add(boundary_spec(v).master_step, 1),
{
    lemma_boundary_wf(v);
    lemma_windows(boundary_spec(v), 16);
}

/// The PRNG advances only for evaluated `Percent` trigs: when the pattern
/// that plays this tick has none on any reachable step, the PRNG state is
/// unchanged.
pub proof fn lemma_tick_without_percent_keeps_rng(v: SequencerView)
    requires
        view_wf(v),
        patterns_valid(v.patterns),
        no_percent_trigs(v.patterns[boundary_spec(v).current]),
    ensures
        tick_spec(v).0.rng == v.rng,
{
    if v.playing {
        lemma_boundary_wf(v);
        lemma_windows(boundary_spec(v), 16);
    }
}

/// A change queued before the first tick after `play()` (master step 0 is a
/// boundary) applies on that tick: the head of the queue plays, from fresh
/// positional state, with the PRNG and fill flag carried over.
pub proof fn lemma_queued_change_applies_at_step_zero(v: SequencerView)
    requires
        view_wf(v),
        patterns_valid(v.patterns),
        v.master_step == 0,
        v.queue.len() > 0,
    ensures
        boundary_spec(v).current == v.queue[0].0,
        boundary_spec(v).queue == v.queue.subrange(1, v.queue.len() as int),
        boundary_spec(v).tracks == crate::sequencer::fresh_tracks(),
        boundary_spec(v).master_step == 0,
        boundary_spec(v).rng == v.rng,
        boundary_spec(v).fill == v.fill,
{
    let cl = v.patterns[v.current].spec_change_length();
    assert(cl >= 1);
    assert(0u32 % cl == 0) by (nonlinear_arith)
        requires
            cl >= 1,
    ;
}

/// The states and outputs of `n` successive ticks.
pub open spec fn run_ticks(v: SequencerView, n: nat) -> (SequencerView, Seq<Seq<Event>>)
    decreases n,
{
    if n == 0 {
        (v, Seq::empty())
    } else {
        let (w, outs) = run_ticks(v, (n - 1) as nat);
        let (w2, o) = tick_spec(w);
        (w2, outs.push(o))
    }
}

/// Replaying a take: two sequencers that differ at most in their PRNG state
/// produce identical output, tick for tick, once both are reseeded with the
/// same seed.
pub proof fn lemma_reseed_replays(a: SequencerView, b: SequencerView, seed: u64, n: nat)
    requires
        (SequencerView { rng: 0, ..a }) == (SequencerView { rng: 0, ..b }),
    ensures
        run_ticks(SequencerView { rng: crate::rng::pcg_seeded_state(seed), ..a }, n).1 == run_ticks(
            SequencerView { rng: crate::rng::pcg_seeded_state(seed), ..b },
            n,
        ).1,
{
    assert((SequencerView { rng: crate::rng::pcg_seeded_state(seed), ..a }) == (SequencerView {
        rng: crate::rng::pcg_seeded_state(seed),
        ..b
    })) by {
        assert(a.tracks == (SequencerView { rng: 0, ..a }).tracks);
        assert(b.tracks == (SequencerView { rng: 0, ..b }).tracks);
    }
}

/// The state `seed(seed)` followed by `play()` leaves behind: the PRNG
/// seeded, the transport running, every track back at step 0 with fresh
/// state.
pub open spec fn seeded_take(v: SequencerView, seed: u64) -> SequencerView {
    SequencerView {
        rng: crate::rng::pcg_seeded_state(seed),
        playing: true,
        tracks: fresh_tracks(),
        master_step: 0,
        ..v
    }
}

/// Reseeding and pressing play replays a take: two states holding the same
/// patterns, current pattern, queue and fill flag — whatever their PRNG,
/// transport and playheads — give the same states and outputs, tick for
/// tick, after `seed(seed)` and `play()`.
pub proof fn lemma_seed_play_replays(a: SequencerView, b: SequencerView, seed: u64, n: nat)
    requires
        a.patterns == b.patterns,
        a.current == b.current,
        a.queue == b.queue,
        a.fill == b.fill,
    ensures
        run_ticks(seeded_take(a, seed), n) == run_ticks(seeded_take(b, seed), n),
{
    assert(seeded_take(a, seed) == seeded_take(b, seed));
}

/// With nothing queued, ticking keeps the patterns, the current pattern, the
/// empty queue and the fill flag, and keeps the state well formed.
proof fn lemma_run_keeps_setup(v: SequencerView, m: nat)
    requires
        view_wf(v),
        patterns_valid(v.patterns),
        v.queue.len() == 0,
    ensures
        view_wf(run_ticks(v, m).0),
        run_ticks(v, m).0.patterns == v.patterns,
        run_ticks(v, m).0.current == v.current,
        run_ticks(v, m).0.queue == v.queue,
        run_ticks(v, m).0.fill == v.fill,
    decreases m,
{
    if m > 0 {
        lemma_run_keeps_setup(v, (m - 1) as nat);
        lemma_tick_keeps_setup(run_ticks(v, (m - 1) as nat).0);
    }
}

/// A take can be played again: with no pattern change queued, reseeding
/// with the same seed and pressing play after any number `m` of ticks gives
/// the first take's output again, tick for tick.
pub proof fn lemma_retake_replays(v: SequencerView, seed: u64, m: nat, n: nat)
    requires
        view_wf(v),
        patterns_valid(v.patterns),
        v.queue.len() == 0,
    ensures
        run_ticks(seeded_take(run_ticks(seeded_take(v, seed), m).0, seed), n).1 == run_ticks(
            seeded_take(v, seed),
            n,
        ).1,
{
    let t = seeded_take(v, seed);
    assert forall|i: int| 0 <= i < NUM_TRACKS implies track_view_wf(#[trigger] t.tracks[i], i) by {
        assert(t.tracks[i] == fresh_track());
    }
    lemma_run_keeps_setup(t, m);
    lemma_seed_play_replays(run_ticks(t, m).0, v, seed, n);
}

/// Two patterns play alike: the same tracks, swing and change length, and
/// lock pools holding the same slots in the same order.
pub open spec fn patterns_alike(p: Pattern, q: Pattern) -> bool {
    &&& p.tracks == q.tracks
    &&& p.swing == q.swing
    &&& p.change_length == q.change_length
    &&& p.locks.lanes() == q.locks.lanes()
}

/// Two states are alike: equal in everything but the patterns, which play
/// alike pairwise.
pub open spec fn views_alike(a: SequencerView, b: SequencerView) -> bool {
    &&& a.patterns.len() == b.patterns.len()
    &&& forall|k: int| 0 <= k < a.patterns.len() ==> patterns_alike(#[trigger] a.patterns[k], b.patterns[k])
    &&& (SequencerView { patterns: b.patterns, ..a }) == b
}

/// Alike states agree on every field but the patterns, and on what the
/// current pattern plays.
proof fn lemma_alike_fields(a: SequencerView, b: SequencerView)
    requires
        views_alike(a, b),
        0 <= a.current < a.patterns.len(),
    ensures
        a.current == b.current,
        a.queue == b.queue,
        a.master_step == b.master_step,
        a.playing == b.playing,
        a.fill == b.fill,
        a.rng == b.rng,
        a.tracks == b.tracks,
        patterns_alike(a.patterns[a.current], b.patterns[b.current]),
{
    let c = SequencerView { patterns: b.patterns, ..a };
    assert(c.current == b.current && c.queue == b.queue && c.master_step == b.master_step);
    assert(c.playing == b.playing && c.fill == b.fill && c.rng == b.rng && c.tracks == b.tracks);
}

/// The same edit of the playback fields keeps two states alike.
proof fn lemma_alike_edit(a: SequencerView, b: SequencerView, e: SequencerView)
    requires
        views_alike(a, b),
    ensures
        views_alike(SequencerView { patterns: a.patterns, ..e }, SequencerView { patterns: b.patterns, ..e }),
{
}

/// Evaluating a condition on alike states gives alike states and the same
/// verdict.
proof fn lemma_alike_eval_cond(a: SequencerView, b: SequencerView, track: int, cond: Condition, lc: u32)
    requires
        views_alike(a, b),
        0 <= a.current < a.patterns.len(),
    ensures
        views_alike(eval_cond(a, track, cond, lc).0, eval_cond(b, track, cond, lc).0),
        eval_cond(a, track, cond, lc).1 == eval_cond(b, track, cond, lc).1,
{
    lemma_alike_fields(a, b);
    let ra = eval_cond(a, track, cond, lc).0;
    lemma_alike_edit(a, b, ra);
    assert(ra == (SequencerView { patterns: a.patterns, ..ra }));
    assert(eval_cond(b, track, cond, lc).0 == (SequencerView { patterns: b.patterns, ..ra }));
}

/// A fired step gives the same events and alike states.
proof fn lemma_alike_fire(a: SequencerView, b: SequencerView, out: Seq<Event>, track: int, index: int, pulled: bool)
    requires
        views_alike(a, b),
        0 <= a.current < a.patterns.len(),
    ensures
        views_alike(fire_spec(a, out, track, index, pulled).0, fire_spec(b, out, track, index, pulled).0),
        fire_spec(a, out, track, index, pulled).1 == fire_spec(b, out, track, index, pulled).1,
{
    lemma_alike_fields(a, b);
    let ra = fire_spec(a, out, track, index, pulled).0;
    lemma_alike_edit(a, b, ra);
    assert(ra == (SequencerView { patterns: a.patterns, ..ra }));
    assert(fire_spec(b, out, track, index, pulled).0 == (SequencerView { patterns: b.patterns, ..ra }));
}

/// Examining a step gives the same events and alike states.
proof fn lemma_alike_examine(a: SequencerView, b: SequencerView, out: Seq<Event>, track: int, index: int, pulled: bool)
    requires
        views_alike(a, b),
        0 <= a.current < a.patterns.len(),
    ensures
        views_alike(examine_spec(a, out, track, index, pulled).0, examine_spec(b, out, track, index, pulled).0),
        examine_spec(a, out, track, index, pulled).1 == examine_spec(b, out, track, index, pulled).1,
{
    lemma_alike_fields(a, b);
    let pat = a.patterns[a.current];
    let step = pat.tracks[track].steps[index];
    if step.trig && pulled == (step.micro.spec_pulses() < 0) {
        let lc0 = a.tracks[track].loop_count;
        let lc = if pulled && index == 0 {
            u32_wrapping_add(lc0, 1)
        } else {
            lc0
        };
        lemma_alike_eval_cond(a, b, track, step.condition, lc);
        let (a1, passed) = eval_cond(a, track, step.condition, lc);
        let b1 = eval_cond(b, track, step.condition, lc).0;
        if passed {
            lemma_alike_fire(a1, b1, out, track, index, pulled);
        }
    }
}

/// A track's window gives the same events and alike states.
#[verifier::spinoff_prover]
#[verifier::rlimit(40)]
proof fn lemma_alike_window(a: SequencerView, b: SequencerView, out: Seq<Event>, i: int)
    requires
        views_alike(a, b),
        0 <= a.current < a.patterns.len(),
    ensures
        views_alike(window_spec(a, out, i).0, window_spec(b, out, i).0),
        window_spec(a, out, i).1 == window_spec(b, out, i).1,
{
    lemma_alike_fields(a, b);
    let ts = a.tracks[i];
    let out1 = out_push_all(out, ts.pending);
    let len = a.patterns[a.current].tracks[i].length.spec_steps();
    let ph: u8 = if ts.playhead >= len {
        (ts.playhead % len) as u8
    } else {
        ts.playhead
    };
    let t1 = TrackView { pending: Seq::empty(), playhead: ph, ..ts };
    let a1 = with_track(a, i, t1);
    let b1 = with_track(b, i, t1);
    lemma_alike_edit(a, b, a1);
    assert(a1 == (SequencerView { patterns: a.patterns, ..a1 }));
    assert(b1 == (SequencerView { patterns: b.patterns, ..a1 }));
    lemma_alike_examine(a1, b1, out1, i, ph as int, false);
    let (a2, out2) = examine_spec(a1, out1, i, ph as int, false);
    let b2 = examine_spec(b1, out1, i, ph as int, false).0;
    lemma_alike_examine(a2, b2, out2, i, ((ph + 1) % (len as int)), true);
    let (a3, out3) = examine_spec(a2, out2, i, ((ph + 1) % (len as int)), true);
    let b3 = examine_spec(b2, out2, i, ((ph + 1) % (len as int)), true).0;
    lemma_alike_fields(a3, b3);
    let (a4, out4) = match a3.tracks[i].train {
        Some(t) => {
            let (nt, o) = emit_hits(t, i, out3);
            (with_track(a3, i, TrackView { train: nt, ..a3.tracks[i] }), o)
        },
        None => (a3, out3),
    };
    let b4 = match b3.tracks[i].train {
        Some(t) => {
            let (nt, o) = emit_hits(t, i, out3);
            with_track(b3, i, TrackView { train: nt, ..b3.tracks[i] })
        },
        None => b3,
    };
    lemma_alike_edit(a3, b3, a4);
    assert(a4 == (SequencerView { patterns: a3.patterns, ..a4 }));
    assert(b4 == (SequencerView { patterns: b3.patterns, ..a4 }));
    lemma_alike_fields(a4, b4);
    let t4 = a4.tracks[i];
    let t5 = if t4.playhead + 1 >= len {
        TrackView { playhead: 0, loop_count: u32_wrapping_add(t4.loop_count, 1), ..t4 }
    } else {
        TrackView { playhead: (t4.playhead + 1) as u8, ..t4 }
    };
    let a5 = with_track(a4, i, t5);
    lemma_alike_edit(a4, b4, a5);
    assert(a5 == (SequencerView { patterns: a4.patterns, ..a5 }));
    assert(with_track(b4, i, t5) == (SequencerView { patterns: b4.patterns, ..a5 }));
}

/// The first `n` windows give the same events and alike states.
proof fn lemma_alike_windows(a: SequencerView, b: SequencerView, n: int)
    requires
        views_alike(a, b),
        0 <= a.current < a.patterns.len(),
    ensures
        views_alike(windows_spec(a, n).0, windows_spec(b, n).0),
        windows_spec(a, n).1 == windows_spec(b, n).1,
        windows_spec(a, n).0.patterns == a.patterns,
        windows_spec(a, n).0.current == a.current,
    decreases n,
{
    if n > 0 {
        lemma_alike_windows(a, b, n - 1);
        let (wa, o) = windows_spec(a, n - 1);
        let wb = windows_spec(b, n - 1).0;
        lemma_alike_window(wa, wb, o, n - 1);
        lemma_windows_keep_patterns(wa, o, n - 1);
    }
}

/// A track's window changes neither the patterns nor the current pattern.
proof fn lemma_windows_keep_patterns(v: SequencerView, out: Seq<Event>, i: int)
    ensures
        window_spec(v, out, i).0.patterns == v.patterns,
        window_spec(v, out, i).0.current == v.current,
{
}

/// Alike states tick alike: the same events, and alike states after.
proof fn lemma_alike_tick(a: SequencerView, b: SequencerView)
    requires
        views_alike(a, b),
        view_wf(a),
    ensures
        views_alike(tick_spec(a).0, tick_spec(b).0),
        tick_spec(a).1 == tick_spec(b).1,
{
    lemma_alike_fields(a, b);
    if a.playing {
        let a1 = boundary_spec(a);
        let b1 = boundary_spec(b);
        lemma_alike_edit(a, b, a1);
        assert(a1 == (SequencerView { patterns: a.patterns, ..a1 }));
        assert(b1 == (SequencerView { patterns: b.patterns, ..a1 }));
        assert(0 <= a1.current < a1.patterns.len());
        lemma_alike_windows(a1, b1, 16);
        let (a2, pushed) = windows_spec(a1, 16);
        let b2 = windows_spec(b1, 16).0;
        let a3 = SequencerView { master_step: u32_wrapping_add(a2.master_step, 1), ..a2 };
        lemma_alike_fields(a2, b2);
        lemma_alike_edit(a2, b2, a3);
        assert(a3 == (SequencerView { patterns: a2.patterns, ..a3 }));
        assert(tick_spec(b).0 == (SequencerView { patterns: b2.patterns, ..a3 }));
    }
}

/// Playback reads the patterns only for what they play: two states alike
/// (equal but for patterns that hold the same tracks, swing, change length
/// and lock slots) give the same output tick for tick, and stay alike.
pub proof fn lemma_alike_states_play_alike(a: SequencerView, b: SequencerView, n: nat)
    requires
        views_alike(a, b),
        view_wf(a),
        patterns_valid(a.patterns),
    ensures
        run_ticks(a, n).1 == run_ticks(b, n).1,
        views_alike(run_ticks(a, n).0, run_ticks(b, n).0),
    decreases n,
{
    if n > 0 {
        let m = (n - 1) as nat;
        lemma_alike_states_play_alike(a, b, m);
        lemma_run_keeps_valid(a, m);
        lemma_alike_tick(run_ticks(a, m).0, run_ticks(b, m).0);
    }
}

/// Ticking keeps the state well formed and the patterns as they are.
proof fn lemma_run_keeps_valid(v: SequencerView, m: nat)
    requires
        view_wf(v),
        patterns_valid(v.patterns),
    ensures
        view_wf(run_ticks(v, m).0),
        run_ticks(v, m).0.patterns == v.patterns,
    decreases m,
{
    if m > 0 {
        lemma_run_keeps_valid(v, (m - 1) as nat);
        lemma_tick_keeps_setup(run_ticks(v, (m - 1) as nat).0);
    }
}

/// Two sequencers created with the same seed are alike, so they play alike:
/// fed the same ticks they give identical output.
pub proof fn lemma_new_sequencers_alike(a: SequencerView, b: SequencerView, seed: u64)
    requires
        new_view(a, seed),
        new_view(b, seed),
    ensures
        views_alike(a, b),
{
    let p = a.patterns[0];
    let q = b.patterns[0];
    assert(p.tracks =~= q.tracks) by {
        assert forall|i: int| 0 <= i < NUM_TRACKS implies p.tracks[i] == q.tracks[i] by {
            crate::track::lemma_default_track_unique(p.tracks[i], q.tracks[i]);
        }
    }
    crate::pattern::Swing::lemma_percent_eq(p.swing, q.swing);
    assert(p.locks.lanes() =~= q.locks.lanes());
    assert(a.queue =~= b.queue);
    assert((SequencerView { patterns: b.patterns, ..a }) == b);
}

/// A tick that switches patterns restarts the master step count: when the
/// master step is a multiple of the current pattern's change length and a
/// change is queued, the head of the queue becomes current, leaves the
/// queue, and the tick ends with the master step at 1 — whatever it was.
pub proof fn lemma_switch_restarts_master_step(v: SequencerView)
    requires
        view_wf(v),
        patterns_valid(v.patterns),
        v.playing,
        v.queue.len() > 0,
        v.master_step % v.patterns[v.current].spec_change_length() == 0,
    ensures
        tick_spec(v).0.current == v.queue[0].0 as int,
        tick_spec(v).0.queue == v.queue.subrange(1, v.queue.len() as int),
        tick_spec(v).0.master_step == 1,
        forall|j: int|
            0 <= j < NUM_TRACKS ==> (#[trigger] tick_spec(v).0.tracks[j]).playhead == next_playhead(
                0,
                v.patterns[v.queue[0].0 as int].tracks[j].length.spec_steps(),
            ) && tick_spec(v).0.tracks[j].loop_count == next_loop_count(
                0,
                v.patterns[v.queue[0].0 as int].tracks[j].length.spec_steps(),
                0,
            ),
        tick_spec(v).0.rng == v.rng || !no_percent_trigs(v.patterns[v.queue[0].0 as int]),
        tick_spec(v).0.fill == v.fill,
{
    lemma_boundary_wf(v);
    lemma_windows(boundary_spec(v), 16);
}

/// A tick that does not switch patterns counts the master step on by one
/// and keeps the current pattern and the queue.
pub proof fn lemma_tick_counts_master_step(v: SequencerView)
    requires
        view_wf(v),
        patterns_valid(v.patterns),
        v.playing,
        !(v.queue.len() > 0 && v.master_step % v.patterns[v.current].spec_change_length() == 0),
    ensures
        tick_spec(v).0.current == v.current,
        tick_spec(v).0.queue == v.queue,
        tick_spec(v).0.master_step == u32_wrapping_add(v.master_step, 1),
{
    lemma_boundary_wf(v);
    lemma_windows(boundary_spec(v), 16);
}

/// A pattern that a queued change makes current plays its whole change
/// length: for the `m`-th tick after the switch, `m` below the new pattern's
/// change length, it is still current and the master step stands at `m + 1`;
/// so the next change boundary falls exactly one change length after the
/// switch.
pub proof fn lemma_switch_plays_full_change_length(v: SequencerView, m: nat)
    requires
        view_wf(v),
        patterns_valid(v.patterns),
        v.playing,
        v.queue.len() > 0,
        v.master_step % v.patterns[v.current].spec_change_length() == 0,
        m < v.patterns[v.queue[0].0 as int].spec_change_length(),
    ensures
        run_ticks(tick_spec(v).0, m).0.current == v.queue[0].0 as int,
        run_ticks(tick_spec(v).0, m).0.master_step == m + 1,
        run_ticks(tick_spec(v).0, m).0.playing,
    decreases m,
{
    lemma_switch_restarts_master_step(v);
    lemma_tick_keeps_setup(v);
    let w = tick_spec(v).0;
    if m > 0 {
        let k = (m - 1) as nat;
        lemma_switch_plays_full_change_length(v, k);
        lemma_run_keeps_valid(w, k);
        let u = run_ticks(w, k).0;
        let cl = u.patterns[u.current].spec_change_length();
        assert(pattern_valid(u.patterns[u.current]));
        assert(u.master_step % cl != 0) by {
            vstd::arithmetic::div_mod::lemma_small_mod((k + 1) as nat, cl as nat);
        }
        lemma_tick_counts_master_step(u);
        lemma_tick_keeps_setup(u);
        assert(u32_wrapping_add(u.master_step, 1) == m + 1);
    }
}

/// An `a:b` ratio trig passes on the `a`-th of every `b` loops: for
/// `1 <= a <= b <= 8`, evaluating `Ratio { a, b }` at loop count `lc` passes
/// exactly when `lc % b == a - 1`, records that verdict for `Pre`/`Nei`, and
/// draws nothing from the PRNG.
pub proof fn lemma_ratio_condition(v: SequencerView, track: int, a: u8, b: u8, lc: u32)
    requires
        1 <= a <= b <= 8,
        0 <= track < v.tracks.len(),
    ensures
        eval_cond(v, track, Condition::Ratio { a, b }, lc).1 == (lc as int % b as int == a as int - 1),
        eval_cond(v, track, Condition::Ratio { a, b }, lc).0.tracks[track].last_cond == (lc as int % b as int
            == a as int - 1),
        eval_cond(v, track, Condition::Ratio { a, b }, lc).0.rng == v.rng,
{
}

/// A ratio trig on the step under the playhead fires only on its loops: the
/// track records `lc % b == a - 1` (with `lc` the track's loop count) as the
/// step's verdict, and on the other loops the step adds nothing to the
/// output.
pub proof fn lemma_ratio_step(v: SequencerView, out: Seq<Event>, track: int, index: int, a: u8, b: u8)
    requires
        view_wf(v),
        0 <= track < NUM_TRACKS,
        0 <= index < MAX_STEPS,
        1 <= a <= b <= 8,
        v.patterns[v.current].tracks[track].steps[index].trig,
        v.patterns[v.current].tracks[track].steps[index].micro.spec_pulses() >= 0,
        v.patterns[v.current].tracks[track].steps[index].condition == (Condition::Ratio { a, b }),
    ensures
        examine_spec(v, out, track, index, false).0.tracks[track].last_cond == (v.tracks[track].loop_count as int
            % b as int == a as int - 1),
        !(v.tracks[track].loop_count as int % b as int == a as int - 1) ==> examine_spec(v, out, track, index, false).1
            == out,
{
    lemma_ratio_condition(v, track, a, b, v.tracks[track].loop_count);
}

/// The pulse at which the trig on step `index` of `track` of `p` lands in
/// the window that examines it: its micro-timing (a pulled step, examined in
/// the window before its own, lands 24 pulses later), plus the swing delay
/// on odd steps.
pub open spec fn trig_pulse(p: Pattern, track: int, index: int, pulled: bool) -> int {
    let micro = p.tracks[track].steps[index].micro.spec_pulses() as int;
    (if pulled {
        24 + micro
    } else {
        micro
    }) + (if index % 2 == 1 {
        swing_delay_spec(p.swing.spec_percent())
    } else {
        0
    })
}

/// A fired retrig trig starts its train from itself: the trig's own event
/// is hit 0, the next hit comes one interval after the trig's pulse (its
/// micro-timing and swing included), the train runs for the retrig's length,
/// and it ramps from the trig's velocity — the velocity lock when one is
/// set, else the track default. The trig's event (emitted, or spilled into
/// the next window) carries that same velocity at that pulse.
pub proof fn lemma_fired_retrig_starts_train(v: SequencerView, out: Seq<Event>, track: int, index: int, pulled: bool)
    requires
        view_wf(v),
        patterns_valid(v.patterns),
        0 <= track < NUM_TRACKS,
        0 <= index < MAX_STEPS,
        v.patterns[v.current].tracks[track].steps[index].retrig is Some,
    ensures
        ({
            let p = v.patterns[v.current];
            let rt = p.tracks[track].steps[index].retrig->0;
            let iv = rate_interval(rt.rate);
            let off = trig_pulse(p, track, index, pulled);
            let w = fire_spec(v, out, track, index, pulled).0;
            let o = fire_spec(v, out, track, index, pulled).1;
            let vel = lock_or(lock_at(p.locks.lanes(), track as u8, index, VELOCITY_DEST), p.tracks[track].defaults.velocity);
            &&& w.tracks[track].train is Some
            &&& w.tracks[track].train->0.interval == iv
            &&& w.tracks[track].train->0.emitted == 1
            &&& w.tracks[track].train->0.next_offset == off + iv
            &&& w.tracks[track].train->0.total == (match rt.length {
                RetrigLength::Infinite => None,
                RetrigLength::Pulses(q) => Some((q.spec_get() / iv + 1) as u16),
            })
            &&& w.tracks[track].train->0.velocity == vel
            &&& w.tracks[track].train->0.velocity_locked == lock_at(p.locks.lanes(), track as u8, index, VELOCITY_DEST) is Some
            &&& w.tracks[track].train->0.vel_ramp == rt.vel_ramp
            &&& forall|i: int| 0 <= i < NUM_PARAM_LANES ==> #[trigger] w.tracks[track].train->0.lanes[i] == lock_or(
                lock_at(p.locks.lanes(), track as u8, index, i as u8),
                p.tracks[track].defaults.lanes[i],
            )
            &&& forall|i: u64| i < 64 ==> #[trigger] mask_bit(w.tracks[track].train->0.locked, i) == (lock_at(
                p.locks.lanes(),
                track as u8,
                index,
                i as u8,
            ) is Some)
            &&& (0 <= off < 24 && o.len() < MAX_EVENTS_PER_TICK) ==> (o.last().offset == off && o.last().velocity == vel)
            &&& (off >= 24 && v.tracks[track].pending.len() < 4) ==> (w.tracks[track].pending.last().offset == off % 24
                && w.tracks[track].pending.last().velocity == vel)
        }),
{
    let p = v.patterns[v.current];
    assert(pattern_valid(p));
    lemma_resolved_exists(
        p.locks.lanes(),
        p.tracks[track].defaults.velocity,
        p.tracks[track].defaults.lanes,
        track as u8,
        index,
    );
}

/// What each trig condition decides on `track` at loop count `lc`: `Always`
/// passes; `Percent(p)` passes when the next draw of the PRNG falls below
/// `p`, and is the only condition that advances the PRNG; `Fill`/`NotFill`
/// follow the fill flag; `Pre`/`NotPre` follow the track's last recorded
/// verdict and `Nei`/`NotNei` the previous track's (none for track 0);
/// `First`/`NotFirst` pass on the first loop / the others; `Ratio { a, b }`
/// passes when `lc % b == a - 1`, with `b` clamped into `1..=8` and `a`
/// into `1..=b`. Every condition but `Always`, `Pre`, `NotPre`, `Nei` and
/// `NotNei` records its verdict for the track; nothing else changes.
pub proof fn lemma_condition_verdicts(v: SequencerView, track: int, cond: Condition, lc: u32)
    requires
        0 <= track < v.tracks.len(),
    ensures
        eval_cond(v, track, cond, lc).1 == (match cond {
            Condition::Always => true,
            Condition::Percent(p) => crate::unit::draw_below_spec(pcg_output(v.rng) >> 8u32, p),
            Condition::Fill => v.fill,
            Condition::NotFill => !v.fill,
            Condition::Pre => v.tracks[track].last_cond,
            Condition::NotPre => !v.tracks[track].last_cond,
            Condition::Nei => track > 0 && v.tracks[track - 1].last_cond,
            Condition::NotNei => !(track > 0 && v.tracks[track - 1].last_cond),
            Condition::First => lc == 0,
            Condition::NotFirst => lc != 0,
            Condition::Ratio { a, b } => {
                let bb: int = if b < 1 {
                    1
                } else if b > 8 {
                    8
                } else {
                    b as int
                };
                let aa: int = if a < 1 {
                    1
                } else if a > bb {
                    bb
                } else {
                    a as int
                };
                lc as int % bb == aa - 1
            },
        }),
        eval_cond(v, track, cond, lc).0.rng == (if cond is Percent {
            pcg_step(v.rng, PCG_INC)
        } else {
            v.rng
        }),
        eval_cond(v, track, cond, lc).0.tracks.len() == v.tracks.len(),
        eval_cond(v, track, cond, lc).0.tracks[track].last_cond == (if cond is Always || cond is Pre || cond is NotPre
            || cond is Nei || cond is NotNei {
            v.tracks[track].last_cond
        } else {
            eval_cond(v, track, cond, lc).1
        }),
        eval_cond(v, track, cond, lc).0.tracks[track] == (TrackView {
            last_cond: eval_cond(v, track, cond, lc).0.tracks[track].last_cond,
            ..v.tracks[track]
        }),
        forall|j: int| 0 <= j < v.tracks.len() && j != track ==> #[trigger] eval_cond(v, track, cond, lc).0.tracks[j] == v.tracks[j],
        (SequencerView { rng: v.rng, tracks: v.tracks, ..eval_cond(v, track, cond, lc).0 }) == v,
{
}

/// One more tick moves a cyclic counter of period `len` on by one: the
/// position wraps to 0 exactly when the count of completed cycles grows.
proof fn lemma_cycle_step(n: int, len: int)
    requires
        n >= 1,
        len >= 1,
    ensures
        ((n - 1) % len + 1 >= len) ==> (n % len == 0 && n / len == (n - 1) / len + 1),
        ((n - 1) % len + 1 < len) ==> (n % len == (n - 1) % len + 1 && n / len == (n - 1) / len),
{
    let q = (n - 1) / len;
    let r = (n - 1) % len;
    vstd::arithmetic::div_mod::lemma_fundamental_div_mod(n - 1, len);
    assert(0 <= r < len) by {
        vstd::arithmetic::div_mod::lemma_mod_bound(n - 1, len);
    }
    if r + 1 >= len {
        assert(n == (q + 1) * len + 0) by (nonlinear_arith)
            requires
                n - 1 == len * q + r,
                r == len - 1,
        ;
        vstd::arithmetic::div_mod::lemma_fundamental_div_mod_converse(n, len, q + 1, 0);
    } else {
        assert(n == q * len + (r + 1)) by (nonlinear_arith)
            requires
                n - 1 == len * q + r,
        ;
        vstd::arithmetic::div_mod::lemma_fundamental_div_mod_converse(n, len, q, r + 1);
    }
}

/// Polymeter: from a fresh start, with nothing queued, after `n` ticks
/// each track's playhead is at `n mod length` and it has completed
/// `n / length` loops of its own length (while that count fits in 32 bits).
pub proof fn lemma_tracks_cycle_independently(v: SequencerView, n: nat)
    requires
        view_wf(v),
        patterns_valid(v.patterns),
        v.playing,
        v.queue.len() == 0,
        forall|j: int| 0 <= j < NUM_TRACKS ==> (#[trigger] v.tracks[j]).playhead == 0 && v.tracks[j].loop_count == 0,
    ensures
        run_ticks(v, n).0.patterns == v.patterns,
        run_ticks(v, n).0.current == v.current,
        forall|j: int|
            0 <= j < NUM_TRACKS ==> {
                let len = v.patterns[v.current].tracks[j].length.spec_steps() as int;
                &&& (#[trigger] run_ticks(v, n).0.tracks[j]).playhead == (n as int) % len
                &&& (n as int) / len < 0x1_0000_0000 ==> run_ticks(v, n).0.tracks[j].loop_count == (n as int) / len
            },
    decreases n,
{
    if n > 0 {
        lemma_tracks_cycle_independently(v, (n - 1) as nat);
        let w = run_ticks(v, (n - 1) as nat).0;
        lemma_run_keeps(v, (n - 1) as nat);
        assert(boundary_spec(w) == w);
        lemma_tick_keeps_setup(w);
        lemma_tick_advances_playheads(w);
        let w2 = tick_spec(w).0;
        assert forall|j: int| 0 <= j < NUM_TRACKS implies {
            let len = v.patterns[v.current].tracks[j].length.spec_steps() as int;
            &&& (#[trigger] w2.tracks[j]).playhead == (n as int) % len
            &&& (n as int) / len < 0x1_0000_0000 ==> w2.tracks[j].loop_count == (n as int) / len
        } by {
            let len = v.patterns[v.current].tracks[j].length.spec_steps() as int;
            assert(pattern_valid(v.patterns[v.current]));
            assert(1 <= len <= 128);
            lemma_cycle_step(n as int, len);
            vstd::arithmetic::div_mod::lemma_mod_bound((n - 1) as int, len);
            vstd::arithmetic::div_mod::lemma_div_pos_is_pos((n - 1) as int, len);
            if (n as int) / len < 0x1_0000_0000 {
                assert(((n - 1) as int) / len <= (n as int) / len) by {
                    vstd::arithmetic::div_mod::lemma_div_is_ordered((n - 1) as int, n as int, len);
                }
            }
        }
    }
}

/// Ticks from a playing state with an empty queue keep the patterns, the
/// current pattern, the empty queue, the transport and well-formedness.
proof fn lemma_run_keeps(v: SequencerView, n: nat)
    requires
        view_wf(v),
        patterns_valid(v.patterns),
        v.playing,
        v.queue.len() == 0,
    ensures
        view_wf(run_ticks(v, n).0),
        run_ticks(v, n).0.patterns == v.patterns,
        run_ticks(v, n).0.current == v.current,
        run_ticks(v, n).0.queue.len() == 0,
        run_ticks(v, n).0.playing,
    decreases n,
{
    if n > 0 {
        lemma_run_keeps(v, (n - 1) as nat);
        lemma_tick_keeps_setup(run_ticks(v, (n - 1) as nat).0);
    }
}

/// A `Percent` condition at `1.0` passes and one at `0.0` fails, whatever
/// the PRNG state; either way it consumes exactly one draw.
pub proof fn lemma_percent_extremes(v: SequencerView, track: int, lc: u32)
    ensures
        eval_cond(v, track, Condition::Percent(UnitValue::spec_from_bits(ONE_BITS)), lc).1,
        !eval_cond(v, track, Condition::Percent(UnitValue::spec_from_bits(0)), lc).1,
        eval_cond(v, track, Condition::Percent(UnitValue::spec_from_bits(ONE_BITS)), lc).0.rng == pcg_step(
            v.rng,
            PCG_INC,
        ),
        eval_cond(v, track, Condition::Percent(UnitValue::spec_from_bits(0)), lc).0.rng == pcg_step(v.rng, PCG_INC),
{
    let x = pcg_output(v.rng);
    assert(x >> 8u32 < 0x100_0000) by (bit_vector);
    lemma_draw_extremes(x >> 8u32);
}

} // verus!
