//! Tick output: the events fired during one step window.

use vstd::prelude::*;
use crate::unit::{unit_bits, UnitValue};

verus! {

broadcast use vstd::array::group_array_axioms;

/// Maximum number of events a single tick can emit.
///
/// Per track per window at most one spilled event arrives from the previous
/// window, and within the window at most 8 step events and train hits
/// interleave; 9 × 16 tracks = 144 ≤ 160.
pub const MAX_EVENTS_PER_TICK: usize = 160;

/// A fired trig, stamped with its pulse offset inside the tick's step window.
#[derive(Clone, Copy, Debug)]
pub struct Event {
    /// Which track fired (`0..16`).
    pub track: u8,
    /// Velocity in `0.0..=1.0`.
    pub velocity: UnitValue,
    /// Pulses after the window start (`0..24`).
    pub offset: u8,
    /// Resolved parameter-lane values: per lane, the step's lock if set,
    /// else the track default.
    pub lanes: [UnitValue; 64],
    /// Bit `i` set ⇔ `lanes[i]` came from a lock.
    pub locked: u64,
    /// True iff `velocity` came from a velocity lock.
    pub velocity_locked: bool,
}

/// The placeholder event: track 0, offset 0, velocity and every lane
/// `0.0`, no locks.
pub open spec fn is_placeholder(e: Event) -> bool {
    &&& e.track == 0
    &&& e.offset == 0
    &&& e.velocity.spec_bits() == 0
    &&& forall|i: int| 0 <= i < 64 ==> (#[trigger] e.lanes[i]).spec_bits() == 0
    &&& e.locked == 0
    &&& !e.velocity_locked
}

impl Event {
    /// A placeholder event (track 0, zero velocity and lanes).
    pub fn empty() -> (r: Self)
        ensures
            r.track == 0,
            r.offset == 0,
            r.velocity.spec_bits() == 0,
            forall|i: int| 0 <= i < 64 ==> (#[trigger] r.lanes[i]).spec_bits() == 0,
            r.locked == 0,
            !r.velocity_locked,
            is_placeholder(r),
    {
        let z = UnitValue::zero();
        Event {
            track: 0,
            velocity: z,
            offset: 0,
            lanes: vstd::array::array_fill_for_copy_types(z),
            locked: 0,
            velocity_locked: false,
        }
    }
}

impl Default for Event {
    /// The placeholder event.
    fn default() -> (r: Self)
        ensures
            r.track == 0,
            r.offset == 0,
            r.velocity.spec_bits() == 0,
            forall|i: int| 0 <= i < 64 ==> (#[trigger] r.lanes[i]).spec_bits() == 0,
            r.locked == 0,
            !r.velocity_locked,
    {
        Event::empty()
    }
}

/// Two events are equal: same track, offset and provenance, and equal
/// velocity and lane values as numbers.
pub open spec fn event_eq(a: Event, b: Event) -> bool {
    &&& a.track == b.track
    &&& a.offset == b.offset
    &&& a.velocity.spec_num_eq(b.velocity)
    &&& forall|i: int| 0 <= i < 64 ==> (#[trigger] a.lanes[i]).spec_num_eq(b.lanes[i])
    &&& a.locked == b.locked
    &&& a.velocity_locked == b.velocity_locked
}

impl PartialEq for Event {
    fn eq(&self, other: &Self) -> (r: bool) {
        if self.track != other.track || self.offset != other.offset || self.locked != other.locked
            || self.velocity_locked != other.velocity_locked || !(self.velocity == other.velocity) {
            return false;
        }
        let mut i: usize = 0;
        while i < 64
            invariant
                i <= 64,
                forall|j: int| 0 <= j < i ==> (#[trigger] self.lanes[j]).spec_num_eq(other.lanes[j]),
            decreases 64 - i,
        {
            if !(self.lanes[i] == other.lanes[i]) {
                return false;
            }
            i += 1;
        }
        true
    }
}

impl vstd::std_specs::cmp::PartialEqSpecImpl for Event {
    open spec fn obeys_eq_spec() -> bool {
        true
    }

    open spec fn eq_spec(&self, other: &Self) -> bool {
        event_eq(*self, *other)
    }
}

/// Appending to a list of capacity `MAX_EVENTS_PER_TICK`: a full list drops
/// the event.
pub open spec fn out_push(out: Seq<Event>, e: Event) -> Seq<Event> {
    if out.len() < MAX_EVENTS_PER_TICK {
        out.push(e)
    } else {
        out
    }
}

/// Appending several events in order.
pub open spec fn out_push_all(out: Seq<Event>, es: Seq<Event>) -> Seq<Event>
    decreases es.len(),
{
    if es.len() == 0 {
        out
    } else {
        out_push(out_push_all(out, es.drop_last()), es.last())
    }
}

/// The sort key of a pass: the track, or the pulse offset.
pub open spec fn event_key(e: Event, by_track: bool) -> int {
    if by_track {
        e.track as int
    } else {
        e.offset as int
    }
}

/// The events of `s` with key below `k`, ordered by key and, within a key,
/// in the order of `s`.
pub open spec fn by_key_upto(s: Seq<Event>, by_track: bool, k: int) -> Seq<Event>
    decreases k,
{
    if k <= 0 {
        Seq::empty()
    } else {
        by_key_upto(s, by_track, k - 1) + s.filter(|e: Event| event_key(e, by_track) == k - 1)
    }
}

/// Number of key values of a pass: a track or an offset is a byte.
pub open spec fn key_count(by_track: bool) -> int {
    256
}

/// A stable ordering of `s` by `(offset, track)`: ties keep the order of
/// `s`. Every event of `s` is kept (see `lemma_by_offset_keeps_all`).
pub open spec fn by_offset(s: Seq<Event>) -> Seq<Event> {
    by_key_upto(by_key_upto(s, true, 256), false, 256)
}

/// A growing list of events with capacity `MAX_EVENTS_PER_TICK`.
pub struct EventBuf {
    pub events: [Event; 160],
    pub len: usize,
}

impl EventBuf {
    /// The events held.
    pub open spec fn view(&self) -> Seq<Event> {
        self.events@.take(self.len as int)
    }

    /// The length is within capacity.
    pub open spec fn wf(&self) -> bool {
        self.len <= MAX_EVENTS_PER_TICK
    }

    /// An empty list whose every slot holds the placeholder event.
    pub fn new() -> (r: Self)
        ensures
            r.wf(),
            r.view() == Seq::<Event>::empty(),
            r.len == 0,
            forall|i: int| 0 <= i < MAX_EVENTS_PER_TICK ==> is_placeholder(#[trigger] r.events[i]),
    {
        EventBuf { events: vstd::array::array_fill_for_copy_types(Event::empty()), len: 0 }
    }

    /// Appends `e`, dropping it when the list is full.
    pub fn push(&mut self, e: Event)
        requires
            old(self).wf(),
        ensures
            final(self).wf(),
            final(self).view() == out_push(old(self).view(), e),
    {
        if self.len < MAX_EVENTS_PER_TICK {
            self.events[self.len] = e;
            self.len = self.len + 1;
            assert(self.view() =~= old(self).view().push(e));
        }
    }
}

/// Fixed-capacity list of the events scheduled in one step window,
/// ordered by pulse offset (and by track within an offset).
#[derive(Clone, Copy, Debug)]
pub struct TickOutput {
    events: [Event; 160],
    len: usize,
}

impl View for TickOutput {
    type V = Seq<Event>;

    closed spec fn view(&self) -> Seq<Event> {
        self.events@.take(self.len as int)
    }
}

impl TickOutput {
    #[verifier::type_invariant]
    spec fn inv(self) -> bool {
        self.len <= MAX_EVENTS_PER_TICK
    }

    /// An empty output.
    pub fn empty() -> (r: Self)
        ensures
            r@ == Seq::<Event>::empty(),
    {
        TickOutput { events: vstd::array::array_fill_for_copy_types(Event::empty()), len: 0 }
    }

    /// The events of `buf`, all of them, stably ordered by
    /// `(offset, track)`: events with equal keys keep their order in `buf`.
    pub fn sorted_from(buf: &EventBuf) -> (r: Self)
        requires
            buf.wf(),
        ensures
            r@ == by_offset(buf.view()),
            r@.to_multiset() == buf.view().to_multiset(),
            r@.len() == buf.view().len(),
            ordered_by_offset_track(r@),
    {
        let by_track = sort_pass(buf, true);
        let out = sort_pass(&by_track, false);
        proof {
            lemma_by_offset_keeps_all(buf.view());
            lemma_by_offset_ordered(buf.view());
            buf.view().to_multiset_ensures();
            by_offset(buf.view()).to_multiset_ensures();
        }
        TickOutput { events: out.events, len: out.len }
    }

    /// The fired events, in `(offset, track)` order.
    pub fn as_slice(&self) -> (r: &[Event])
        ensures
            r@ == self@,
    {
        proof {
            use_type_invariant(self);
        }
        let s: &[Event] = self.events.as_slice();
        &s[0..self.len]
    }

    /// Iterates over the fired events, in order.
    pub fn iter(&self) -> (r: std::slice::Iter<'_, Event>)
        ensures
            vstd::std_specs::slice::into_iter_elts(r) == self@,
    {
        broadcast use vstd::std_specs::slice::group_slice_axioms;

        let s = self.as_slice();
        let it = s.iter();
        proof {
            assert(s@.as_ref().unref() =~= s@);
        }
        it
    }

    /// Number of events fired this tick, at most `MAX_EVENTS_PER_TICK`.
    pub fn len(&self) -> (r: usize)
        ensures
            r == self@.len(),
            r <= MAX_EVENTS_PER_TICK,
    {
        proof {
            use_type_invariant(self);
        }
        self.len
    }

    /// `true` if nothing fired this tick.
    pub fn is_empty(&self) -> (r: bool)
        ensures
            r == (self@.len() == 0),
    {
        proof {
            use_type_invariant(self);
        }
        self.len == 0
    }
}

/// Every velocity and lane value of `e` lies in `0.0..=1.0`.
pub open spec fn event_in_range(e: Event) -> bool {
    &&& unit_bits(e.velocity.spec_bits())
    &&& forall|i: int| 0 <= i < 64 ==> unit_bits((#[trigger] e.lanes[i]).spec_bits())
}

impl Event {
    /// Makes available to verified callers that the event's velocity and lane
    /// values lie in `0.0..=1.0` (as every `UnitValue` does); reads them and
    /// changes nothing.
    pub fn prove_in_range(&self)
        ensures
            event_in_range(*self),
    {
        let _v: u32 = self.velocity.to_bits();
        let mut i: usize = 0;
        while i < 64
            invariant
                0 <= i <= 64,
                unit_bits(self.velocity.spec_bits()),
                forall|j: int| 0 <= j < i ==> unit_bits((#[trigger] self.lanes[j]).spec_bits()),
            decreases 64 - i,
        {
            let _b: u32 = self.lanes[i].to_bits();
            i += 1;
        }
    }
}

impl TickOutput {
    /// Makes available to verified callers that every velocity and lane
    /// value of the output lies in `0.0..=1.0`; reads them and changes
    /// nothing.
    pub fn prove_in_range(&self)
        ensures
            forall|k: int| 0 <= k < self@.len() ==> event_in_range(#[trigger] self@[k]),
    {
        proof {
            use_type_invariant(self);
        }
        let mut k: usize = 0;
        while k < self.len
            invariant
                0 <= k <= self.len <= MAX_EVENTS_PER_TICK,
                forall|j: int| 0 <= j < k ==> event_in_range(#[trigger] self@[j]),
            decreases self.len - k,
        {
            self.events[k].prove_in_range();
            k += 1;
        }
    }
}

impl PartialEq for TickOutput {
    /// The same fired events, in the same order.
    fn eq(&self, other: &Self) -> (r: bool) {
        proof {
            use_type_invariant(self);
            use_type_invariant(other);
        }
        if self.len != other.len {
            return false;
        }
        let mut i: usize = 0;
        while i < self.len
            invariant
                i <= self.len == other.len <= MAX_EVENTS_PER_TICK,
                forall|j: int| 0 <= j < i ==> event_eq(#[trigger] self@[j], other@[j]),
            decreases self.len - i,
        {
            proof {
                assert(self@[i as int] == self.events[i as int]);
                assert(other@[i as int] == other.events[i as int]);
            }
            if !(self.events[i] == other.events[i]) {
                return false;
            }
            i += 1;
        }
        true
    }
}

impl vstd::std_specs::cmp::PartialEqSpecImpl for TickOutput {
    open spec fn obeys_eq_spec() -> bool {
        true
    }

    open spec fn eq_spec(&self, other: &Self) -> bool {
        &&& self@.len() == other@.len()
        &&& forall|j: int| 0 <= j < self@.len() ==> event_eq(#[trigger] self@[j], other@[j])
    }
}

impl<'a> IntoIterator for &'a TickOutput {
    type Item = &'a Event;
    type IntoIter = std::slice::Iter<'a, Event>;

    /// Iterates over the fired events, in order.
    fn into_iter(self) -> (r: std::slice::Iter<'a, Event>)
        ensures
            vstd::std_specs::slice::into_iter_elts(r) == self@,
    {
        self.iter()
    }
}

/// Filtering a longer prefix keeps at least as many elements.
proof fn lemma_filter_prefix_mono(s: Seq<Event>, j: int, n: int, f: spec_fn(Event) -> bool)
    requires
        0 <= j <= n <= s.len(),
    ensures
        s.take(j).filter(f).len() <= s.take(n).filter(f).len(),
    decreases n - j,
{
    reveal_with_fuel(Seq::filter, 1);
    if j < n {
        lemma_filter_prefix_mono(s, j, n - 1, f);
        assert(s.take(n).drop_last() =~= s.take(n - 1));
    }
}

/// One stable bucket pass over the keys of a pass.
fn sort_pass(buf: &EventBuf, by_track: bool) -> (out: EventBuf)
    requires
        buf.wf(),
    ensures
        out.wf(),
        out.view() == by_key_upto(buf.view(), by_track, key_count(by_track)),
{
    let mut out = EventBuf::new();
    // Only keys below the largest one present need a bucket.
    let mut nkeys: u16 = 0;
    let mut q: usize = 0;
    while q < buf.len
        invariant
            0 <= q <= buf.len <= MAX_EVENTS_PER_TICK,
            nkeys <= 256,
            forall|k: int| 0 <= k < q ==> event_key(#[trigger] buf.view()[k], by_track) < nkeys,
        decreases buf.len - q,
    {
        let e = buf.events[q];
        proof {
            assert(buf.view()[q as int] == e);
        }
        let key: u16 = if by_track {
            e.track as u16
        } else {
            e.offset as u16
        };
        if key >= nkeys {
            nkeys = key + 1;
        }
        q += 1;
    }
    let mut o: u16 = 0;
    while o < nkeys
        invariant
            0 <= o <= nkeys <= 256,
            forall|k: int| 0 <= k < buf.view().len() ==> event_key(#[trigger] buf.view()[k], by_track) < nkeys,
            buf.wf(),
            out.wf(),
            out.view() == by_key_upto(buf.view(), by_track, o as int),
        decreases nkeys - o,
    {
        let ghost before = out.view();
        let ghost f = |e: Event| event_key(e, by_track) == o;
        proof {
            by_key_len(buf.view(), by_track, o as int + 1);
            assert(by_key_upto(buf.view(), by_track, o as int + 1) == before + buf.view().filter(f));
        }
        let mut j: usize = 0;
        while j < buf.len
            invariant
                0 <= j <= buf.len,
                o < nkeys,
                buf.wf(),
                out.wf(),
                f == (|e: Event| event_key(e, by_track) == o),
                out.view() == before + buf.view().take(j as int).filter(f),
                before == by_key_upto(buf.view(), by_track, o as int),
                before.len() + buf.view().filter(f).len() <= buf.view().len(),
            decreases buf.len - j,
        {
            proof {
                reveal_with_fuel(Seq::filter, 1);
                let s = buf.view();
                assert(s.take(j as int + 1).drop_last() =~= s.take(j as int));
                assert(s.take(j as int + 1).last() == buf.events[j as int]);
            }
            let e = buf.events[j];
            let key: u16 = if by_track {
                e.track as u16
            } else {
                e.offset as u16
            };
            if key == o {
                proof {
                    reveal_with_fuel(Seq::filter, 1);
                    let s = buf.view();
                    assert(f(e));
                    assert(s.take(j as int + 1).filter(f) == s.take(j as int).filter(f).push(e));
                    lemma_filter_prefix_mono(s, j as int + 1, s.len() as int, f);
                    assert(s.take(s.len() as int) =~= s);
                }
                out.push(e);
                proof {
                    assert(out.view() =~= before + buf.view().take(j as int + 1).filter(f));
                }
            } else {
                proof {
                    reveal_with_fuel(Seq::filter, 1);
                    let s = buf.view();
                    assert(!f(e));
                    assert(s.take(j as int + 1).filter(f) == s.take(j as int).filter(f));
                }
            }
            j += 1;
        }
        proof {
            assert(buf.view().take(buf.len as int) =~= buf.view());
        }
        o += 1;
    }
    proof {
        lemma_by_key_beyond(buf.view(), by_track, nkeys as int, 256);
    }
    out
}

/// A list none of whose elements passes a filter filters to nothing.
proof fn lemma_filter_none_in(s: Seq<Event>, f: spec_fn(Event) -> bool)
    requires
        forall|k: int| 0 <= k < s.len() ==> !#[trigger] f(s[k]),
    ensures
        s.filter(f) == Seq::<Event>::empty(),
    decreases s.len(),
{
    reveal_with_fuel(Seq::filter, 1);
    if s.len() > 0 {
        let init = s.drop_last();
        assert forall|k: int| 0 <= k < init.len() implies !#[trigger] f(init[k]) by {
            assert(init[k] == s[k]);
        }
        lemma_filter_none_in(init, f);
        assert(!f(s[s.len() - 1]));
    }
    assert(s.filter(f) =~= Seq::<Event>::empty());
}

/// Buckets beyond the largest key present add nothing.
proof fn lemma_by_key_beyond(s: Seq<Event>, by_track: bool, m: int, n: int)
    requires
        0 <= m <= n,
        forall|k: int| 0 <= k < s.len() ==> event_key(#[trigger] s[k], by_track) < m,
    ensures
        by_key_upto(s, by_track, n) == by_key_upto(s, by_track, m),
    decreases n - m,
{
    if n > m {
        lemma_by_key_beyond(s, by_track, m, n - 1);
        let f = |e: Event| event_key(e, by_track) == n - 1;
        assert forall|k: int| 0 <= k < s.len() implies !#[trigger] f(s[k]) by {
            assert(event_key(s[k], by_track) < m);
        }
        lemma_filter_none_in(s, f);
        assert(by_key_upto(s, by_track, n) =~= by_key_upto(s, by_track, n - 1));
    }
}

/// A pass keeps at most every event: the result is no longer than the
/// input.
pub proof fn by_key_len(s: Seq<Event>, by_track: bool, k: int)
    ensures
        by_key_upto(s, by_track, k).len() <= s.len(),
    decreases k,
{
    by_key_len_sum(s, by_track, k);
}

/// The buckets below `k` together hold the events with keys below `k`.
proof fn by_key_len_sum(s: Seq<Event>, by_track: bool, k: int)
    ensures
        by_key_upto(s, by_track, k).len() == s.filter(|e: Event| event_key(e, by_track) < k).len(),
    decreases k,
{
    if k <= 0 {
        assert(s.filter(|e: Event| event_key(e, by_track) < k).len() == 0) by {
            lemma_filter_none(s, |e: Event| event_key(e, by_track) < k);
        }
    } else {
        by_key_len_sum(s, by_track, k - 1);
        lemma_filter_split(s, by_track, k - 1);
    }
    lemma_filter_le(s, |e: Event| event_key(e, by_track) < k);
}

/// A filter whose predicate holds nowhere is empty.
proof fn lemma_filter_none(s: Seq<Event>, f: spec_fn(Event) -> bool)
    requires
        forall|e: Event| !#[trigger] f(e),
    ensures
        s.filter(f).len() == 0,
    decreases s.len(),
{
    reveal_with_fuel(Seq::filter, 1);
    if s.len() > 0 {
        lemma_filter_none(s.drop_last(), f);
    }
}

/// A filter is no longer than its input.
proof fn lemma_filter_le(s: Seq<Event>, f: spec_fn(Event) -> bool)
    ensures
        s.filter(f).len() <= s.len(),
    decreases s.len(),
{
    reveal_with_fuel(Seq::filter, 1);
    if s.len() > 0 {
        lemma_filter_le(s.drop_last(), f);
    }
}

/// Keys below `k + 1` are those below `k` plus those equal to `k`.
proof fn lemma_filter_split(s: Seq<Event>, by_track: bool, k: int)
    ensures
        s.filter(|e: Event| event_key(e, by_track) < k + 1).len() == s.filter(|e: Event| event_key(e, by_track) < k).len()
            + s.filter(|e: Event| event_key(e, by_track) == k).len(),
    decreases s.len(),
{
    reveal_with_fuel(Seq::filter, 1);
    if s.len() > 0 {
        lemma_filter_split(s.drop_last(), by_track, k);
    }
}

/// Events ordered by pulse offset, and by track within an offset.
pub open spec fn ordered_by_offset_track(s: Seq<Event>) -> bool {
    forall|i: int, j: int|
        0 <= i < j < s.len() ==> (#[trigger] s[i]).offset < (#[trigger] s[j]).offset || (s[i].offset
            == s[j].offset && s[i].track <= s[j].track)
}

/// Events ordered by track.
pub open spec fn ordered_by_track(s: Seq<Event>) -> bool {
    forall|i: int, j: int| 0 <= i < j < s.len() ==> (#[trigger] s[i]).track <= (#[trigger] s[j]).track
}

/// A filter keeps only elements of its input.
proof fn lemma_filter_from(s: Seq<Event>, f: spec_fn(Event) -> bool, k: int)
    requires
        0 <= k < s.filter(f).len(),
    ensures
        s.contains(s.filter(f)[k]),
        f(s.filter(f)[k]),
{
    broadcast use vstd::seq_lib::group_filter_ensures;

    assert(s.filter(f).contains(s.filter(f)[k]));
    s.lemma_filter_contains_rev(f, s.filter(f)[k]);
}

/// A filter of a track-ordered sequence is track-ordered.
proof fn lemma_filter_keeps_track_order(s: Seq<Event>, f: spec_fn(Event) -> bool)
    requires
        ordered_by_track(s),
    ensures
        ordered_by_track(s.filter(f)),
    decreases s.len(),
{
    reveal_with_fuel(Seq::filter, 1);
    if s.len() > 0 {
        let rest = s.drop_last();
        assert(ordered_by_track(rest)) by {
            assert forall|i: int, j: int| 0 <= i < j < rest.len() implies (#[trigger] rest[i]).track <= (#[trigger] rest[j]).track by {
                assert(s[i].track <= s[j].track);
            }
        }
        lemma_filter_keeps_track_order(rest, f);
        let fr = rest.filter(f);
        if f(s.last()) {
            assert forall|i: int, j: int| 0 <= i < j < s.filter(f).len() implies (#[trigger] s.filter(f)[i]).track <= (#[trigger] s.filter(f)[j]).track by {
                if j < fr.len() {
                    assert(s.filter(f)[i] == fr[i] && s.filter(f)[j] == fr[j]);
                } else {
                    assert(s.filter(f)[i] == fr[i]);
                    lemma_filter_from(rest, f, i);
                    let x = fr[i];
                    let q = choose|q: int| 0 <= q < rest.len() && rest[q] == x;
                    assert(s[q] == x);
                    assert(s[q].track <= s[s.len() - 1].track);
                }
            }
        }
    }
}

/// The events a pass keeps are events of its input, with keys below the
/// bound, in nondecreasing key order.
pub proof fn lemma_by_key(s: Seq<Event>, by_track: bool, n: int)
    ensures
        forall|k: int| 0 <= k < by_key_upto(s, by_track, n).len() ==> s.contains(#[trigger] by_key_upto(s, by_track, n)[k])
            && event_key(by_key_upto(s, by_track, n)[k], by_track) < n,
        forall|i: int, j: int|
            0 <= i < j < by_key_upto(s, by_track, n).len() ==> event_key(#[trigger] by_key_upto(s, by_track, n)[i], by_track)
                <= event_key(#[trigger] by_key_upto(s, by_track, n)[j], by_track),
    decreases n,
{
    if n > 0 {
        lemma_by_key(s, by_track, n - 1);
        let prev = by_key_upto(s, by_track, n - 1);
        let f = |e: Event| event_key(e, by_track) == n - 1;
        let fl = s.filter(f);
        let cur = by_key_upto(s, by_track, n);
        assert(cur == prev + fl);
        assert forall|k: int| 0 <= k < cur.len() implies s.contains(#[trigger] cur[k]) && event_key(cur[k], by_track) < n by {
            if k >= prev.len() {
                lemma_filter_from(s, f, k - prev.len());
            }
        }
        assert forall|i: int, j: int| 0 <= i < j < cur.len() implies event_key(#[trigger] cur[i], by_track) <= event_key(#[trigger] cur[j], by_track) by {
            if i >= prev.len() {
                lemma_filter_from(s, f, i - prev.len());
            }
            if j >= prev.len() {
                lemma_filter_from(s, f, j - prev.len());
            }
        }
    }
}

/// An offset pass over a track-ordered sequence orders by offset, then
/// track.
proof fn lemma_offset_pass(t: Seq<Event>, n: int)
    requires
        ordered_by_track(t),
    ensures
        ordered_by_offset_track(by_key_upto(t, false, n)),
    decreases n,
{
    if n > 0 {
        lemma_offset_pass(t, n - 1);
        lemma_by_key(t, false, n - 1);
        let prev = by_key_upto(t, false, n - 1);
        let f = |e: Event| event_key(e, false) == n - 1;
        let fl = t.filter(f);
        lemma_filter_keeps_track_order(t, f);
        let cur = by_key_upto(t, false, n);
        assert(cur == prev + fl);
        assert forall|i: int, j: int| 0 <= i < j < cur.len() implies (#[trigger] cur[i]).offset < (#[trigger] cur[j]).offset
            || (cur[i].offset == cur[j].offset && cur[i].track <= cur[j].track) by {
            if i >= prev.len() {
                lemma_filter_from(t, f, i - prev.len());
                lemma_filter_from(t, f, j - prev.len());
                assert(fl[i - prev.len()].track <= fl[j - prev.len()].track);
            } else if j >= prev.len() {
                lemma_filter_from(t, f, j - prev.len());
                assert(event_key(prev[i], false) < n - 1);
            }
        }
    }
}

/// The stable two-pass ordering yields events of its input, ordered by
/// offset and then by track.
pub proof fn lemma_by_offset_ordered(s: Seq<Event>)
    ensures
        ordered_by_offset_track(by_offset(s)),
        forall|k: int| 0 <= k < by_offset(s).len() ==> s.contains(#[trigger] by_offset(s)[k]),
{
    let t = by_key_upto(s, true, 256);
    lemma_by_key(s, true, 256);
    assert(ordered_by_track(t)) by {
        assert forall|i: int, j: int| 0 <= i < j < t.len() implies (#[trigger] t[i]).track <= (#[trigger] t[j]).track by {
            assert(event_key(t[i], true) <= event_key(t[j], true));
        }
    }
    lemma_offset_pass(t, 256);
    lemma_by_key(t, false, 256);
    assert forall|k: int| 0 <= k < by_offset(s).len() implies s.contains(#[trigger] by_offset(s)[k]) by {
        let x = by_offset(s)[k];
        assert(t.contains(x));
        let q = choose|q: int| 0 <= q < t.len() && t[q] == x;
        assert(s.contains(t[q]));
    }
}

/// Splitting a filter at key `k`, as multisets.
proof fn lemma_filter_split_ms(s: Seq<Event>, by_track: bool, k: int)
    ensures
        s.filter(|e: Event| event_key(e, by_track) < k + 1).to_multiset() == s.filter(
            |e: Event| event_key(e, by_track) < k,
        ).to_multiset().add(s.filter(|e: Event| event_key(e, by_track) == k).to_multiset()),
    decreases s.len(),
{
    broadcast use vstd::multiset::group_multiset_axioms;
    broadcast use vstd::seq_lib::to_multiset_build;

    reveal_with_fuel(Seq::filter, 1);
    let lt1 = |e: Event| event_key(e, by_track) < k + 1;
    let lt = |e: Event| event_key(e, by_track) < k;
    let eq = |e: Event| event_key(e, by_track) == k;
    if s.len() > 0 {
        let init = s.drop_last();
        let x = s.last();
        lemma_filter_split_ms(init, by_track, k);
        assert(s.filter(lt1) == (if lt1(x) {
            init.filter(lt1).push(x)
        } else {
            init.filter(lt1)
        }));
        assert(s.filter(lt) == (if lt(x) {
            init.filter(lt).push(x)
        } else {
            init.filter(lt)
        }));
        assert(s.filter(eq) == (if eq(x) {
            init.filter(eq).push(x)
        } else {
            init.filter(eq)
        }));
        let a = init.filter(lt).to_multiset();
        let b = init.filter(eq).to_multiset();
        assert(init.filter(lt1).to_multiset() == a.add(b));
        if lt(x) {
            assert(s.filter(lt1).to_multiset() == a.add(b).insert(x));
            assert(s.filter(lt).to_multiset() == a.insert(x));
            assert(a.add(b).insert(x) =~= a.insert(x).add(b));
        } else if eq(x) {
            assert(s.filter(lt1).to_multiset() == a.add(b).insert(x));
            assert(s.filter(eq).to_multiset() == b.insert(x));
            assert(a.add(b).insert(x) =~= a.add(b.insert(x)));
        } else {
            assert(!lt1(x));
        }
    } else {
        broadcast use vstd::seq_lib::to_multiset_len;
        broadcast use vstd::multiset::lemma_multiset_empty_len;

        assert(s.filter(lt1).len() == 0 && s.filter(lt).len() == 0 && s.filter(eq).len() == 0);
        assert(s.filter(lt1).to_multiset().len() == 0);
        assert(s.filter(lt).to_multiset().len() == 0);
        assert(s.filter(eq).to_multiset().len() == 0);
        assert(s.filter(lt1).to_multiset() =~= vstd::multiset::Multiset::<Event>::empty());
        assert(s.filter(lt).to_multiset() =~= vstd::multiset::Multiset::<Event>::empty());
        assert(s.filter(eq).to_multiset() =~= vstd::multiset::Multiset::<Event>::empty());
    }
}

/// A pass keeps, with multiplicity, exactly the events with keys below the
/// bound.
proof fn lemma_by_key_ms(s: Seq<Event>, by_track: bool, n: int)
    ensures
        by_key_upto(s, by_track, n).to_multiset() == s.filter(|e: Event| event_key(e, by_track) < n).to_multiset(),
    decreases n,
{
    broadcast use vstd::multiset::group_multiset_axioms;

    if n <= 0 {
        reveal_with_fuel(Seq::filter, 1);
        lemma_filter_none(s, |e: Event| event_key(e, by_track) < n);
        assert(s.filter(|e: Event| event_key(e, by_track) < n) =~= Seq::<Event>::empty());
        assert(by_key_upto(s, by_track, n).to_multiset() =~= Seq::<Event>::empty().to_multiset());
    } else {
        lemma_by_key_ms(s, by_track, n - 1);
        let prev = by_key_upto(s, by_track, n - 1);
        let fl = s.filter(|e: Event| event_key(e, by_track) == n - 1);
        vstd::seq_lib::lemma_multiset_commutative(prev, fl);
        lemma_filter_split_ms(s, by_track, n - 1);
        assert(by_key_upto(s, by_track, n).to_multiset() =~= s.filter(|e: Event| event_key(e, by_track) < n).to_multiset());
    }
}

/// A filter whose predicate holds everywhere keeps the whole sequence.
proof fn lemma_filter_all(s: Seq<Event>, f: spec_fn(Event) -> bool)
    requires
        forall|k: int| 0 <= k < s.len() ==> #[trigger] f(s[k]),
    ensures
        s.filter(f) == s,
    decreases s.len(),
{
    reveal_with_fuel(Seq::filter, 1);
    if s.len() > 0 {
        let init = s.drop_last();
        assert forall|k: int| 0 <= k < init.len() implies #[trigger] f(init[k]) by {
            assert(init[k] == s[k]);
        }
        lemma_filter_all(init, f);
        assert(f(s[s.len() - 1]));
        assert(init.push(s.last()) =~= s);
    } else {
        assert(s.filter(f) =~= s);
    }
}

/// The two-pass ordering keeps every event, with multiplicity: it is a
/// reordering of its input.
pub proof fn lemma_by_offset_keeps_all(s: Seq<Event>)
    ensures
        by_offset(s).to_multiset() == s.to_multiset(),
{
    let t = by_key_upto(s, true, 256);
    lemma_by_key_ms(s, true, 256);
    lemma_filter_all(s, |e: Event| event_key(e, true) < 256);
    lemma_by_key_ms(t, false, 256);
    lemma_filter_all(t, |e: Event| event_key(e, false) < 256);
}

} // verus!
