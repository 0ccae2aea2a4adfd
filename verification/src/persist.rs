//! The sparse form of the lock pool used when a pattern is stored: one entry
//! per occupied slot, listing only its locked steps.
//!
//! Export lists every slot's locked steps in ascending order. Import accepts
//! exactly the entry lists that describe a well-formed pool and names the
//! first structural fault otherwise: more than `MAX_LOCK_LANES` entries, a
//! bad destination or track, a duplicate (track, destination), an entry with
//! no steps, a step index out of range, or a step listed twice. Lock values
//! are `UnitValue`s, so they are already clamped.

use vstd::prelude::*;
use crate::locks::{lane_lock, lane_wf, pool_wf, valid_dest, has_slot, slot_of, LockLane, LockPool, VELOCITY_DEST};
use crate::unit::UnitValue;
use crate::{MAX_LOCK_LANES, MAX_STEPS, NUM_PARAM_LANES, NUM_TRACKS};

verus! {

broadcast use vstd::array::group_array_axioms;

/// One occupied pool slot in sparse form: its (track, destination) and its
/// locked steps with their values.
#[derive(Clone, Debug, PartialEq)]
pub struct LockEntry {
    /// Which track, `0..16`.
    pub track: u8,
    /// A lane index, or `VELOCITY_DEST`.
    pub dest: u8,
    /// `(step, value)` for each locked step.
    pub steps: Vec<(u8, UnitValue)>,
}

/// A structural fault in a stored lock pool.
#[derive(Clone, Copy, Debug, PartialEq, Eq, Structural)]
pub enum PoolDataError {
    /// More entries than `MAX_LOCK_LANES`; holds the number of entries.
    OverCapacity(usize),
    /// A destination that is neither a lane nor velocity.
    DestOutOfRange(u8),
    /// A track index of 16 or more.
    TrackOutOfRange(u8),
    /// A (track, destination) listed by an earlier entry too.
    DuplicateDest {
        /// The repeated track.
        track: u8,
        /// The repeated destination.
        dest: u8,
    },
    /// An entry without locked steps (a freed slot is removed, not kept).
    EmptyEntry,
    /// A step index of 128 or more.
    StepOutOfRange(u8),
    /// A step listed twice in one entry.
    DuplicateStep(u8),
}

/// The value an entry's step list gives step `s`: its last listing, if any.
pub open spec fn step_lock(steps: Seq<(u8, UnitValue)>, s: int) -> Option<UnitValue>
    decreases steps.len(),
{
    if steps.len() == 0 {
        None
    } else if steps.last().0 == s {
        Some(steps.last().1)
    } else {
        step_lock(steps.drop_last(), s)
    }
}

/// The first fault among the first `n` listed steps: an index out of range,
/// or an index listed before.
pub open spec fn steps_error(steps: Seq<(u8, UnitValue)>, n: int) -> Option<PoolDataError>
    decreases n,
{
    if n <= 0 {
        None
    } else {
        match steps_error(steps, n - 1) {
            Some(e) => Some(e),
            None => {
                let st = steps[n - 1].0;
                if st >= MAX_STEPS {
                    Some(PoolDataError::StepOutOfRange(st))
                } else if step_lock(steps.take(n - 1), st as int) is Some {
                    Some(PoolDataError::DuplicateStep(st))
                } else {
                    None
                }
            },
        }
    }
}

/// Some entry of `es` is for `(t, d)`.
pub open spec fn has_key(es: Seq<LockEntry>, t: u8, d: u8) -> bool {
    exists|j: int| 0 <= j < es.len() && #[trigger] es[j].track == t && es[j].dest == d
}

/// The first fault of entry `e` after the entries `prior`, checked in the
/// order destination, track, duplicate key, emptiness, steps.
pub open spec fn entry_error(e: LockEntry, prior: Seq<LockEntry>) -> Option<PoolDataError> {
    if !valid_dest(e.dest) {
        Some(PoolDataError::DestOutOfRange(e.dest))
    } else if e.track >= NUM_TRACKS {
        Some(PoolDataError::TrackOutOfRange(e.track))
    } else if has_key(prior, e.track, e.dest) {
        Some(PoolDataError::DuplicateDest { track: e.track, dest: e.dest })
    } else if e.steps@.len() == 0 {
        Some(PoolDataError::EmptyEntry)
    } else {
        steps_error(e.steps@, e.steps@.len() as int)
    }
}

/// The first fault among the first `n` entries.
pub open spec fn entries_error_upto(es: Seq<LockEntry>, n: int) -> Option<PoolDataError>
    decreases n,
{
    if n <= 0 {
        None
    } else {
        match entries_error_upto(es, n - 1) {
            Some(e) => Some(e),
            None => entry_error(es[n - 1], es.take(n - 1)),
        }
    }
}

/// The first fault of a stored pool: too many entries, else the first
/// faulty entry.
pub open spec fn entries_error(es: Seq<LockEntry>) -> Option<PoolDataError> {
    if es.len() > MAX_LOCK_LANES {
        Some(PoolDataError::OverCapacity(es.len() as usize))
    } else {
        entries_error_upto(es, es.len() as int)
    }
}

/// Slot `l` is the one entry `e` describes: same key, and each step locked
/// exactly as the entry lists it.
pub open spec fn describes(e: LockEntry, l: LockLane) -> bool {
    &&& l.track == e.track
    &&& l.dest == e.dest
    &&& forall|s: int| 0 <= s < MAX_STEPS ==> #[trigger] lane_lock(l, s) == step_lock(e.steps@, s)
}

/// The locked steps of slot `l` below `n`, ascending, with their values.
pub open spec fn locked_steps(l: LockLane, n: int) -> Seq<(u8, UnitValue)>
    decreases n,
{
    if n <= 0 {
        Seq::empty()
    } else if l.steps[n - 1] {
        locked_steps(l, n - 1).push(((n - 1) as u8, l.values[n - 1]))
    } else {
        locked_steps(l, n - 1)
    }
}

/// Entry `e` is the export of slot `l`.
pub open spec fn exported(l: LockLane, e: LockEntry) -> bool {
    e.track == l.track && e.dest == l.dest && e.steps@ == locked_steps(l, MAX_STEPS as int)
}

/// The export of one slot.
fn entry_of(l: &LockLane) -> (r: LockEntry)
    ensures
        exported(*l, r),
{
    let mut steps: Vec<(u8, UnitValue)> = Vec::new();
    let mut s: usize = 0;
    while s < MAX_STEPS
        invariant
            s <= MAX_STEPS,
            steps@ == locked_steps(*l, s as int),
        decreases MAX_STEPS - s,
    {
        if l.steps[s] {
            steps.push((s as u8, l.values[s]));
        }
        s += 1;
    }
    LockEntry { track: l.track, dest: l.dest, steps }
}

impl LockPool {
    /// The pool in sparse form: one entry per slot, in slot order, each
    /// listing the slot's locked steps in ascending order.
    pub fn entries(&self) -> (r: Vec<LockEntry>)
        ensures
            r@.len() == self.lanes().len(),
            forall|i: int| 0 <= i < r@.len() ==> exported(self.lanes()[i], #[trigger] r@[i]),
    {
        let n = self.count();
        let mut out: Vec<LockEntry> = Vec::new();
        let mut i: usize = 0;
        while i < n
            invariant
                i <= n,
                n == self.lanes().len(),
                out@.len() == i,
                forall|j: int| 0 <= j < i ==> exported(self.lanes()[j], #[trigger] out@[j]),
            decreases n - i,
        {
            let lane = self.lane(i);
            out.push(entry_of(&lane));
            i += 1;
        }
        out
    }
}

/// Listing one more step: its value becomes the step's, the rest stay.
proof fn lemma_step_lock_push(steps: Seq<(u8, UnitValue)>, k: int, s: int)
    requires
        0 <= k < steps.len(),
    ensures
        step_lock(steps.take(k + 1), s) == (if steps[k].0 == s {
            Some(steps[k].1)
        } else {
            step_lock(steps.take(k), s)
        }),
{
    assert(steps.take(k + 1).drop_last() =~= steps.take(k));
}

/// The slot an entry describes, or the entry's first fault. `prior` holds
/// the slots of the earlier entries.
fn lane_from_entry(e: &LockEntry, prior: &Vec<LockLane>, Ghost(es): Ghost<Seq<LockEntry>>) -> (r: Result<LockLane, PoolDataError>)
    requires
        prior@.len() == es.len(),
        forall|j: int| 0 <= j < es.len() ==> (#[trigger] prior@[j]).track == es[j].track && prior@[j].dest == es[j].dest,
    ensures
        r is Err <==> entry_error(*e, es) is Some,
        r matches Err(x) ==> entry_error(*e, es) == Some(x),
        r matches Ok(l) ==> lane_wf(l) && describes(*e, l),
{
    if !((e.dest as usize) < NUM_PARAM_LANES || e.dest == VELOCITY_DEST) {
        return Err(PoolDataError::DestOutOfRange(e.dest));
    }
    if e.track as usize >= NUM_TRACKS {
        return Err(PoolDataError::TrackOutOfRange(e.track));
    }
    let mut j: usize = 0;
    while j < prior.len()
        invariant
            j <= prior@.len() == es.len(),
            valid_dest(e.dest),
            e.track < NUM_TRACKS,
            forall|q: int| 0 <= q < es.len() ==> (#[trigger] prior@[q]).track == es[q].track && prior@[q].dest == es[q].dest,
            forall|q: int| 0 <= q < j ==> !(#[trigger] es[q].track == e.track && es[q].dest == e.dest),
        decreases prior@.len() - j,
    {
        if prior[j].track == e.track && prior[j].dest == e.dest {
            proof {
                assert(es[j as int].track == e.track && es[j as int].dest == e.dest);
                assert(has_key(es, e.track, e.dest));
            }
            return Err(PoolDataError::DuplicateDest { track: e.track, dest: e.dest });
        }
        j += 1;
    }
    proof {
        assert(!has_key(es, e.track, e.dest));
    }
    if e.steps.len() == 0 {
        return Err(PoolDataError::EmptyEntry);
    }
    let zero = UnitValue::zero();
    let mut lane = LockLane {
        track: e.track,
        dest: e.dest,
        steps: [false; 128],
        values: vstd::array::array_fill_for_copy_types(zero),
    };
    let ghost st_seq = e.steps@;
    let mut k: usize = 0;
    while k < e.steps.len()
        invariant
            k <= st_seq.len(),
            st_seq == e.steps@,
            st_seq.len() > 0,
            valid_dest(e.dest),
            e.track < NUM_TRACKS,
            !has_key(es, e.track, e.dest),
            lane.track == e.track,
            lane.dest == e.dest,
            steps_error(st_seq, k as int) is None,
            forall|s: int| 0 <= s < MAX_STEPS ==> #[trigger] lane_lock(lane, s) == step_lock(st_seq.take(k as int), s),
            forall|s: int| 0 <= s < MAX_STEPS && !#[trigger] lane.steps[s] ==> lane.values[s].spec_bits() == 0,
            k > 0 ==> lane.steps[st_seq[0].0 as int],
            k > 0 ==> st_seq[0].0 < MAX_STEPS,
        decreases st_seq.len() - k,
    {
        let (st, v) = e.steps[k];
        proof {
            assert forall|s: int| 0 <= s < MAX_STEPS implies step_lock(st_seq.take(k as int + 1), s) == (if st == s {
                Some(v)
            } else {
                step_lock(st_seq.take(k as int), s)
            }) by {
                lemma_step_lock_push(st_seq, k as int, s);
            }
        }
        if st as usize >= MAX_STEPS {
            proof {
                assert(steps_error(st_seq, k as int + 1) == Some(PoolDataError::StepOutOfRange(st)));
                lemma_steps_error_persists(st_seq, k as int + 1, st_seq.len() as int);
            }
            return Err(PoolDataError::StepOutOfRange(st));
        }
        if lane.steps[st as usize] {
            proof {
                assert(lane_lock(lane, st as int) is Some);
                assert(steps_error(st_seq, k as int + 1) == Some(PoolDataError::DuplicateStep(st)));
                lemma_steps_error_persists(st_seq, k as int + 1, st_seq.len() as int);
            }
            return Err(PoolDataError::DuplicateStep(st));
        }
        proof {
            assert(lane_lock(lane, st as int) is None);
        }
        let ghost before = lane;
        lane.steps[st as usize] = true;
        lane.values[st as usize] = v;
        proof {
            assert forall|s: int| 0 <= s < MAX_STEPS implies #[trigger] lane_lock(lane, s) == step_lock(st_seq.take(k as int + 1), s) by {
                if s != st {
                    assert(lane.steps[s] == before.steps[s]);
                    assert(lane.values[s] == before.values[s]);
                    assert(lane_lock(before, s) == step_lock(st_seq.take(k as int), s));
                }
            }
            if k > 0 {
                assert(before.steps[st_seq[0].0 as int]);
            }
        }
        k += 1;
    }
    proof {
        assert(st_seq.take(st_seq.len() as int) =~= st_seq);
        assert(lane.steps[st_seq[0].0 as int]);
    }
    Ok(lane)
}

impl LockPool {
    /// Rebuilds a pool from its sparse form, or names the first structural
    /// fault (see the module documentation). On success the pool has one
    /// slot per entry, in entry order, each locked exactly as listed.
    pub fn from_entries(es: &[LockEntry]) -> (r: Result<LockPool, PoolDataError>)
        ensures
            r is Err <==> entries_error(es@) is Some,
            r matches Err(x) ==> entries_error(es@) == Some(x),
            r matches Ok(p) ==> p.lanes().len() == es@.len() && forall|i: int|
                0 <= i < es@.len() ==> describes(es@[i], #[trigger] p.lanes()[i]),
    {
        if es.len() > MAX_LOCK_LANES {
            return Err(PoolDataError::OverCapacity(es.len()));
        }
        let mut lanes: Vec<LockLane> = Vec::new();
        let mut i: usize = 0;
        while i < es.len()
            invariant
                i <= es@.len() <= MAX_LOCK_LANES,
                entries_error_upto(es@, i as int) is None,
                lanes@.len() == i,
                pool_wf(lanes@),
                forall|j: int| 0 <= j < i ==> describes(es@[j], #[trigger] lanes@[j]),
            decreases es@.len() - i,
        {
            let ghost prior = es@.take(i as int);
            proof {
                assert forall|j: int| 0 <= j < prior.len() implies (#[trigger] lanes@[j]).track == prior[j].track
                    && lanes@[j].dest == prior[j].dest by {
                    assert(describes(es@[j], lanes@[j]));
                }
            }
            match lane_from_entry(&es[i], &lanes, Ghost(prior)) {
                Ok(l) => {
                    proof {
                        assert(!has_slot(lanes@, l.track, l.dest)) by {
                            if has_slot(lanes@, l.track, l.dest) {
                                let j = slot_of(lanes@, l.track, l.dest);
                                assert(describes(es@[j], lanes@[j]));
                                assert(prior[j].track == l.track && prior[j].dest == l.dest);
                            }
                        }
                        crate::locks::lemma_push_slot(lanes@, l);
                        assert(es@.take(i as int + 1).take(i as int) =~= prior);
                    }
                    lanes.push(l);
                },
                Err(x) => {
                    proof {
                        assert(entries_error_upto(es@, i as int + 1) == Some(x));
                        lemma_error_persists(es@, i as int + 1, es@.len() as int);
                    }
                    return Err(x);
                },
            }
            i += 1;
        }
        Ok(LockPool::from_lanes(lanes))
    }
}

/// A well-formed stored slot: a valid destination of one of the 16 tracks,
/// at least one step, every step in range and none listed twice — in any
/// order.
pub open spec fn entry_well_formed(e: LockEntry) -> bool {
    &&& valid_dest(e.dest)
    &&& e.track < NUM_TRACKS
    &&& e.steps@.len() > 0
    &&& forall|k: int| 0 <= k < e.steps@.len() ==> (#[trigger] e.steps@[k]).0 < MAX_STEPS
    &&& forall|j: int, k: int|
        0 <= j < k < e.steps@.len() ==> (#[trigger] e.steps@[j]).0 != (#[trigger] e.steps@[k]).0
}

/// A well-formed stored pool: at most `MAX_LOCK_LANES` well-formed entries,
/// no two for the same (track, destination), in any order.
pub open spec fn entries_well_formed(es: Seq<LockEntry>) -> bool {
    &&& es.len() <= MAX_LOCK_LANES
    &&& forall|i: int| 0 <= i < es.len() ==> entry_well_formed(#[trigger] es[i])
    &&& forall|i: int, j: int|
        0 <= i < j < es.len() ==> !(#[trigger] es[i].track == #[trigger] es[j].track && es[i].dest == es[j].dest)
}

/// A step listed somewhere gets a value.
proof fn lemma_listed_step_locks(steps: Seq<(u8, UnitValue)>, j: int)
    requires
        0 <= j < steps.len(),
    ensures
        step_lock(steps, steps[j].0 as int) is Some,
    decreases steps.len(),
{
    if j < steps.len() - 1 && steps.last().0 != steps[j].0 {
        lemma_listed_step_locks(steps.drop_last(), j);
    }
}

/// The first `m` steps have no fault exactly when they are in range and
/// pairwise distinct.
proof fn lemma_steps_error_iff(steps: Seq<(u8, UnitValue)>, m: int)
    requires
        0 <= m <= steps.len(),
    ensures
        steps_error(steps, m) is None <==> ((forall|k: int| 0 <= k < m ==> (#[trigger] steps[k]).0 < MAX_STEPS) && (
        forall|j: int, k: int| 0 <= j < k < m ==> (#[trigger] steps[j]).0 != (#[trigger] steps[k]).0)),
    decreases m,
{
    if m > 0 {
        lemma_steps_error_iff(steps, m - 1);
        let st = steps[m - 1].0;
        let pre = steps.take(m - 1);
        if step_lock(pre, st as int) is Some {
            lemma_step_lock_listed(pre, st as int);
            let j = choose|j: int| 0 <= j < pre.len() && #[trigger] pre[j].0 == st;
            assert(steps[j].0 == steps[m - 1].0);
        } else {
            assert forall|j: int| 0 <= j < m - 1 implies (#[trigger] steps[j]).0 != st by {
                if steps[j].0 == st {
                    assert(pre[j] == steps[j]);
                    lemma_listed_step_locks(pre, j);
                }
            }
        }
    }
}

/// The first `n` entries have no fault exactly when they are well formed
/// and no two share a (track, destination).
proof fn lemma_entries_error_upto_iff(es: Seq<LockEntry>, n: int)
    requires
        0 <= n <= es.len(),
    ensures
        entries_error_upto(es, n) is None <==> ((forall|i: int| 0 <= i < n ==> entry_well_formed(#[trigger] es[i]))
            && (forall|i: int, j: int|
            0 <= i < j < n ==> !(#[trigger] es[i].track == #[trigger] es[j].track && es[i].dest == es[j].dest))),
    decreases n,
{
    if n > 0 {
        lemma_entries_error_upto_iff(es, n - 1);
        let e = es[n - 1];
        let prior = es.take(n - 1);
        lemma_steps_error_iff(e.steps@, e.steps@.len() as int);
        if has_key(prior, e.track, e.dest) {
            let j = choose|j: int| 0 <= j < prior.len() && #[trigger] prior[j].track == e.track && prior[j].dest == e.dest;
            assert(es[j].track == es[n - 1].track && es[j].dest == es[n - 1].dest);
        } else {
            assert forall|j: int| 0 <= j < n - 1 implies !(#[trigger] es[j].track == es[n - 1].track && es[j].dest
                == es[n - 1].dest) by {
                if es[j].track == e.track && es[j].dest == e.dest {
                    assert(prior[j].track == e.track && prior[j].dest == e.dest);
                }
            }
        }
    }
}

/// Loading a stored pool succeeds on exactly the well-formed entry lists:
/// at most `MAX_LOCK_LANES` entries with valid, pairwise distinct (track,
/// destination) keys and non-empty lists of in-range, pairwise distinct
/// steps — in any order of entries and of steps.
pub proof fn lemma_load_accepts_exactly_well_formed(es: Seq<LockEntry>)
    ensures
        entries_error(es) is None <==> entries_well_formed(es),
{
    if es.len() <= MAX_LOCK_LANES {
        lemma_entries_error_upto_iff(es, es.len() as int);
    }
}

/// Once a fault is found among the steps, later steps do not change which.
proof fn lemma_steps_error_persists(steps: Seq<(u8, UnitValue)>, m: int, n: int)
    requires
        0 <= m <= n,
        steps_error(steps, m) is Some,
    ensures
        steps_error(steps, n) == steps_error(steps, m),
    decreases n - m,
{
    if m < n {
        lemma_steps_error_persists(steps, m, n - 1);
    }
}

/// Once a fault is found, later entries do not change which.
proof fn lemma_error_persists(es: Seq<LockEntry>, m: int, n: int)
    requires
        0 <= m <= n,
        entries_error_upto(es, m) is Some,
    ensures
        entries_error_upto(es, n) == entries_error_upto(es, m),
    decreases n - m,
{
    if m < n {
        lemma_error_persists(es, m, n - 1);
    }
}

/// A step list that gives `x` a value lists `x` somewhere.
proof fn lemma_step_lock_listed(steps: Seq<(u8, UnitValue)>, x: int)
    requires
        step_lock(steps, x) is Some,
    ensures
        exists|j: int| 0 <= j < steps.len() && #[trigger] steps[j].0 == x,
    decreases steps.len(),
{
    if steps.last().0 != x {
        lemma_step_lock_listed(steps.drop_last(), x);
        let j = choose|j: int| 0 <= j < steps.drop_last().len() && #[trigger] steps.drop_last()[j].0 == x;
        assert(steps[j].0 == x);
    } else {
        assert(steps[steps.len() - 1].0 == x);
    }
}

/// The export of a slot below `n` lists its locked steps in strictly
/// ascending order, each with its value, and gives every step its lock.
proof fn lemma_locked_steps(l: LockLane, n: int)
    requires
        0 <= n <= MAX_STEPS,
    ensures
        forall|k: int| 0 <= k < locked_steps(l, n).len() ==> {
            let st = (#[trigger] locked_steps(l, n)[k]).0 as int;
            &&& st < n
            &&& l.steps[st]
            &&& locked_steps(l, n)[k].1 == l.values[st]
        },
        forall|j: int, k: int| 0 <= j < k < locked_steps(l, n).len() ==> (#[trigger] locked_steps(l, n)[j]).0 < (
            #[trigger] locked_steps(l, n)[k]).0,
        forall|s: int| 0 <= s < MAX_STEPS ==> #[trigger] step_lock(locked_steps(l, n), s) == (if s < n && l.steps[s] {
            Some(l.values[s])
        } else {
            None
        }),
        (exists|s: int| 0 <= s < n && #[trigger] l.steps[s]) ==> locked_steps(l, n).len() > 0,
    decreases n,
{
    if n > 0 {
        lemma_locked_steps(l, n - 1);
        let prev = locked_steps(l, n - 1);
        if l.steps[n - 1] {
            let cur = prev.push(((n - 1) as u8, l.values[n - 1]));
            assert(cur.drop_last() =~= prev);
            assert forall|s: int| 0 <= s < MAX_STEPS implies #[trigger] step_lock(cur, s) == (if s < n && l.steps[s] {
                Some(l.values[s])
            } else {
                None
            }) by {
                assert(step_lock(prev, s) == (if s < n - 1 && l.steps[s] {
                    Some(l.values[s])
                } else {
                    None
                }));
            }
        } else {
            if exists|s: int| 0 <= s < n && #[trigger] l.steps[s] {
                let s = choose|s: int| 0 <= s < n && #[trigger] l.steps[s];
                assert(s < n - 1);
            }
        }
    }
}

/// A list of in-range steps in strictly ascending order has no fault.
proof fn lemma_ascending_no_error(steps: Seq<(u8, UnitValue)>, m: int)
    requires
        0 <= m <= steps.len(),
        forall|k: int| 0 <= k < steps.len() ==> (#[trigger] steps[k]).0 < MAX_STEPS,
        forall|j: int, k: int| 0 <= j < k < steps.len() ==> (#[trigger] steps[j]).0 < (#[trigger] steps[k]).0,
    ensures
        steps_error(steps, m) is None,
    decreases m,
{
    if m > 0 {
        lemma_ascending_no_error(steps, m - 1);
        let st = steps[m - 1].0;
        if step_lock(steps.take(m - 1), st as int) is Some {
            lemma_step_lock_listed(steps.take(m - 1), st as int);
            let j = choose|j: int| 0 <= j < steps.take(m - 1).len() && #[trigger] steps.take(m - 1)[j].0 == st;
            assert(steps[j].0 < steps[m - 1].0);
        }
    }
}

/// Two well-formed slots that one entry describes are the same slot.
proof fn lemma_describes_unique(e: LockEntry, a: LockLane, b: LockLane)
    requires
        lane_wf(a),
        lane_wf(b),
        describes(e, a),
        describes(e, b),
    ensures
        a == b,
{
    assert forall|s: int| 0 <= s < MAX_STEPS implies a.steps[s] == b.steps[s] && a.values[s] == b.values[s] by {
        assert(lane_lock(a, s) == lane_lock(b, s));
        if !a.steps[s] {
            UnitValue::lemma_bits_eq(a.values[s], b.values[s]);
        }
    }
    assert(a.steps =~= b.steps);
    assert(a.values =~= b.values);
}

/// Storing a pool and loading it back gives the same pool: the exported
/// entries have no structural fault, and the only well-formed slots that
/// they describe, one per entry, are the pool's own.
pub proof fn lemma_export_import(lanes: Seq<LockLane>, es: Seq<LockEntry>, q: Seq<LockLane>)
    requires
        pool_wf(lanes),
        es.len() == lanes.len(),
        forall|i: int| 0 <= i < es.len() ==> exported(lanes[i], #[trigger] es[i]),
    ensures
        entries_error(es) is None,
        forall|i: int| 0 <= i < es.len() ==> describes(es[i], #[trigger] lanes[i]),
        q.len() == es.len() && (forall|i: int| 0 <= i < q.len() ==> lane_wf(#[trigger] q[i]) && describes(es[i], q[i]))
            ==> q == lanes,
{
    assert forall|i: int| 0 <= i < es.len() implies describes(es[i], #[trigger] lanes[i]) by {
        assert(exported(lanes[i], es[i]));
        lemma_locked_steps(lanes[i], MAX_STEPS as int);
    }
    assert forall|m: int| 0 <= m <= es.len() implies #[trigger] entries_error_upto(es, m) is None by {
        lemma_upto_no_error(lanes, es, m);
    }
    assert(entries_error_upto(es, es.len() as int) is None);
    if q.len() == es.len() && (forall|i: int| 0 <= i < q.len() ==> lane_wf(#[trigger] q[i]) && describes(es[i], q[i])) {
        assert forall|i: int| 0 <= i < q.len() implies q[i] == lanes[i] by {
            assert(lane_wf(q[i]) && describes(es[i], q[i]));
            assert(lane_wf(lanes[i]));
            lemma_describes_unique(es[i], q[i], lanes[i]);
        }
        assert(q =~= lanes);
    }
}

/// The exports of a well-formed pool have no fault among the first `m`.
proof fn lemma_upto_no_error(lanes: Seq<LockLane>, es: Seq<LockEntry>, m: int)
    requires
        pool_wf(lanes),
        es.len() == lanes.len(),
        forall|i: int| 0 <= i < es.len() ==> exported(lanes[i], #[trigger] es[i]),
        0 <= m <= es.len(),
    ensures
        entries_error_upto(es, m) is None,
    decreases m,
{
    if m > 0 {
        lemma_upto_no_error(lanes, es, m - 1);
        let i = m - 1;
        let l = lanes[i];
        let e = es[i];
        assert(exported(l, e));
        assert(lane_wf(l));
        lemma_locked_steps(l, MAX_STEPS as int);
        let ls = locked_steps(l, MAX_STEPS as int);
        assert(e.steps@ == ls);
        lemma_ascending_no_error(ls, ls.len() as int);
        let prior = es.take(i);
        if has_key(prior, e.track, e.dest) {
            let j = choose|j: int| 0 <= j < prior.len() && #[trigger] prior[j].track == e.track && prior[j].dest == e.dest;
            assert(exported(lanes[j], es[j]));
            assert(lanes[j].track != lanes[i].track || lanes[j].dest != lanes[i].dest);
        }
    }
}

} // verus!
