//! The pattern-level parameter-lock pool.
//!
//! Locks live per pattern, not per step, as on the hardware: each distinct
//! (track, destination) pair locked anywhere in the pattern occupies one pool
//! slot, and a pattern holds at most `MAX_LOCK_LANES` slots. Locking more
//! steps of an already-locked destination is free; locking a new destination
//! when the pool is full fails with `LockError::PoolFull`; clearing a
//! destination's last locked step frees its slot.

use vstd::prelude::*;
use crate::unit::UnitValue;
use crate::{MAX_LOCK_LANES, MAX_STEPS, NUM_PARAM_LANES, NUM_TRACKS};

verus! {

broadcast use vstd::array::group_array_axioms;

/// Destination meaning "velocity" in pool entries.
pub const VELOCITY_DEST: u8 = 255;

/// A lock destination: a lane index or the velocity sentinel.
pub open spec fn valid_dest(d: u8) -> bool {
    d < NUM_PARAM_LANES || d == VELOCITY_DEST
}

/// Error returned by the `Pattern` lock-editing API.
#[derive(Clone, Copy, Debug, PartialEq, Eq, Structural)]
pub enum LockError {
    /// The pattern already holds `MAX_LOCK_LANES` distinct (track,
    /// destination) locks.
    PoolFull,
    /// Track, step, or lane index out of range.
    OutOfRange,
}

/// One pool slot: every lock the pattern holds for a single
/// (track, destination) pair, across all 128 steps.
#[derive(Clone, Copy, Debug, PartialEq)]
pub struct LockLane {
    /// Which track, `0..16`.
    pub track: u8,
    /// Destination: a lane index, or `VELOCITY_DEST`.
    pub dest: u8,
    /// `steps[i]` = step `i` holds a lock.
    pub steps: [bool; 128],
    /// Per-step lock values; slots of unlocked steps hold `0.0`.
    pub values: [UnitValue; 128],
}

/// A well-formed slot: indices in range, at least one locked step, and the
/// canonical `0.0` in every unlocked step's value.
pub open spec fn lane_wf(l: LockLane) -> bool {
    &&& l.track < NUM_TRACKS
    &&& valid_dest(l.dest)
    &&& exists|s: int| 0 <= s < MAX_STEPS && #[trigger] l.steps[s]
    &&& forall|s: int| 0 <= s < MAX_STEPS && !#[trigger] l.steps[s] ==> l.values[s].spec_bits() == 0
}

/// A well-formed pool: at most `MAX_LOCK_LANES` well-formed slots with
/// pairwise distinct (track, destination).
pub open spec fn pool_wf(lanes: Seq<LockLane>) -> bool {
    &&& lanes.len() <= MAX_LOCK_LANES
    &&& forall|i: int| 0 <= i < lanes.len() ==> lane_wf(#[trigger] lanes[i])
    &&& forall|i: int, j: int|
        0 <= i < lanes.len() && 0 <= j < lanes.len() && i != j ==> (#[trigger] lanes[i].track
            != #[trigger] lanes[j].track || lanes[i].dest != lanes[j].dest)
}

/// The pool has a slot for `(t, d)`.
pub open spec fn has_slot(lanes: Seq<LockLane>, t: u8, d: u8) -> bool {
    exists|i: int| 0 <= i < lanes.len() && #[trigger] lanes[i].track == t && lanes[i].dest == d
}

/// The index of the slot for `(t, d)` (meaningful when `has_slot`).
pub open spec fn slot_of(lanes: Seq<LockLane>, t: u8, d: u8) -> int {
    choose|i: int| 0 <= i < lanes.len() && #[trigger] lanes[i].track == t && lanes[i].dest == d
}

/// The slot for `(t, d)`, if the pool has one.
pub open spec fn slot_lane(lanes: Seq<LockLane>, t: u8, d: u8) -> Option<LockLane> {
    if has_slot(lanes, t, d) {
        Some(lanes[slot_of(lanes, t, d)])
    } else {
        None
    }
}

/// The lock a slot holds at step `s`.
pub open spec fn lane_lock(l: LockLane, s: int) -> Option<UnitValue> {
    if 0 <= s < MAX_STEPS && l.steps[s] {
        Some(l.values[s])
    } else {
        None
    }
}

/// The lock the pool holds on destination `d` of track `t` at step `s`.
pub open spec fn lock_at(lanes: Seq<LockLane>, t: u8, s: int, d: u8) -> Option<UnitValue> {
    match slot_lane(lanes, t, d) {
        Some(l) => lane_lock(l, s),
        None => None,
    }
}

/// In a well-formed pool, any slot matching `(t, d)` is *the* slot.
pub proof fn lemma_slot_unique(lanes: Seq<LockLane>, t: u8, d: u8, i: int)
    requires
        pool_wf(lanes),
        0 <= i < lanes.len(),
        lanes[i].track == t,
        lanes[i].dest == d,
    ensures
        has_slot(lanes, t, d),
        slot_of(lanes, t, d) == i,
{
    assert(has_slot(lanes, t, d));
    let j = slot_of(lanes, t, d);
    if j != i {
        assert(lanes[i].track != lanes[j].track || lanes[i].dest != lanes[j].dest);
    }
}

/// Replacing a slot by one with the same key changes only that key's slot.
pub proof fn lemma_update_slot(a: Seq<LockLane>, i: int, l: LockLane)
    requires
        pool_wf(a),
        0 <= i < a.len(),
        l.track == a[i].track,
        l.dest == a[i].dest,
        lane_wf(l),
    ensures
        pool_wf(a.update(i, l)),
        forall|t: u8, d: u8| #[trigger] slot_lane(a.update(i, l), t, d) == (if t == l.track && d == l.dest {
            Some(l)
        } else {
            slot_lane(a, t, d)
        }),
{
    let b = a.update(i, l);
    assert forall|x: int, y: int| 0 <= x < b.len() && 0 <= y < b.len() && x != y implies (#[trigger] b[x].track
        != #[trigger] b[y].track || b[x].dest != b[y].dest) by {
        assert(a[x].track != a[y].track || a[x].dest != a[y].dest);
    }
    assert forall|x: int| 0 <= x < b.len() implies lane_wf(#[trigger] b[x]) by {
        if x != i {
            assert(lane_wf(a[x]));
        }
    }
    assert forall|t: u8, d: u8| #[trigger] slot_lane(b, t, d) == (if t == l.track && d == l.dest {
        Some(l)
    } else {
        slot_lane(a, t, d)
    }) by {
        if t == l.track && d == l.dest {
            lemma_slot_unique(b, t, d, i);
        } else if has_slot(a, t, d) {
            let j = slot_of(a, t, d);
            lemma_slot_unique(a, t, d, j);
            lemma_slot_unique(b, t, d, j);
        } else {
            if has_slot(b, t, d) {
                let j = slot_of(b, t, d);
                assert(a[j].track == t && a[j].dest == d);
            }
        }
    }
}

/// Appending a slot with a new key changes only that key's slot.
pub proof fn lemma_push_slot(a: Seq<LockLane>, l: LockLane)
    requires
        pool_wf(a),
        a.len() < MAX_LOCK_LANES,
        !has_slot(a, l.track, l.dest),
        lane_wf(l),
    ensures
        pool_wf(a.push(l)),
        forall|t: u8, d: u8| #[trigger] slot_lane(a.push(l), t, d) == (if t == l.track && d == l.dest {
            Some(l)
        } else {
            slot_lane(a, t, d)
        }),
{
    lemma_push_keys(a, l);
    let b = a.push(l);
    assert forall|x: int| 0 <= x < b.len() implies lane_wf(#[trigger] b[x]) by {
        if x < a.len() {
            assert(lane_wf(a[x]));
        }
    }
}

/// Appending a slot with a new key keeps keys distinct and moves no other
/// key's slot (the lanes need not be well formed).
pub proof fn lemma_push_keys(a: Seq<LockLane>, l: LockLane)
    requires
        forall|i: int, j: int|
            0 <= i < a.len() && 0 <= j < a.len() && i != j ==> (#[trigger] a[i].track
                != #[trigger] a[j].track || a[i].dest != a[j].dest),
        !has_slot(a, l.track, l.dest),
    ensures
        forall|i: int, j: int|
            0 <= i < a.push(l).len() && 0 <= j < a.push(l).len() && i != j ==> (
            #[trigger] a.push(l)[i].track != #[trigger] a.push(l)[j].track || a.push(l)[i].dest
                != a.push(l)[j].dest),
        forall|t: u8, d: u8| #[trigger] slot_lane(a.push(l), t, d) == (if t == l.track && d == l.dest {
            Some(l)
        } else {
            slot_lane(a, t, d)
        }),
{
    let b = a.push(l);
    assert forall|x: int, y: int| 0 <= x < b.len() && 0 <= y < b.len() && x != y implies (#[trigger] b[x].track
        != #[trigger] b[y].track || b[x].dest != b[y].dest) by {
        if x < a.len() && y < a.len() {
            assert(a[x].track != a[y].track || a[x].dest != a[y].dest);
        } else if x < a.len() {
            assert(!(a[x].track == l.track && a[x].dest == l.dest));
        } else if y < a.len() {
            assert(!(a[y].track == l.track && a[y].dest == l.dest));
        }
    }
    assert forall|t: u8, d: u8| #[trigger] slot_lane(b, t, d) == (if t == l.track && d == l.dest {
        Some(l)
    } else {
        slot_lane(a, t, d)
    }) by {
        if t == l.track && d == l.dest {
            assert(b[a.len() as int].track == t && b[a.len() as int].dest == d);
            assert(has_slot(b, t, d));
            let j = slot_of(b, t, d);
            if j != a.len() {
                assert(b[j] == a[j]);
            }
        } else if has_slot(a, t, d) {
            let j = slot_of(a, t, d);
            assert(b[j] == a[j]);
            assert(has_slot(b, t, d));
            let k = slot_of(b, t, d);
            if k != j {
                assert(b[k].track != b[j].track || b[k].dest != b[j].dest);
            }
        } else {
            if has_slot(b, t, d) {
                let j = slot_of(b, t, d);
                assert(a[j].track == t && a[j].dest == d);
            }
        }
    }
}

/// Removing a slot drops only that key's slot.
pub proof fn lemma_remove_slot(a: Seq<LockLane>, i: int)
    requires
        pool_wf(a),
        0 <= i < a.len(),
    ensures
        pool_wf(a.remove(i)),
        forall|t: u8, d: u8| #[trigger] slot_lane(a.remove(i), t, d) == (if t == a[i].track && d
            == a[i].dest {
            None
        } else {
            slot_lane(a, t, d)
        }),
{
    let b = a.remove(i);
    assert forall|x: int| 0 <= x < b.len() implies #[trigger] b[x] == (if x < i {
        a[x]
    } else {
        a[x + 1]
    }) by {}
    assert forall|x: int, y: int| 0 <= x < b.len() && 0 <= y < b.len() && x != y implies (#[trigger] b[x].track
        != #[trigger] b[y].track || b[x].dest != b[y].dest) by {
        let xa = if x < i { x } else { x + 1 };
        let ya = if y < i { y } else { y + 1 };
        assert(a[xa].track != a[ya].track || a[xa].dest != a[ya].dest);
    }
    assert forall|x: int| 0 <= x < b.len() implies lane_wf(#[trigger] b[x]) by {
        let xa = if x < i { x } else { x + 1 };
        assert(lane_wf(a[xa]));
    }
    assert forall|t: u8, d: u8| #[trigger] slot_lane(b, t, d) == (if t == a[i].track && d == a[i].dest {
        None
    } else {
        slot_lane(a, t, d)
    }) by {
        if t == a[i].track && d == a[i].dest {
            if has_slot(b, t, d) {
                let j = slot_of(b, t, d);
                let ja = if j < i { j } else { j + 1 };
                assert(a[ja].track == t && a[ja].dest == d);
                assert(a[ja].track != a[i].track || a[ja].dest != a[i].dest);
            }
        } else if has_slot(a, t, d) {
            let j = slot_of(a, t, d);
            lemma_slot_unique(a, t, d, j);
            let jb = if j < i { j } else { j - 1 };
            assert(b[jb] == a[j]);
            lemma_slot_unique(b, t, d, jb);
        } else {
            if has_slot(b, t, d) {
                let j = slot_of(b, t, d);
                let ja = if j < i { j } else { j + 1 };
                assert(a[ja].track == t && a[ja].dest == d);
            }
        }
    }
}

/// The parameter-lock pool of a pattern.
#[derive(Debug, PartialEq)]
pub struct LockPool {
    lanes: Vec<LockLane>,
}

impl Clone for LockPool {
    fn clone(&self) -> (r: Self)
        ensures
            r.lanes() == self.lanes(),
    {
        proof {
            use_type_invariant(self);
        }
        let mut lanes: Vec<LockLane> = Vec::new();
        let mut i: usize = 0;
        while i < self.lanes.len()
            invariant
                0 <= i <= self.lanes@.len(),
                pool_wf(self.lanes@),
                lanes@ == self.lanes@.subrange(0, i as int),
            decreases self.lanes@.len() - i,
        {
            lanes.push(self.lanes[i]);
            i += 1;
        }
        assert(lanes@ == self.lanes@);
        LockPool { lanes }
    }
}

impl LockPool {
    #[verifier::type_invariant]
    spec fn inv(self) -> bool {
        pool_wf(self.lanes@)
    }

    /// The slots, in the order they were first allocated.
    pub closed spec fn lanes(self) -> Seq<LockLane> {
        self.lanes@
    }

    /// The lock held on destination `d` of track `t` at step `s`.
    pub open spec fn lock(self, t: u8, s: int, d: u8) -> Option<UnitValue> {
        lock_at(self.lanes(), t, s, d)
    }

    /// Makes the pool's invariant available to verified callers (it holds of
    /// every pool); does nothing at run time.
    pub fn prove_wf(&self)
        ensures
            pool_wf(self.lanes()),
    {
        proof {
            use_type_invariant(self);
        }
    }

    /// An empty pool.
    pub fn new() -> (r: Self)
        ensures
            r.lanes() == Seq::<LockLane>::empty(),
    {
        LockPool { lanes: Vec::new() }
    }

    /// A pool holding exactly the given well-formed slots.
    pub fn from_lanes(lanes: Vec<LockLane>) -> (r: Self)
        requires
            pool_wf(lanes@),
        ensures
            r.lanes() == lanes@,
    {
        LockPool { lanes }
    }

    /// The slot at index `i`, in allocation order.
    pub fn lane(&self, i: usize) -> (r: LockLane)
        requires
            i < self.lanes().len(),
        ensures
            r == self.lanes()[i as int],
            lane_wf(r),
    {
        proof {
            use_type_invariant(self);
        }
        self.lanes[i]
    }

    /// Number of occupied slots.
    pub fn count(&self) -> (r: usize)
        ensures
            r == self.lanes().len(),
            r <= MAX_LOCK_LANES,
    {
        proof {
            use_type_invariant(self);
        }
        self.lanes.len()
    }

    /// The index of the slot for `(t, d)`, if any.
    fn find(&self, t: u8, d: u8) -> (r: Option<usize>)
        ensures
            r is Some <==> has_slot(self.lanes(), t, d),
            r matches Some(i) ==> i == slot_of(self.lanes(), t, d) && i < self.lanes().len(),
    {
        proof {
            use_type_invariant(self);
        }
        let mut i: usize = 0;
        while i < self.lanes.len()
            invariant
                0 <= i <= self.lanes@.len(),
                pool_wf(self.lanes@),
                forall|j: int| 0 <= j < i ==> !(#[trigger] self.lanes@[j].track == t && self.lanes@[j].dest == d),
            decreases self.lanes@.len() - i,
        {
            if self.lanes[i].track == t && self.lanes[i].dest == d {
                proof {
                    lemma_slot_unique(self.lanes@, t, d, i as int);
                }
                return Some(i);
            }
            i += 1;
        }
        None
    }

    /// The lock on `(t, s, d)`, or `None` when unlocked or out of range.
    pub fn get(&self, t: usize, s: usize, d: u8) -> (r: Option<UnitValue>)
        ensures
            r == (if t < NUM_TRACKS && s < MAX_STEPS {
                self.lock(t as u8, s as int, d)
            } else {
                None
            }),
    {
        if t >= NUM_TRACKS || s >= MAX_STEPS {
            return None;
        }
        match self.find(t as u8, d) {
            Some(i) => {
                if self.lanes[i].steps[s] {
                    Some(self.lanes[i].values[s])
                } else {
                    None
                }
            },
            None => None,
        }
    }
}


/// Slot `b` is slot `a` with step `s` locked to `v`, every other step as it was.
pub open spec fn lane_set_at(a: LockLane, b: LockLane, s: int, v: UnitValue) -> bool {
    &&& b.track == a.track
    &&& b.dest == a.dest
    &&& b.steps[s]
    &&& b.values[s] == v
    &&& forall|k: int| 0 <= k < MAX_STEPS && k != s ==> #[trigger] b.steps[k] == a.steps[k] && b.values[k] == a.values[k]
}

/// Slot `b` is slot `a` with step `s` unlocked, every other step as it was.
pub open spec fn lane_cleared_at(a: LockLane, b: LockLane, s: int) -> bool {
    &&& b.track == a.track
    &&& b.dest == a.dest
    &&& !b.steps[s]
    &&& b.values[s].spec_bits() == 0
    &&& forall|k: int| 0 <= k < MAX_STEPS && k != s ==> #[trigger] b.steps[k] == a.steps[k] && b.values[k] == a.values[k]
}

/// `l` is a new slot for `(t, d)` whose only locked step is `s`, holding `v`.
pub open spec fn fresh_lane(l: LockLane, t: u8, d: u8, s: int, v: UnitValue) -> bool {
    &&& l.track == t
    &&& l.dest == d
    &&& l.steps[s]
    &&& l.values[s] == v
    &&& forall|k: int| 0 <= k < MAX_STEPS && k != s ==> !#[trigger] l.steps[k] && l.values[k].spec_bits() == 0
}

/// The slots `b` that locking `(t, s, d)` to `v` makes of the slots `a`: the
/// slot for `(t, d)` is edited where it stands, or, when there is none, a
/// fresh slot is appended after all the others.
pub open spec fn set_result(a: Seq<LockLane>, b: Seq<LockLane>, t: u8, s: int, d: u8, v: UnitValue) -> bool {
    if has_slot(a, t, d) {
        let i = slot_of(a, t, d);
        b == a.update(i, b[i]) && lane_set_at(a[i], b[i], s, v)
    } else {
        b == a.push(b.last()) && fresh_lane(b.last(), t, d, s, v)
    }
}

/// The slots `b` that unlocking `(t, s, d)` makes of the slots `a`: nothing
/// changes without a slot for `(t, d)`; the slot is removed, the others
/// keeping their order, when `s` was its only locked step; otherwise it is
/// edited where it stands.
pub open spec fn clear_result(a: Seq<LockLane>, b: Seq<LockLane>, t: u8, s: int, d: u8) -> bool {
    if !has_slot(a, t, d) {
        b == a
    } else if only_step(a, t, s, d) {
        b == a.remove(slot_of(a, t, d))
    } else {
        let i = slot_of(a, t, d);
        b == a.update(i, b[i]) && lane_cleared_at(a[i], b[i], s)
    }
}

/// Every slot of `b` has a slot for its key in `a`, and `b` lists them in
/// the order `a` does.
pub open spec fn keeps_order(a: Seq<LockLane>, b: Seq<LockLane>) -> bool {
    &&& forall|i: int| 0 <= i < b.len() ==> has_slot(a, (#[trigger] b[i]).track, b[i].dest)
    &&& forall|i: int, j: int|
        0 <= i < j < b.len() ==> slot_of(a, (#[trigger] b[i]).track, b[i].dest) < slot_of(
            a,
            (#[trigger] b[j]).track,
            b[j].dest,
        )
}

/// A well-formed pool keeps its own order.
pub proof fn lemma_keeps_order_refl(a: Seq<LockLane>)
    requires
        pool_wf(a),
    ensures
        keeps_order(a, a),
{
    assert forall|i: int| 0 <= i < a.len() implies has_slot(a, (#[trigger] a[i]).track, a[i].dest)
        && slot_of(a, a[i].track, a[i].dest) == i by {
        lemma_slot_unique(a, a[i].track, a[i].dest, i);
    }
}

/// Editing a slot in place, key unchanged, keeps the order.
pub proof fn lemma_keeps_order_update(a: Seq<LockLane>, i: int, l: LockLane)
    requires
        pool_wf(a),
        0 <= i < a.len(),
        l.track == a[i].track,
        l.dest == a[i].dest,
    ensures
        keeps_order(a, a.update(i, l)),
{
    let b = a.update(i, l);
    assert forall|k: int| 0 <= k < b.len() implies has_slot(a, (#[trigger] b[k]).track, b[k].dest)
        && slot_of(a, b[k].track, b[k].dest) == k by {
        lemma_slot_unique(a, b[k].track, b[k].dest, k);
    }
}

/// Removing a slot keeps the others in order.
pub proof fn lemma_keeps_order_remove(a: Seq<LockLane>, i: int)
    requires
        pool_wf(a),
        0 <= i < a.len(),
    ensures
        keeps_order(a, a.remove(i)),
{
    let b = a.remove(i);
    assert forall|k: int| 0 <= k < b.len() implies has_slot(a, (#[trigger] b[k]).track, b[k].dest)
        && slot_of(a, b[k].track, b[k].dest) == (if k < i { k } else { k + 1 }) by {
        let ka = if k < i { k } else { k + 1 };
        assert(b[k] == a[ka]);
        lemma_slot_unique(a, b[k].track, b[k].dest, ka);
    }
}

/// Keeping order composes.
pub proof fn lemma_keeps_order_trans(a: Seq<LockLane>, b: Seq<LockLane>, c: Seq<LockLane>)
    requires
        keeps_order(a, b),
        keeps_order(b, c),
    ensures
        keeps_order(a, c),
{
    assert forall|i: int| 0 <= i < c.len() implies has_slot(a, (#[trigger] c[i]).track, c[i].dest) by {
        let p = slot_of(b, c[i].track, c[i].dest);
        assert(b[p].track == c[i].track && b[p].dest == c[i].dest);
        assert(has_slot(a, b[p].track, b[p].dest));
    }
    assert forall|i: int, j: int| 0 <= i < j < c.len() implies slot_of(a, (#[trigger] c[i]).track, c[i].dest)
        < slot_of(a, (#[trigger] c[j]).track, c[j].dest) by {
        let p = slot_of(b, c[i].track, c[i].dest);
        let q = slot_of(b, c[j].track, c[j].dest);
        assert(b[p].track == c[i].track && b[p].dest == c[i].dest);
        assert(b[q].track == c[j].track && b[q].dest == c[j].dest);
        assert(p < q);
        assert(slot_of(a, b[p].track, b[p].dest) < slot_of(a, b[q].track, b[q].dest));
    }
}

/// Unlocking keeps the order of the slots.
pub proof fn lemma_clear_keeps_order(a: Seq<LockLane>, b: Seq<LockLane>, t: u8, s: int, d: u8)
    requires
        pool_wf(a),
        clear_result(a, b, t, s, d),
    ensures
        keeps_order(a, b),
{
    if !has_slot(a, t, d) {
        lemma_keeps_order_refl(a);
    } else {
        let i = slot_of(a, t, d);
        if only_step(a, t, s, d) {
            lemma_keeps_order_remove(a, i);
        } else {
            lemma_keeps_order_update(a, i, b[i]);
        }
    }
}

/// Undo: locking a step that held no lock and then clearing that lock gives
/// back exactly the slots there were before — the same slots with the same
/// contents, in the same order.
pub proof fn lemma_set_then_clear_restores(
    a: Seq<LockLane>,
    b: Seq<LockLane>,
    c: Seq<LockLane>,
    t: u8,
    s: int,
    d: u8,
    v: UnitValue,
)
    requires
        pool_wf(a),
        pool_wf(b),
        0 <= s < MAX_STEPS,
        lock_at(a, t, s, d) is None,
        set_result(a, b, t, s, d, v),
        clear_result(b, c, t, s, d),
    ensures
        c == a,
{
    if has_slot(a, t, d) {
        let i = slot_of(a, t, d);
        let l1 = b[i];
        lemma_slot_unique(b, t, d, i);
        let old_lane = a[i];
        assert(lane_wf(old_lane));
        assert(!old_lane.steps[s]);
        let w = choose|k: int| 0 <= k < MAX_STEPS && #[trigger] old_lane.steps[k];
        assert(w != s && l1.steps[w]);
        assert(lock_at(b, t, w, d) is Some);
        assert(!only_step(b, t, s, d));
        let l2 = c[i];
        assert(l2.steps =~= old_lane.steps);
        assert(l2.values =~= old_lane.values) by {
            assert forall|k: int| 0 <= k < MAX_STEPS implies l2.values[k] == old_lane.values[k] by {
                if k == s {
                    UnitValue::lemma_bits_eq(l2.values[k], old_lane.values[k]);
                } else {
                    assert(l2.steps[k] == l1.steps[k]);
                    assert(l1.steps[k] == old_lane.steps[k]);
                }
            }
        }
        assert(l2 == old_lane);
        assert(c =~= a);
    } else {
        let n = a.len() as int;
        let l = b.last();
        assert(b[n] == l);
        lemma_slot_unique(b, t, d, n);
        assert(lock_at(b, t, s, d) == Some(v));
        assert forall|s2: int| 0 <= s2 < MAX_STEPS && s2 != s implies #[trigger] lock_at(b, t, s2, d) is None by {
            assert(!l.steps[s2]);
        }
        assert(only_step(b, t, s, d));
        assert(c =~= a);
    }
}

/// Whether any step of a slot is locked.
fn any_locked(steps: &[bool; 128]) -> (r: bool)
    ensures
        r <==> exists|s: int| 0 <= s < MAX_STEPS && #[trigger] steps[s],
{
    let mut i: usize = 0;
    while i < MAX_STEPS
        invariant
            0 <= i <= MAX_STEPS,
            forall|s: int| 0 <= s < i ==> !#[trigger] steps[s],
        decreases MAX_STEPS - i,
    {
        if steps[i] {
            return true;
        }
        i += 1;
    }
    false
}

impl LockPool {
    /// Locks destination `d` of track `t` at step `s` to `value`.
    ///
    /// `OutOfRange` for bad indices; `PoolFull` when `(t, d)` has no slot yet
    /// and the pool already holds `MAX_LOCK_LANES` slots. On success the lock
    /// reads back as `value` and every other lock is unchanged; a new slot is
    /// appended only when `(t, d)` had none.
    pub fn set(&mut self, t: usize, s: usize, d: u8, value: UnitValue) -> (r: Result<(), LockError>)
        requires
            valid_dest(d),
        ensures
            r == Err::<(), LockError>(LockError::OutOfRange) <==> !(t < NUM_TRACKS && s < MAX_STEPS),
            r == Err::<(), LockError>(LockError::PoolFull) <==> (t < NUM_TRACKS && s < MAX_STEPS
                && !has_slot(old(self).lanes(), t as u8, d) && old(self).lanes().len()
                >= MAX_LOCK_LANES),
            r is Err ==> final(self).lanes() == old(self).lanes(),
            r is Ok ==> final(self).lock(t as u8, s as int, d) == Some(value),
            r is Ok ==> forall|t2: u8, s2: int, d2: u8|
                !(t2 == t && s2 == s && d2 == d) ==> #[trigger] final(self).lock(t2, s2, d2)
                    == old(self).lock(t2, s2, d2),
            r is Ok ==> final(self).lanes().len() == old(self).lanes().len() + (if has_slot(
                old(self).lanes(),
                t as u8,
                d,
            ) {
                0int
            } else {
                1int
            }),
            r is Ok ==> forall|t2: u8, d2: u8|
                #[trigger] has_slot(final(self).lanes(), t2, d2) <==> (has_slot(old(self).lanes(), t2, d2) || (
                t2 == t && d2 == d)),
            r is Ok ==> set_result(old(self).lanes(), final(self).lanes(), t as u8, s as int, d, value),
    {
        proof {
            use_type_invariant(&*self);
        }
        if t >= NUM_TRACKS || s >= MAX_STEPS {
            return Err(LockError::OutOfRange);
        }
        match self.find(t as u8, d) {
            Some(i) => {
                let mut lane = self.lanes[i];
                lane.steps[s] = true;
                lane.values[s] = value;
                proof {
                    let old_lane = self.lanes@[i as int];
                    assert(lane.steps[s as int]);
                    assert forall|k: int| 0 <= k < MAX_STEPS && !#[trigger] lane.steps[k] implies lane.values[k].spec_bits() == 0 by {
                        assert(k != s);
                        assert(lane_wf(old_lane));
                        assert(!old_lane.steps[k]);
                    }
                    lemma_update_slot(self.lanes@, i as int, lane);
                }
                let mut lanes: Vec<LockLane> = Vec::new();
                std::mem::swap(&mut lanes, &mut self.lanes);
                lanes.set(i, lane);
                self.lanes = lanes;
                proof {
                    assert forall|t2: u8, d2: u8| #[trigger] has_slot(self.lanes@, t2, d2) <==> (has_slot(old(self).lanes(), t2, d2) || (t2 == t && d2 == d)) by {
                        assert(slot_lane(self.lanes@, t2, d2) is Some <==> has_slot(self.lanes@, t2, d2));
                        assert(slot_lane(old(self).lanes(), t2, d2) is Some <==> has_slot(old(self).lanes(), t2, d2));
                    }
                }
                Ok(())
            },
            None => {
                if self.lanes.len() >= MAX_LOCK_LANES {
                    return Err(LockError::PoolFull);
                }
                let zero = UnitValue::zero();
                let mut lane = LockLane {
                    track: t as u8,
                    dest: d,
                    steps: [false; 128],
                    values: vstd::array::array_fill_for_copy_types(zero),
                };
                lane.steps[s] = true;
                lane.values[s] = value;
                proof {
                    assert(lane.steps[s as int]);
                    assert forall|k: int| 0 <= k < MAX_STEPS && !#[trigger] lane.steps[k] implies lane.values[k].spec_bits() == 0 by {
                        assert(k != s);
                    }
                    lemma_push_slot(self.lanes@, lane);
                }
                let mut lanes: Vec<LockLane> = Vec::new();
                std::mem::swap(&mut lanes, &mut self.lanes);
                lanes.push(lane);
                self.lanes = lanes;
                proof {
                    assert forall|t2: u8, d2: u8| #[trigger] has_slot(self.lanes@, t2, d2) <==> (has_slot(old(self).lanes(), t2, d2) || (t2 == t && d2 == d)) by {
                        assert(slot_lane(self.lanes@, t2, d2) is Some <==> has_slot(self.lanes@, t2, d2));
                        assert(slot_lane(old(self).lanes(), t2, d2) is Some <==> has_slot(old(self).lanes(), t2, d2));
                    }
                }
                Ok(())
            },
        }
    }
}

/// The slot for `(t, d)` exists and step `s` is its only locked step.
pub open spec fn only_step(lanes: Seq<LockLane>, t: u8, s: int, d: u8) -> bool {
    has_slot(lanes, t, d) && lock_at(lanes, t, s, d) is Some && forall|s2: int|
        0 <= s2 < MAX_STEPS && s2 != s ==> #[trigger] lock_at(lanes, t, s2, d) is None
}

impl LockPool {
    /// Removes the lock on destination `d` of track `t` at step `s`;
    /// clearing a destination's last locked step frees its slot (the other
    /// slots keep their order). No-op for unlocked steps or bad indices.
    pub fn clear(&mut self, t: usize, s: usize, d: u8)
        ensures
            t < NUM_TRACKS && s < MAX_STEPS ==> final(self).lock(t as u8, s as int, d) is None,
            forall|t2: u8, s2: int, d2: u8|
                !(t2 == t && s2 == s && d2 == d) ==> #[trigger] final(self).lock(t2, s2, d2)
                    == old(self).lock(t2, s2, d2),
            forall|t2: u8, d2: u8|
                #[trigger] has_slot(final(self).lanes(), t2, d2) <==> (has_slot(old(self).lanes(), t2, d2)
                    && !(t2 == t && d2 == d && t < NUM_TRACKS && only_step(
                    old(self).lanes(),
                    t2,
                    s as int,
                    d2,
                ))),
            final(self).lanes().len() == old(self).lanes().len() - (if t < NUM_TRACKS && only_step(
                old(self).lanes(),
                t as u8,
                s as int,
                d,
            ) {
                1int
            } else {
                0int
            }),
            t < NUM_TRACKS && s < MAX_STEPS ==> clear_result(old(self).lanes(), final(self).lanes(), t as u8, s as int, d),
            !(t < NUM_TRACKS && s < MAX_STEPS) ==> final(self).lanes() == old(self).lanes(),
    {
        proof {
            use_type_invariant(&*self);
        }
        if t >= NUM_TRACKS || s >= MAX_STEPS {
            proof {
                if t < NUM_TRACKS && only_step(self.lanes@, t as u8, s as int, d) {
                    assert(lock_at(self.lanes@, t as u8, s as int, d) is None);
                }
            }
            return;
        }
        match self.find(t as u8, d) {
            Some(i) => {
                let ghost old_lane = self.lanes@[i as int];
                let mut lane = self.lanes[i];
                lane.steps[s] = false;
                lane.values[s] = UnitValue::zero();
                let mut lanes: Vec<LockLane> = Vec::new();
                std::mem::swap(&mut lanes, &mut self.lanes);
                if any_locked(&lane.steps) {
                    proof {
                        assert(lane_wf(old_lane));
                        assert forall|k: int| 0 <= k < MAX_STEPS && !#[trigger] lane.steps[k] implies lane.values[k].spec_bits() == 0 by {
                            if k != s {
                                assert(!old_lane.steps[k]);
                            }
                        }
                        lemma_update_slot(lanes@, i as int, lane);
                        let s2w = choose|k: int| 0 <= k < MAX_STEPS && #[trigger] lane.steps[k];
                        assert(s2w != s);
                        assert(lock_at(old(self).lanes(), t as u8, s2w, d) is Some);
                        assert(!only_step(old(self).lanes(), t as u8, s as int, d));
                    }
                    lanes.set(i, lane);
                } else {
                    proof {
                        lemma_remove_slot(lanes@, i as int);
                        assert(lane_wf(old_lane));
                        assert(old_lane.steps[s as int]) by {
                            let w = choose|k: int| 0 <= k < MAX_STEPS && #[trigger] old_lane.steps[k];
                            if w != s {
                                assert(lane.steps[w]);
                            }
                        }
                        assert forall|s2: int| 0 <= s2 < MAX_STEPS && s2 != s implies #[trigger] lock_at(old(self).lanes(), t as u8, s2, d) is None by {
                            assert(!lane.steps[s2]);
                        }
                        assert(only_step(old(self).lanes(), t as u8, s as int, d));
                    }
                    lanes.remove(i);
                }
                self.lanes = lanes;
                proof {
                    assert forall|t2: u8, d2: u8| #[trigger] has_slot(self.lanes@, t2, d2) <==> (has_slot(old(self).lanes(), t2, d2)
                        && !(t2 == t && d2 == d && t < NUM_TRACKS && only_step(old(self).lanes(), t2, s as int, d2))) by {
                        assert(slot_lane(self.lanes@, t2, d2) is Some <==> has_slot(self.lanes@, t2, d2));
                        assert(slot_lane(old(self).lanes(), t2, d2) is Some <==> has_slot(old(self).lanes(), t2, d2));
                    }
                    assert forall|t2: u8, s2: int, d2: u8| !(t2 == t && s2 == s && d2 == d) implies #[trigger] lock_at(self.lanes@, t2, s2, d2)
                        == lock_at(old(self).lanes(), t2, s2, d2) by {
                        assert(slot_lane(self.lanes@, t2, d2) == slot_lane(self.lanes@, t2, d2));
                    }
                }
            },
            None => {
                proof {
                    assert(!only_step(self.lanes@, t as u8, s as int, d));
                }
            },
        }
    }
}

impl LockPool {
    /// Removes every lock (velocity and all lanes) of track `t` at step `s`,
    /// freeing the slots left empty. No-op for bad indices.
    pub fn clear_step(&mut self, t: usize, s: usize)
        ensures
            t < NUM_TRACKS && s < MAX_STEPS ==> forall|d: u8| #[trigger] final(self).lock(t as u8, s as int, d) is None,
            forall|t2: u8, s2: int, d2: u8|
                !(t2 == t && s2 == s) ==> #[trigger] final(self).lock(t2, s2, d2) == old(self).lock(t2, s2, d2),
            forall|t2: u8, d2: u8|
                #[trigger] has_slot(final(self).lanes(), t2, d2) <==> (has_slot(old(self).lanes(), t2, d2)
                    && !(t2 == t && t < NUM_TRACKS && only_step(old(self).lanes(), t2, s as int, d2))),
            keeps_order(old(self).lanes(), final(self).lanes()),
    {
        let ghost old_lanes = self.lanes();
        proof {
            use_type_invariant(&*self);
            lemma_keeps_order_refl(old_lanes);
        }
        let mut d: u16 = 0;
        while d < 256
            invariant
                0 <= d <= 256,
                keeps_order(old_lanes, self.lanes()),
                t < NUM_TRACKS && s < MAX_STEPS ==> forall|d3: u8| d3 < d ==> #[trigger] self.lock(t as u8, s as int, d3) is None,
                forall|t2: u8, s2: int, d2: u8|
                    !(t2 == t && s2 == s && d2 < d) ==> #[trigger] self.lock(t2, s2, d2) == lock_at(old_lanes, t2, s2, d2),
                forall|t2: u8, d2: u8|
                    #[trigger] has_slot(self.lanes(), t2, d2) <==> (has_slot(old_lanes, t2, d2)
                        && !(t2 == t && t < NUM_TRACKS && d2 < d && only_step(old_lanes, t2, s as int, d2))),
            decreases 256 - d,
        {
            let ghost before = self.lanes();
            proof {
                let dd = d as u8;
                if t < NUM_TRACKS {
                    assert(has_slot(before, t as u8, dd) == has_slot(old_lanes, t as u8, dd));
                    assert forall|s2: int| #[trigger] lock_at(before, t as u8, s2, dd) == lock_at(old_lanes, t as u8, s2, dd) by {
                        assert(!((t as u8) == t && s2 == s && dd < d));
                        assert(self.lock(t as u8, s2, dd) == lock_at(old_lanes, t as u8, s2, dd));
                    }
                    if only_step(before, t as u8, s as int, dd) {
                        assert forall|s2: int| 0 <= s2 < MAX_STEPS && s2 != s implies #[trigger] lock_at(old_lanes, t as u8, s2, dd) is None by {
                            assert(lock_at(before, t as u8, s2, dd) is None);
                        }
                    }
                    if only_step(old_lanes, t as u8, s as int, dd) {
                        assert forall|s2: int| 0 <= s2 < MAX_STEPS && s2 != s implies #[trigger] lock_at(before, t as u8, s2, dd) is None by {
                            assert(lock_at(old_lanes, t as u8, s2, dd) is None);
                        }
                    }
                    assert(only_step(before, t as u8, s as int, dd) == only_step(old_lanes, t as u8, s as int, dd));
                }
            }
            proof {
                use_type_invariant(&*self);
            }
            self.clear(t, s, d as u8);
            proof {
                if t < NUM_TRACKS && s < MAX_STEPS {
                    lemma_clear_keeps_order(before, self.lanes(), t as u8, s as int, d as u8);
                } else {
                    lemma_keeps_order_refl(before);
                }
                lemma_keeps_order_trans(old_lanes, before, self.lanes());
            }
            d += 1;
        }
    }

    /// The index of some slot of track `t`, if any.
    fn find_track(&self, t: u8) -> (r: Option<usize>)
        ensures
            r is None ==> forall|d: u8| !#[trigger] has_slot(self.lanes(), t, d),
            r matches Some(i) ==> i < self.lanes().len() && self.lanes()[i as int].track == t,
    {
        let mut i: usize = 0;
        while i < self.lanes.len()
            invariant
                0 <= i <= self.lanes@.len(),
                forall|j: int| 0 <= j < i ==> (#[trigger] self.lanes@[j]).track != t,
            decreases self.lanes@.len() - i,
        {
            if self.lanes[i].track == t {
                return Some(i);
            }
            i += 1;
        }
        proof {
            assert forall|d: u8| !#[trigger] has_slot(self.lanes@, t, d) by {
                if has_slot(self.lanes@, t, d) {
                    let j = slot_of(self.lanes@, t, d);
                    assert(self.lanes@[j].track == t);
                }
            }
        }
        None
    }

    /// Removes every lock of track `t`, freeing its slots (the other slots
    /// keep their order). No-op for a bad index.
    pub fn clear_track(&mut self, t: usize)
        ensures
            t < NUM_TRACKS ==> forall|s: int, d: u8| #[trigger] final(self).lock(t as u8, s, d) is None,
            forall|t2: u8, s2: int, d2: u8|
                t2 != t ==> #[trigger] final(self).lock(t2, s2, d2) == old(self).lock(t2, s2, d2),
            forall|t2: u8, d2: u8|
                #[trigger] has_slot(final(self).lanes(), t2, d2) <==> (has_slot(old(self).lanes(), t2, d2)
                    && t2 != t),
            keeps_order(old(self).lanes(), final(self).lanes()),
    {
        proof {
            use_type_invariant(&*self);
            lemma_keeps_order_refl(self.lanes@);
        }
        if t >= NUM_TRACKS {
            proof {
                assert forall|t2: u8, d2: u8| #[trigger] has_slot(self.lanes@, t2, d2) implies t2 != t by {
                    let j = slot_of(self.lanes@, t2, d2);
                    assert(lane_wf(self.lanes@[j]));
                }
            }
            return;
        }
        let ghost old_lanes = self.lanes();
        let tt = t as u8;
        loop
            invariant
                t < NUM_TRACKS,
                tt as usize == t,
                old_lanes == old(self).lanes(),
                pool_wf(self.lanes@),
                keeps_order(old_lanes, self.lanes@),
                forall|t2: u8, d2: u8|
                    #[trigger] slot_lane(self.lanes@, t2, d2) == (if t2 == tt {
                        if has_slot(self.lanes@, t2, d2) { slot_lane(old_lanes, t2, d2) } else { None }
                    } else {
                        slot_lane(old_lanes, t2, d2)
                    }),
            decreases self.lanes@.len(),
        {
            match self.find_track(tt) {
                Some(i) => {
                    let mut lanes: Vec<LockLane> = Vec::new();
                    std::mem::swap(&mut lanes, &mut self.lanes);
                    proof {
                        lemma_remove_slot(lanes@, i as int);
                        lemma_keeps_order_remove(lanes@, i as int);
                        lemma_keeps_order_trans(old_lanes, lanes@, lanes@.remove(i as int));
                        assert forall|t2: u8, d2: u8| #[trigger] slot_lane(lanes@.remove(i as int), t2, d2) == (if t2 == tt {
                            if has_slot(lanes@.remove(i as int), t2, d2) { slot_lane(old_lanes, t2, d2) } else { None }
                        } else {
                            slot_lane(old_lanes, t2, d2)
                        }) by {
                            assert(slot_lane(lanes@, t2, d2) is Some <==> has_slot(lanes@, t2, d2));
                            assert(slot_lane(lanes@.remove(i as int), t2, d2) is Some <==> has_slot(lanes@.remove(i as int), t2, d2));
                        }
                    }
                    lanes.remove(i);
                    self.lanes = lanes;
                },
                None => {
                    proof {
                        assert(tt as usize == t);
                        assert forall|t2: u8, d2: u8| #[trigger] has_slot(self.lanes@, t2, d2) <==> (has_slot(old_lanes, t2, d2) && t2 != t) by {
                            assert(slot_lane(self.lanes@, t2, d2) is Some <==> has_slot(self.lanes@, t2, d2));
                            assert(slot_lane(old_lanes, t2, d2) is Some <==> has_slot(old_lanes, t2, d2));
                            if t2 == tt {
                                assert(!has_slot(self.lanes@, t2, d2));
                            } else {
                                assert(slot_lane(self.lanes@, t2, d2) == slot_lane(old_lanes, t2, d2));
                            }
                        }
                        assert forall|s: int, d: u8| #[trigger] self.lock(tt, s, d) is None by {
                            assert(!has_slot(self.lanes@, tt, d));
                        }
                        assert forall|t2: u8, s2: int, d2: u8| t2 != t implies #[trigger] self.lock(t2, s2, d2) == lock_at(old_lanes, t2, s2, d2) by {
                            assert(t2 != tt);
                            assert(slot_lane(self.lanes@, t2, d2) == slot_lane(old_lanes, t2, d2));
                        }
                    }
                    return;
                },
            }
        }
    }

    /// Removes every lock, emptying the pool.
    pub fn clear_all(&mut self)
        ensures
            final(self).lanes() == Seq::<LockLane>::empty(),
    {
        self.lanes = Vec::new();
    }
}

/// Bit `i` of a 64-bit mask is set.
pub open spec fn mask_bit(m: u64, i: u64) -> bool {
    (m >> i) & 1 == 1
}

/// Setting bit `d` of a mask sets exactly that bit.
pub proof fn lemma_mask_set(m: u64, d: u64, i: u64)
    requires
        d < 64,
        i < 64,
    ensures
        mask_bit(m | (1u64 << d), i) == (i == d || mask_bit(m, i)),
{
    assert(((m | (1u64 << d)) >> i) & 1 == 1 <==> (i == d || (m >> i) & 1 == 1)) by (bit_vector)
        requires d < 64, i < 64;
}

/// The empty mask has no bit set.
pub proof fn lemma_mask_zero(i: u64)
    requires
        i < 64,
    ensures
        !mask_bit(0, i),
{
    assert((0u64 >> i) & 1 != 1) by (bit_vector);
}

/// A 64-bit mask is determined by its 64 bits.
pub proof fn lemma_mask_ext(a: u64, b: u64)
    requires
        forall|i: u64| i < 64 ==> #[trigger] mask_bit(a, i) == mask_bit(b, i),
    ensures
        a == b,
{
    assert forall|i: u64| i < 64 implies (a >> i) & 1 == (b >> i) & 1 by {
        assert(mask_bit(a, i) == mask_bit(b, i));
        assert((a >> i) & 1 == 0 || (a >> i) & 1 == 1) by (bit_vector);
        assert((b >> i) & 1 == 0 || (b >> i) & 1 == 1) by (bit_vector);
    }
    assert(a == b) by (bit_vector)
        requires
            (a >> 0u64) & 1 == (b >> 0u64) & 1,
            (a >> 1u64) & 1 == (b >> 1u64) & 1,
            (a >> 2u64) & 1 == (b >> 2u64) & 1,
            (a >> 3u64) & 1 == (b >> 3u64) & 1,
            (a >> 4u64) & 1 == (b >> 4u64) & 1,
            (a >> 5u64) & 1 == (b >> 5u64) & 1,
            (a >> 6u64) & 1 == (b >> 6u64) & 1,
            (a >> 7u64) & 1 == (b >> 7u64) & 1,
            (a >> 8u64) & 1 == (b >> 8u64) & 1,
            (a >> 9u64) & 1 == (b >> 9u64) & 1,
            (a >> 10u64) & 1 == (b >> 10u64) & 1,
            (a >> 11u64) & 1 == (b >> 11u64) & 1,
            (a >> 12u64) & 1 == (b >> 12u64) & 1,
            (a >> 13u64) & 1 == (b >> 13u64) & 1,
            (a >> 14u64) & 1 == (b >> 14u64) & 1,
            (a >> 15u64) & 1 == (b >> 15u64) & 1,
            (a >> 16u64) & 1 == (b >> 16u64) & 1,
            (a >> 17u64) & 1 == (b >> 17u64) & 1,
            (a >> 18u64) & 1 == (b >> 18u64) & 1,
            (a >> 19u64) & 1 == (b >> 19u64) & 1,
            (a >> 20u64) & 1 == (b >> 20u64) & 1,
            (a >> 21u64) & 1 == (b >> 21u64) & 1,
            (a >> 22u64) & 1 == (b >> 22u64) & 1,
            (a >> 23u64) & 1 == (b >> 23u64) & 1,
            (a >> 24u64) & 1 == (b >> 24u64) & 1,
            (a >> 25u64) & 1 == (b >> 25u64) & 1,
            (a >> 26u64) & 1 == (b >> 26u64) & 1,
            (a >> 27u64) & 1 == (b >> 27u64) & 1,
            (a >> 28u64) & 1 == (b >> 28u64) & 1,
            (a >> 29u64) & 1 == (b >> 29u64) & 1,
            (a >> 30u64) & 1 == (b >> 30u64) & 1,
            (a >> 31u64) & 1 == (b >> 31u64) & 1,
            (a >> 32u64) & 1 == (b >> 32u64) & 1,
            (a >> 33u64) & 1 == (b >> 33u64) & 1,
            (a >> 34u64) & 1 == (b >> 34u64) & 1,
            (a >> 35u64) & 1 == (b >> 35u64) & 1,
            (a >> 36u64) & 1 == (b >> 36u64) & 1,
            (a >> 37u64) & 1 == (b >> 37u64) & 1,
            (a >> 38u64) & 1 == (b >> 38u64) & 1,
            (a >> 39u64) & 1 == (b >> 39u64) & 1,
            (a >> 40u64) & 1 == (b >> 40u64) & 1,
            (a >> 41u64) & 1 == (b >> 41u64) & 1,
            (a >> 42u64) & 1 == (b >> 42u64) & 1,
            (a >> 43u64) & 1 == (b >> 43u64) & 1,
            (a >> 44u64) & 1 == (b >> 44u64) & 1,
            (a >> 45u64) & 1 == (b >> 45u64) & 1,
            (a >> 46u64) & 1 == (b >> 46u64) & 1,
            (a >> 47u64) & 1 == (b >> 47u64) & 1,
            (a >> 48u64) & 1 == (b >> 48u64) & 1,
            (a >> 49u64) & 1 == (b >> 49u64) & 1,
            (a >> 50u64) & 1 == (b >> 50u64) & 1,
            (a >> 51u64) & 1 == (b >> 51u64) & 1,
            (a >> 52u64) & 1 == (b >> 52u64) & 1,
            (a >> 53u64) & 1 == (b >> 53u64) & 1,
            (a >> 54u64) & 1 == (b >> 54u64) & 1,
            (a >> 55u64) & 1 == (b >> 55u64) & 1,
            (a >> 56u64) & 1 == (b >> 56u64) & 1,
            (a >> 57u64) & 1 == (b >> 57u64) & 1,
            (a >> 58u64) & 1 == (b >> 58u64) & 1,
            (a >> 59u64) & 1 == (b >> 59u64) & 1,
            (a >> 60u64) & 1 == (b >> 60u64) & 1,
            (a >> 61u64) & 1 == (b >> 61u64) & 1,
            (a >> 62u64) & 1 == (b >> 62u64) & 1,
            (a >> 63u64) & 1 == (b >> 63u64) & 1,
    ;
}

/// What a step would play against its track defaults — velocity, lane
/// values, and which of them came from locks rather than defaults.
#[derive(Clone, Copy, Debug, PartialEq)]
pub struct ResolvedStep {
    /// The step's velocity: lock if set, else the track default.
    pub velocity: UnitValue,
    /// Per lane, the step's lock if set, else the track default.
    pub lanes: [UnitValue; 64],
    /// Bit `i` set ⇔ `lanes[i]` came from a lock.
    pub locked: u64,
    /// True iff `velocity` came from a velocity lock.
    pub velocity_locked: bool,
}

/// A lock, or the default when there is none.
pub open spec fn lock_or(lock: Option<UnitValue>, default: UnitValue) -> UnitValue {
    match lock {
        Some(v) => v,
        None => default,
    }
}

/// `r` is what step `s` of track `t` plays against the track defaults:
/// per parameter the lock if set, else the default, with provenance.
pub open spec fn resolves_to(
    lanes: Seq<LockLane>,
    velocity: UnitValue,
    defaults: [UnitValue; 64],
    t: u8,
    s: int,
    r: ResolvedStep,
) -> bool {
    &&& r.velocity == lock_or(lock_at(lanes, t, s, VELOCITY_DEST), velocity)
    &&& r.velocity_locked == lock_at(lanes, t, s, VELOCITY_DEST) is Some
    &&& forall|i: int| 0 <= i < NUM_PARAM_LANES ==> #[trigger] r.lanes[i] == lock_or(lock_at(lanes, t, s, i as u8), defaults[i])
    &&& forall|i: u64| i < 64 ==> #[trigger] mask_bit(r.locked, i) == (lock_at(lanes, t, s, i as u8) is Some)
}

/// The unique resolution of step `s` of track `t`.
pub open spec fn resolved(
    lanes: Seq<LockLane>,
    velocity: UnitValue,
    defaults: [UnitValue; 64],
    t: u8,
    s: int,
) -> ResolvedStep {
    choose|r: ResolvedStep| resolves_to(lanes, velocity, defaults, t, s, r)
}

/// A resolution is unique.
pub proof fn lemma_resolved_unique(
    lanes: Seq<LockLane>,
    velocity: UnitValue,
    defaults: [UnitValue; 64],
    t: u8,
    s: int,
    r: ResolvedStep,
)
    requires
        resolves_to(lanes, velocity, defaults, t, s, r),
    ensures
        r == resolved(lanes, velocity, defaults, t, s),
{
    let q = resolved(lanes, velocity, defaults, t, s);
    assert(resolves_to(lanes, velocity, defaults, t, s, q));
    assert forall|i: u64| i < 64 implies #[trigger] mask_bit(r.locked, i) == mask_bit(q.locked, i) by {
        assert(mask_bit(q.locked, i) == (lock_at(lanes, t, s, i as u8) is Some));
    }
    lemma_mask_ext(r.locked, q.locked);
    assert(r.lanes =~= q.lanes) by {
        assert forall|i: int| 0 <= i < 64 implies r.lanes[i] == q.lanes[i] by {
            assert(r.lanes[i] == lock_or(lock_at(lanes, t, s, i as u8), defaults[i]));
            assert(q.lanes[i] == lock_or(lock_at(lanes, t, s, i as u8), defaults[i]));
        }
    }
}

/// The mask with bit `i` set, for `i < n`, exactly when parameter lane `i`
/// of track `t` is locked at step `s`.
spec fn locked_mask_upto(lanes: Seq<LockLane>, t: u8, s: int, n: nat) -> u64
    decreases n,
{
    if n == 0 {
        0
    } else {
        let m = locked_mask_upto(lanes, t, s, (n - 1) as nat);
        if lock_at(lanes, t, s, (n - 1) as u8) is Some {
            m | (1u64 << ((n - 1) as u64))
        } else {
            m
        }
    }
}

proof fn lemma_locked_mask_upto(lanes: Seq<LockLane>, t: u8, s: int, n: nat)
    requires
        n <= 64,
    ensures
        forall|i: u64| i < 64 ==> #[trigger] mask_bit(locked_mask_upto(lanes, t, s, n), i) == (i < n && lock_at(
            lanes,
            t,
            s,
            i as u8,
        ) is Some),
    decreases n,
{
    if n == 0 {
        assert forall|i: u64| i < 64 implies !#[trigger] mask_bit(0, i) by {
            lemma_mask_zero(i);
        }
    } else {
        let k = (n - 1) as nat;
        lemma_locked_mask_upto(lanes, t, s, k);
        let m = locked_mask_upto(lanes, t, s, k);
        assert forall|i: u64| i < 64 implies #[trigger] mask_bit(locked_mask_upto(lanes, t, s, n), i) == (i < n
            && lock_at(lanes, t, s, i as u8) is Some) by {
            assert(mask_bit(m, i) == (i < k && lock_at(lanes, t, s, i as u8) is Some));
            if lock_at(lanes, t, s, k as u8) is Some {
                lemma_mask_set(m, k as u64, i);
            }
        }
    }
}

/// The defaults with lanes `0..n` replaced by their locks at step `s`.
spec fn resolved_lanes_upto(lanes: Seq<LockLane>, defaults: [UnitValue; 64], t: u8, s: int, n: nat) -> [UnitValue; 64]
    decreases n,
{
    if n == 0 {
        defaults
    } else {
        let k = (n - 1) as nat;
        vstd::array::spec_array_update(
            resolved_lanes_upto(lanes, defaults, t, s, k),
            k as int,
            lock_or(lock_at(lanes, t, s, k as u8), defaults[k as int]),
        )
    }
}

proof fn lemma_resolved_lanes_upto(lanes: Seq<LockLane>, defaults: [UnitValue; 64], t: u8, s: int, n: nat)
    requires
        n <= 64,
    ensures
        forall|i: int| 0 <= i < 64 ==> #[trigger] resolved_lanes_upto(lanes, defaults, t, s, n)[i] == (if i < n {
            lock_or(lock_at(lanes, t, s, i as u8), defaults[i])
        } else {
            defaults[i]
        }),
    decreases n,
{
    if n > 0 {
        let k = (n - 1) as nat;
        lemma_resolved_lanes_upto(lanes, defaults, t, s, k);
        let prev = resolved_lanes_upto(lanes, defaults, t, s, k);
        let cur = resolved_lanes_upto(lanes, defaults, t, s, n);
        assert(cur@ == prev@.update(k as int, lock_or(lock_at(lanes, t, s, k as u8), defaults[k as int])));
        assert forall|i: int| 0 <= i < 64 implies #[trigger] cur[i] == (if i < n {
            lock_or(lock_at(lanes, t, s, i as u8), defaults[i])
        } else {
            defaults[i]
        }) by {
            assert(cur[i] == cur@[i]);
            assert(prev[i] == prev@[i]);
        }
    }
}

/// Every step has its resolution: the velocity lock or the default
/// velocity, per lane the lane's lock or its default, and the provenance.
pub proof fn lemma_resolved_exists(lanes: Seq<LockLane>, velocity: UnitValue, defaults: [UnitValue; 64], t: u8, s: int)
    ensures
        resolves_to(lanes, velocity, defaults, t, s, resolved(lanes, velocity, defaults, t, s)),
{
    lemma_locked_mask_upto(lanes, t, s, 64);
    lemma_resolved_lanes_upto(lanes, defaults, t, s, 64);
    let r = ResolvedStep {
        velocity: lock_or(lock_at(lanes, t, s, VELOCITY_DEST), velocity),
        lanes: resolved_lanes_upto(lanes, defaults, t, s, 64),
        locked: locked_mask_upto(lanes, t, s, 64),
        velocity_locked: lock_at(lanes, t, s, VELOCITY_DEST) is Some,
    };
    assert(resolves_to(lanes, velocity, defaults, t, s, r));
}

impl LockPool {
    /// Resolves step `s` of track `t` against the given defaults.
    pub fn resolve(&self, t: u8, s: usize, velocity: UnitValue, defaults: &[UnitValue; 64]) -> (r: ResolvedStep)
        requires
            s < MAX_STEPS,
        ensures
            resolves_to(self.lanes(), velocity, *defaults, t, s as int, r),
    {
        proof {
            use_type_invariant(self);
        }
        let mut r = ResolvedStep { velocity, lanes: *defaults, locked: 0, velocity_locked: false };
        let mut k: usize = 0;
        proof {
            assert forall|i: u64| i < 64 implies #[trigger] mask_bit(r.locked, i) == (lock_at(self.lanes@.subrange(0, 0), t, s as int, i as u8) is Some) by {
                lemma_mask_zero(i);
            }
        }
        while k < self.lanes.len()
            invariant
                0 <= k <= self.lanes@.len(),
                s < MAX_STEPS,
                pool_wf(self.lanes@),
                r.velocity == lock_or(lock_at(self.lanes@.subrange(0, k as int), t, s as int, VELOCITY_DEST), velocity),
                r.velocity_locked == lock_at(self.lanes@.subrange(0, k as int), t, s as int, VELOCITY_DEST) is Some,
                forall|i: int| 0 <= i < NUM_PARAM_LANES ==> #[trigger] r.lanes[i] == lock_or(lock_at(self.lanes@.subrange(0, k as int), t, s as int, i as u8), defaults[i]),
                forall|i: u64| i < 64 ==> #[trigger] mask_bit(r.locked, i) == (lock_at(self.lanes@.subrange(0, k as int), t, s as int, i as u8) is Some),
            decreases self.lanes@.len() - k,
        {
            let lane = self.lanes[k];
            let ghost pre = self.lanes@.subrange(0, k as int);
            let ghost post = self.lanes@.subrange(0, k as int + 1);
            proof {
                assert(post == pre.push(lane));
                assert(!has_slot(pre, lane.track, lane.dest)) by {
                    if has_slot(pre, lane.track, lane.dest) {
                        let j = slot_of(pre, lane.track, lane.dest);
                        assert(self.lanes@[j].track == lane.track && self.lanes@[j].dest == lane.dest);
                        assert(self.lanes@[j].track != self.lanes@[k as int].track || self.lanes@[j].dest != self.lanes@[k as int].dest);
                    }
                }
                lemma_push_keys(pre, lane);
                assert(lane_wf(lane));
            }
            if lane.track == t && lane.steps[s] {
                if lane.dest == VELOCITY_DEST {
                    r.velocity = lane.values[s];
                    r.velocity_locked = true;
                } else {
                    let d = lane.dest as usize;
                    r.lanes[d] = lane.values[s];
                    proof {
                        assert forall|i: u64| i < 64 implies #[trigger] mask_bit(r.locked | (1u64 << (d as u64)), i) == (i == d || mask_bit(r.locked, i)) by {
                            lemma_mask_set(r.locked, d as u64, i);
                        }
                    }
                    r.locked = r.locked | (1u64 << (d as u64));
                }
            }
            proof {
                assert forall|i: int| 0 <= i < NUM_PARAM_LANES implies #[trigger] r.lanes[i] == lock_or(lock_at(post, t, s as int, i as u8), defaults[i]) by {
                    assert(slot_lane(post, t, i as u8) == slot_lane(post, t, i as u8));
                }
                assert forall|i: u64| i < 64 implies #[trigger] mask_bit(r.locked, i) == (lock_at(post, t, s as int, i as u8) is Some) by {
                    assert(slot_lane(post, t, i as u8) == slot_lane(post, t, i as u8));
                }
            }
            k += 1;
        }
        proof {
            assert(self.lanes@.subrange(0, self.lanes@.len() as int) == self.lanes@);
        }
        r
    }
}
} // verus!
