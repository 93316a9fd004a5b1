//! The streaming materialization scheduler.
//!
//! Chunks enter a deterministic priority queue; work is executed within a
//! per-frame time budget and yields cooperatively ([`WorkResult::Yield`] →
//! the chunk pauses back to `Queued` and is re-queued behind a penalty, so
//! no chunk can starve others). Every state change goes through the
//! lifecycle manager — the scheduler never mutates chunk state directly.
//!
//! Priorities are pure functions of (placement, direction of travel,
//! document order): the clock only *measures* the frame budget and stamps
//! transitions. Where a chunk lies relative to the viewport is measured by
//! the caller (laid-out geometry) and handed in as a [`Placement`].

pub mod queue;

use vstd::prelude::*;
use vstd::multiset::Multiset;
use std::collections::{BTreeMap, BTreeSet};
use crate::clock::Clock;
use crate::lifecycle::{
    allowed_spec, guards_pass, ids_in_state, lifecycle_inv, remaining_at, selected_in, state_in, step, ChunkState, LifecycleError, LifecycleEvent,
    LifecycleManager, LifecycleView,
};
use vstd::std_specs::btree::increasing_seq;
use vstd::std_specs::iter::IteratorSpec;
use crate::materialize::queue::{heap_ok, precedes, PriorityQueue, QueueItem};

verus! {

broadcast use {
    vstd::seq_lib::group_to_multiset_ensures,
    vstd::multiset::group_multiset_axioms,
    vstd::std_specs::btree::group_btree_axioms,
};

/// The direction of travel for priority ordering.
#[derive(Debug, Clone, Copy, PartialEq, Eq, Structural)]
pub enum Direction {
    /// Scrolling down (content moves up): below the viewport is ahead.
    Down,
    /// Scrolling up: above the viewport is ahead.
    Up,
}

/// The result of one materialization visit.
#[derive(Debug, Clone, Copy, PartialEq, Eq, Structural)]
pub enum WorkResult {
    /// The chunk's materialization is done.
    Complete,
    /// The chunk needs another frame (budget exhausted or cooperatively
    /// yielding).
    Yield,
}

/// The unit of materialization work.
pub trait MaterializeWorker {
    /// Perform work for a chunk within the remaining frame budget.
    fn work(&mut self, chunk_id: u32, budget_ms: u64, elapsed_ms: u64) -> WorkResult;

    /// Release the resources of a chunk being evicted.
    fn release(&mut self, chunk_id: u32);
}

/// Options for the scheduler.
#[derive(Debug, Clone, Copy, PartialEq, Eq, Structural)]
pub struct SchedulerOptions {
    /// The default per-frame time budget in milliseconds.
    pub frame_budget_ms: u64,
    /// The priority penalty applied per cooperative yield (anti-starvation).
    pub yield_penalty: u64,
}

/// Where a chunk's laid-out geometry lies relative to the viewport.
#[derive(Debug, Clone, Copy, PartialEq, Eq, Structural)]
pub enum Placement {
    /// No geometry yet (the sequential frontier).
    Unplaced,
    /// The geometry intersects the viewport.
    Intersecting,
    /// The geometry misses the viewport: `tier` is one plus the number of
    /// whole 1024 px steps of the distance, `above` / `below` say on which
    /// side the geometry lies.
    Away { tier: u64, above: bool, below: bool },
}

/// The priority key of a placement: intersecting and unplaced chunks by
/// document order alone; the others by distance tier, ahead of the
/// direction of travel before behind, then document order.
pub open spec fn key_spec(placement: Placement, direction: Direction, ordinal: u32) -> u128 {
    match placement {
        Placement::Unplaced => ordinal as u128,
        Placement::Intersecting => ordinal as u128,
        Placement::Away { tier, above, below } => {
            let ahead = match direction {
                Direction::Down => below,
                Direction::Up => above,
            };
            (tier * 0x1_0000_0000 + (if ahead { 0int } else { 0x8000_0000int }) + ordinal) as u128
        },
    }
}

/// The deterministic priority key for a chunk (lower runs first).
pub fn priority_key(placement: Placement, direction: Direction, ordinal: u32) -> (r: u128)
    ensures
        r == key_spec(placement, direction, ordinal),
{
    match placement {
        Placement::Unplaced => ordinal as u128,
        Placement::Intersecting => ordinal as u128,
        Placement::Away { tier, above, below } => {
            let ahead = match direction {
                Direction::Down => below,
                Direction::Up => above,
            };
            let behind: u128 = if ahead { 0 } else { 0x8000_0000 };
            assert(tier * 0x1_0000_0000 <= 0xffff_ffff_ffff_ffff * 0x1_0000_0000) by (nonlinear_arith)
                requires
                    tier <= 0xffff_ffff_ffff_ffff,
            ;
            tier as u128 * 0x1_0000_0000 + behind + ordinal as u128
        },
    }
}

/// The placement recorded for chunk `id` (`table[id - 1]`; `Unplaced`
/// outside the table).
pub open spec fn placement_at(table: Seq<Placement>, id: u32) -> Placement {
    if 1 <= id && id <= table.len() {
        table[id - 1]
    } else {
        Placement::Unplaced
    }
}

/// The queue item of visible chunk `id` (ids are dense in document order,
/// so the ordinal is `id - 1`).
pub open spec fn item_for(table: Seq<Placement>, direction: Direction, id: u32) -> QueueItem {
    QueueItem {
        chunk_id: id,
        key: key_spec(placement_at(table, id), direction, (id - 1) as u32),
        ordinal: (id - 1) as u32,
    }
}

/// The mathematical value of a scheduler.
pub struct SchedulerView {
    pub lifecycle: LifecycleView,
    pub frame_budget_ms: u64,
    pub yield_penalty: u64,
    /// The queued items.
    pub queue: Multiset<QueueItem>,
    /// The chunk ids with a queued item.
    pub pending: Set<u32>,
    /// The cooperative yields of each chunk since it was queued.
    pub attempts: Map<u32, u64>,
    /// The visible set of the last reconcile, in order, without repeats.
    pub last_visible: Seq<u32>,
}

/// The scheduler's standing invariant: each queued item is the only one of
/// its chunk, its ordinal is the chunk id minus one, and the pending set is
/// exactly the set of queued chunks.
pub open spec fn sched_inv(v: SchedulerView) -> bool {
    &&& forall|t: QueueItem| #[trigger] v.queue.contains(t) ==> v.queue.count(t) == 1 && t.ordinal + 1 == t.chunk_id
    &&& forall|a: QueueItem, b: QueueItem| #[trigger] v.queue.contains(a) && #[trigger] v.queue.contains(b)
        && a.chunk_id == b.chunk_id ==> a == b
    &&& forall|id: u32| #[trigger] v.pending.contains(id) <==> exists|t: QueueItem| #[trigger] v.queue.contains(t) && t.chunk_id == id
    &&& v.last_visible.no_duplicates()
}

/// The scheduler with its lifecycle replaced.
pub open spec fn with_lifecycle(s: SchedulerView, l: LifecycleView) -> SchedulerView {
    SchedulerView { lifecycle: l, ..s }
}

/// Applying one lifecycle event through the scheduler: the refused event
/// on failure.
pub open spec fn apply_event(s: SchedulerView, id: u32, event: LifecycleEvent, now: u64) -> Result<SchedulerView, LifecycleEvent> {
    match step(s.lifecycle, id, event, now) {
        Some(l) => Ok(with_lifecycle(s, l)),
        None => Err(event),
    }
}

/// Admitting one visible chunk: a `Compressed` or `Evicted` chunk is
/// enqueued, a `Cooling` one re-queued; a chunk that is then `Queued` and
/// not yet pending gets its queue item.
pub open spec fn admit_one(s: SchedulerView, id: u32, table: Seq<Placement>, direction: Direction, now: u64) -> Result<SchedulerView, LifecycleEvent> {
    let st = state_in(s.lifecycle, id);
    let moved = if st == ChunkState::Compressed || st == ChunkState::Evicted {
        apply_event(s, id, LifecycleEvent::Enqueue, now)
    } else if st == ChunkState::Cooling {
        apply_event(s, id, LifecycleEvent::Requeue, now)
    } else {
        Ok(s)
    };
    match moved {
        Err(e) => Err(e),
        Ok(s1) => if state_in(s1.lifecycle, id) == ChunkState::Queued && !s1.pending.contains(id) {
            Ok(SchedulerView {
                queue: s1.queue.insert(item_for(table, direction, id)),
                pending: s1.pending.insert(id),
                ..s1
            })
        } else {
            Ok(s1)
        },
    }
}

/// A failed step of a reconcile: the chunk, the refused event and the
/// scheduler as the failure left it.
pub type Refusal = (u32, LifecycleEvent, SchedulerView);

/// Admitting `visible[i..]` in order, stopping at the first refusal.
pub open spec fn admit_from(s: SchedulerView, visible: Seq<u32>, table: Seq<Placement>, direction: Direction, now: u64, i: int) -> Result<SchedulerView, Refusal>
    decreases visible.len() - i,
{
    if i < 0 || i >= visible.len() {
        Ok(s)
    } else {
        match admit_one(s, visible[i], table, direction, now) {
            Err(e) => Err((visible[i], e, s)),
            Ok(s1) => admit_from(s1, visible, table, direction, now, i + 1),
        }
    }
}

/// Retiring one chunk of the last visible set that is no longer visible: a
/// queued chunk is dequeued (and its item, pending mark and yield count
/// dropped), a materializing one cancelled, a visible one culled.
pub open spec fn retire_one(s: SchedulerView, id: u32, visible: Seq<u32>, now: u64) -> Result<SchedulerView, LifecycleEvent> {
    if visible.contains(id) {
        Ok(s)
    } else {
        match state_in(s.lifecycle, id) {
            ChunkState::Queued => match apply_event(s, id, LifecycleEvent::Dequeue, now) {
                Err(e) => Err(e),
                Ok(s1) => Ok(SchedulerView {
                    queue: s1.queue.filter(|t: QueueItem| t.chunk_id != id),
                    pending: s1.pending.remove(id),
                    attempts: s1.attempts.remove(id),
                    ..s1
                }),
            },
            ChunkState::Materializing => apply_event(s, id, LifecycleEvent::Cancel, now),
            ChunkState::Visible => apply_event(s, id, LifecycleEvent::Cull, now),
            _ => Ok(s),
        }
    }
}

/// Retiring `last[j..]` in order, stopping at the first refusal.
pub open spec fn retire_from(s: SchedulerView, last: Seq<u32>, visible: Seq<u32>, now: u64, j: int) -> Result<SchedulerView, Refusal>
    decreases last.len() - j,
{
    if j < 0 || j >= last.len() {
        Ok(s)
    } else {
        match retire_one(s, last[j], visible, now) {
            Err(e) => Err((last[j], e, s)),
            Ok(s1) => retire_from(s1, last, visible, now, j + 1),
        }
    }
}

/// The first occurrence of each id, in order.
pub open spec fn dedup(ids: Seq<u32>) -> Seq<u32>
    decreases ids.len(),
{
    if ids.len() == 0 {
        Seq::empty()
    } else {
        let d = dedup(ids.drop_last());
        if d.contains(ids.last()) {
            d
        } else {
            d.push(ids.last())
        }
    }
}

/// Reconciling the visible set at clock reading `now`: newly visible chunks
/// are admitted, chunks of the last visible set that left it are retired,
/// and the visible set is remembered. On a refusal the scheduler stays as
/// the refusal left it.
pub open spec fn reconcile_spec(s: SchedulerView, visible: Seq<u32>, table: Seq<Placement>, direction: Direction, now: u64) -> (Option<Refusal>, SchedulerView) {
    match admit_from(s, visible, table, direction, now, 0) {
        Err(f) => (Some(f), f.2),
        Ok(s1) => match retire_from(s1, s1.last_visible, visible, now, 0) {
            Err(f) => (Some(f), f.2),
            Ok(s2) => (None, SchedulerView { last_visible: dedup(visible), ..s2 }),
        },
    }
}

/// A lifecycle error reports a refusal: its chunk, its event, and the
/// state the chunk was in.
pub open spec fn reports(r: Result<(), LifecycleError>, refusal: Option<Refusal>) -> bool {
    match refusal {
        None => r is Ok,
        Some(f) => r matches Err(e) && e.chunk_id == f.0 && e.event == Some(f.1) && e.state == Some(
            state_in(f.2.lifecycle, f.0),
        ),
    }
}

/// Whether `s` holds `id`.
fn slice_contains(s: &[u32], id: u32) -> (r: bool)
    ensures
        r == s@.contains(id),
{
    let mut i: usize = 0;
    while i < s.len()
        invariant
            i <= s@.len(),
            forall|k: int| 0 <= k < i ==> s@[k] != id,
        decreases s@.len() - i,
    {
        if s[i] == id {
            assert(s@[i as int] == id);
            return true;
        }
        i = i + 1;
    }
    false
}

/// The first occurrence of each id, in order.
fn dedup_ids(ids: &[u32]) -> (r: Vec<u32>)
    ensures
        r@ == dedup(ids@),
{
    let mut out: Vec<u32> = Vec::new();
    let mut i: usize = 0;
    while i < ids.len()
        invariant
            i <= ids@.len(),
            out@ == dedup(ids@.take(i as int)),
        decreases ids@.len() - i,
    {
        let id = ids[i];
        let seen = slice_contains(out.as_slice(), id);
        proof {
            assert(ids@.take((i + 1) as int).drop_last() =~= ids@.take(i as int));
        }
        if !seen {
            out.push(id);
        }
        i = i + 1;
    }
    proof {
        assert(ids@.take(ids@.len() as int) =~= ids@);
    }
    out
}

/// A run of `dedup` has no repeats.
proof fn lemma_dedup_distinct(ids: Seq<u32>)
    ensures
        dedup(ids).no_duplicates(),
    decreases ids.len(),
{
    if ids.len() > 0 {
        lemma_dedup_distinct(ids.drop_last());
    }
}

/// The queued item that runs first.
pub open spec fn first_item(q: Multiset<QueueItem>) -> QueueItem {
    choose|t: QueueItem| q.contains(t) && forall|x: QueueItem| q.contains(x) ==> !precedes(x, t)
}

/// The recorded yields of a chunk (0 when none).
pub open spec fn attempts_of(a: Map<u32, u64>, id: u32) -> u64 {
    if a.contains_key(id) {
        a[id]
    } else {
        0
    }
}

/// `n + 1`, saturating.
pub open spec fn sat_inc(n: u64) -> u64 {
    if n < u64::MAX {
        (n + 1) as u64
    } else {
        n
    }
}

/// A key pushed back by `attempts` yield penalties (saturating).
pub open spec fn penalized(key: u128, attempts: u64, penalty: u64) -> u128 {
    if key + attempts * penalty > u128::MAX {
        u128::MAX
    } else {
        (key + attempts * penalty) as u128
    }
}

/// A lifecycle step, or the lifecycle unchanged when it is refused.
pub open spec fn step_or_stay(l: LifecycleView, id: u32, event: LifecycleEvent, now: u64) -> LifecycleView {
    match step(l, id, event, now) {
        Some(v) => v,
        None => l,
    }
}

/// One visit of the first queued item. A chunk that left `Queued` while
/// queued is dropped (with its yield count). Otherwise it begins (clock
/// reading `begun`), the worker reports `result`, and it completes, or
/// pauses and is re-queued behind one more yield penalty (clock reading
/// `ended`).
pub open spec fn visit(s: SchedulerView, begun: u64, result: WorkResult, ended: u64) -> SchedulerView {
    let top = first_item(s.queue);
    let id = top.chunk_id;
    let s1 = SchedulerView { queue: s.queue.remove(top), pending: s.pending.remove(id), ..s };
    if state_in(s.lifecycle, id) != ChunkState::Queued {
        SchedulerView { attempts: s.attempts.remove(id), ..s1 }
    } else {
        let l1 = step_or_stay(s.lifecycle, id, LifecycleEvent::Begin, begun);
        match result {
            WorkResult::Complete => SchedulerView {
                lifecycle: step_or_stay(l1, id, LifecycleEvent::Complete, ended),
                attempts: s.attempts.remove(id),
                ..s1
            },
            WorkResult::Yield => {
                let a = sat_inc(attempts_of(s.attempts, id));
                SchedulerView {
                    lifecycle: step_or_stay(l1, id, LifecycleEvent::Pause, ended),
                    attempts: s.attempts.insert(id, a),
                    queue: s1.queue.insert(QueueItem { key: penalized(top.key, a, s.yield_penalty), ..top }),
                    pending: s1.pending.insert(id),
                    ..s1
                }
            },
        }
    }
}

/// A run of visits: each `(begun, result, ended)` in order.
pub open spec fn visits(s: SchedulerView, steps: Seq<(u64, WorkResult, u64)>) -> SchedulerView
    decreases steps.len(),
{
    if steps.len() == 0 {
        s
    } else {
        let last = steps.last();
        visit(visits(s, steps.drop_last()), last.0, last.1, last.2)
    }
}

/// The first item is the one the heap hands out: under the invariant the
/// item that runs first is unique.
proof fn lemma_first_item(v: SchedulerView, top: QueueItem)
    requires
        sched_inv(v),
        v.queue.contains(top),
        forall|x: QueueItem| v.queue.contains(x) ==> !precedes(x, top),
    ensures
        first_item(v.queue) == top,
{
    let t = first_item(v.queue);
    assert(v.queue.contains(t) && forall|x: QueueItem| v.queue.contains(x) ==> !precedes(x, t));
    assert(!precedes(t, top) && !precedes(top, t));
    assert(v.queue.contains(t) && v.queue.contains(top));
}

/// Taking a queued item out (with its pending mark) keeps the invariant.
proof fn lemma_inv_take(v: SchedulerView, top: QueueItem, w: SchedulerView)
    requires
        sched_inv(v),
        v.queue.contains(top),
        w.queue == v.queue.remove(top),
        w.pending == v.pending.remove(top.chunk_id),
        w.last_visible == v.last_visible,
    ensures
        sched_inv(w),
{
    assert forall|t: QueueItem| #[trigger] w.queue.contains(t) implies w.queue.count(t) == 1 && t.ordinal + 1 == t.chunk_id by {
        assert(v.queue.contains(t));
    }
    assert forall|a: QueueItem, b: QueueItem| #[trigger] w.queue.contains(a) && #[trigger] w.queue.contains(b)
        && a.chunk_id == b.chunk_id implies a == b by {
        assert(v.queue.contains(a) && v.queue.contains(b));
    }
    assert forall|id: u32| #[trigger] w.pending.contains(id) <==> exists|t: QueueItem| #[trigger] w.queue.contains(t)
        && t.chunk_id == id by {
        if w.pending.contains(id) {
            let t = choose|t: QueueItem| #[trigger] v.queue.contains(t) && t.chunk_id == id;
            assert(t != top);
            assert(w.queue.contains(t));
        }
        if exists|t: QueueItem| #[trigger] w.queue.contains(t) && t.chunk_id == id {
            let t = choose|t: QueueItem| #[trigger] w.queue.contains(t) && t.chunk_id == id;
            assert(v.queue.contains(t));
            if t.chunk_id == top.chunk_id {
                assert(t == top);
            }
        }
    }
}

/// Queueing an item of a chunk that is not pending keeps the invariant.
proof fn lemma_inv_put(v: SchedulerView, item: QueueItem, w: SchedulerView)
    requires
        sched_inv(v),
        !v.pending.contains(item.chunk_id),
        item.ordinal + 1 == item.chunk_id,
        w.queue == v.queue.insert(item),
        w.pending == v.pending.insert(item.chunk_id),
        w.last_visible == v.last_visible,
    ensures
        sched_inv(w),
{
    assert(!v.queue.contains(item)) by {
        if v.queue.contains(item) {
            assert(v.pending.contains(item.chunk_id));
        }
    }
    assert forall|t: QueueItem| #[trigger] w.queue.contains(t) implies w.queue.count(t) == 1 && t.ordinal + 1
        == t.chunk_id by {
        if t != item {
            assert(v.queue.contains(t));
        }
    }
    assert forall|a: QueueItem, b: QueueItem| #[trigger] w.queue.contains(a) && #[trigger] w.queue.contains(b)
        && a.chunk_id == b.chunk_id implies a == b by {
        if a != item && b != item {
            assert(v.queue.contains(a) && v.queue.contains(b));
        } else if a == item && b != item {
            assert(v.queue.contains(b));
            assert(v.pending.contains(b.chunk_id));
        } else if b == item && a != item {
            assert(v.queue.contains(a));
            assert(v.pending.contains(a.chunk_id));
        }
    }
    assert forall|id: u32| #[trigger] w.pending.contains(id) <==> exists|t: QueueItem| #[trigger] w.queue.contains(t)
        && t.chunk_id == id by {
        if id == item.chunk_id {
            assert(w.queue.contains(item));
        } else {
            if w.pending.contains(id) {
                let t = choose|t: QueueItem| #[trigger] v.queue.contains(t) && t.chunk_id == id;
                assert(w.queue.contains(t));
            }
            if exists|t: QueueItem| #[trigger] w.queue.contains(t) && t.chunk_id == id {
                let t = choose|t: QueueItem| #[trigger] w.queue.contains(t) && t.chunk_id == id;
                assert(v.queue.contains(t));
            }
        }
    }
}

/// The cooling chunks whose cooling period has run out at clock reading
/// `now` and that no selection pins.
pub open spec fn expirable(v: LifecycleView, now: u64) -> Set<u32> {
    Set::new(
        |id: u32| v.cooling_started_at.contains_key(id) && remaining_at(v, now)[id] == 0 && !selected_in(v, id),
    )
}

/// Expiring `ready[i..]` in order at clock reading `now`: the number
/// expired, or the first refused chunk, and the lifecycle as it is left.
pub open spec fn expire_from(v: LifecycleView, ready: Seq<u32>, now: u64, i: int) -> (Result<nat, u32>, LifecycleView)
    decreases ready.len() - i,
{
    if i < 0 || i >= ready.len() {
        (Ok(ready.len()), v)
    } else {
        match step(v, ready[i], LifecycleEvent::Expire, now) {
            None => (Err(ready[i]), v),
            Some(v2) => expire_from(v2, ready, now, i + 1),
        }
    }
}

/// `a + b`, saturating.
pub open spec fn sat_add(a: u64, b: u64) -> u64 {
    if a + b > u64::MAX {
        u64::MAX
    } else {
        (a + b) as u64
    }
}

/// The bytes a chunk's release frees (`table[id - 1]`; 0 outside the
/// table).
pub open spec fn freed_at(table: Seq<u64>, id: u32) -> u64 {
    if 1 <= id && id <= table.len() {
        table[id - 1]
    } else {
        0
    }
}

/// Chunk `a` is evicted before chunk `b`: a higher priority key (further
/// away, or behind), then a higher id.
pub open spec fn evicted_before(table: Seq<Placement>, direction: Direction, a: u32, b: u32) -> bool {
    let ka = item_for(table, direction, a).key;
    let kb = item_for(table, direction, b).key;
    ka > kb || (ka == kb && a > b)
}

/// `order` lists the visible chunks, each once, furthest first.
pub open spec fn eviction_order(v: LifecycleView, table: Seq<Placement>, direction: Direction, order: Seq<u32>) -> bool {
    &&& order.no_duplicates()
    &&& forall|id: u32| order.contains(id) <==> ids_in_state(v, ChunkState::Visible).contains(id)
    &&& forall|i: int, j: int| 0 <= i < j < order.len() ==> evicted_before(table, direction, #[trigger] order[i], #[trigger] order[j])
}

/// Culling `order[i..]` at clock reading `now` until `so_far` freed bytes
/// reach `target`: the number culled, or the first refused chunk, and the
/// lifecycle as it is left.
pub open spec fn evict_from(
    v: LifecycleView,
    order: Seq<u32>,
    freed: Seq<u64>,
    target: u64,
    now: u64,
    i: int,
    so_far: u64,
) -> (Result<nat, u32>, LifecycleView)
    decreases order.len() - i,
{
    if i < 0 || i >= order.len() || so_far >= target {
        (Ok(if i < 0 { 0 } else { i as nat }), v)
    } else {
        match step(v, order[i], LifecycleEvent::Cull, now) {
            None => (Err(order[i]), v),
            Some(v2) => evict_from(v2, order, freed, target, now, i + 1, sat_add(so_far, freed_at(freed, order[i]))),
        }
    }
}

/// A count, or the refusal of an event on a chunk, reported as a lifecycle
/// error.
pub open spec fn reports_count(r: Result<usize, LifecycleError>, outcome: Result<nat, u32>, event: LifecycleEvent) -> bool {
    match outcome {
        Ok(n) => r == Ok::<usize, LifecycleError>(n as usize),
        Err(id) => r matches Err(e) && e.chunk_id == id && e.event == Some(event),
    }
}

/// Chunk `id` is in the pipeline: queued with a queue item, being
/// materialized, or visible.
pub open spec fn in_pipeline(v: SchedulerView, id: u32) -> bool {
    ||| state_in(v.lifecycle, id) == ChunkState::Queued && v.pending.contains(id)
    ||| state_in(v.lifecycle, id) == ChunkState::Materializing
    ||| state_in(v.lifecycle, id) == ChunkState::Visible
}

proof fn lemma_admit_one_pipeline(s: SchedulerView, x: u32, table: Seq<Placement>, direction: Direction, now: u64)
    requires
        admit_one(s, x, table, direction, now) is Ok,
    ensures
        in_pipeline(admit_one(s, x, table, direction, now)->Ok_0, x),
        forall|id: u32| id != x && #[trigger] in_pipeline(s, id) ==> in_pipeline(admit_one(s, x, table, direction, now)->Ok_0, id),
{
}

proof fn lemma_admit_from_pipeline(s: SchedulerView, visible: Seq<u32>, table: Seq<Placement>, direction: Direction, now: u64, i: int)
    requires
        0 <= i,
        admit_from(s, visible, table, direction, now, i) is Ok,
    ensures
        forall|k: int| i <= k < visible.len() ==> in_pipeline(admit_from(s, visible, table, direction, now, i)->Ok_0, #[trigger] visible[k]),
    decreases visible.len() - i,
{
    if i < visible.len() {
        let s1 = admit_one(s, visible[i], table, direction, now)->Ok_0;
        lemma_admit_one_pipeline(s, visible[i], table, direction, now);
        lemma_admit_from_pipeline(s1, visible, table, direction, now, i + 1);
        lemma_admit_from_keeps(s1, visible, table, direction, now, i + 1, visible[i]);
    }
}

proof fn lemma_admit_from_keeps(s: SchedulerView, visible: Seq<u32>, table: Seq<Placement>, direction: Direction, now: u64, i: int, id: u32)
    requires
        0 <= i,
        admit_from(s, visible, table, direction, now, i) is Ok,
        in_pipeline(s, id),
    ensures
        in_pipeline(admit_from(s, visible, table, direction, now, i)->Ok_0, id),
    decreases visible.len() - i,
{
    if i < visible.len() {
        let s1 = admit_one(s, visible[i], table, direction, now)->Ok_0;
        lemma_admit_one_pipeline(s, visible[i], table, direction, now);
        lemma_admit_from_keeps(s1, visible, table, direction, now, i + 1, id);
    }
}

proof fn lemma_retire_from_keeps(s: SchedulerView, last: Seq<u32>, visible: Seq<u32>, now: u64, j: int, id: u32)
    requires
        0 <= j,
        retire_from(s, last, visible, now, j) is Ok,
        visible.contains(id),
        in_pipeline(s, id),
    ensures
        in_pipeline(retire_from(s, last, visible, now, j)->Ok_0, id),
    decreases last.len() - j,
{
    if j < last.len() {
        let s1 = retire_one(s, last[j], visible, now)->Ok_0;
        assert(in_pipeline(s1, id));
        lemma_retire_from_keeps(s1, last, visible, now, j + 1, id);
    }
}

/// A reconcile that succeeds brings every visible chunk into the pipeline:
/// it is queued with a queue item, being materialized, or visible.
pub proof fn lemma_reconcile_admits_visible(
    s: SchedulerView,
    visible: Seq<u32>,
    table: Seq<Placement>,
    direction: Direction,
    now: u64,
    id: u32,
)
    requires
        reconcile_spec(s, visible, table, direction, now).0 is None,
        visible.contains(id),
    ensures
        in_pipeline(reconcile_spec(s, visible, table, direction, now).1, id),
{
    let s1 = admit_from(s, visible, table, direction, now, 0)->Ok_0;
    lemma_admit_from_pipeline(s, visible, table, direction, now, 0);
    let k = choose|k: int| 0 <= k < visible.len() && visible[k] == id;
    assert(in_pipeline(s1, visible[k]));
    lemma_retire_from_keeps(s1, s1.last_visible, visible, now, 0, id);
}

proof fn lemma_evict_from_ok(
    v: LifecycleView,
    order: Seq<u32>,
    freed: Seq<u64>,
    target: u64,
    now: u64,
    i: int,
    so_far: u64,
)
    requires
        0 <= i,
        order.no_duplicates(),
        forall|k: int| i <= k < order.len() ==> state_in(v, #[trigger] order[k]) == ChunkState::Visible,
    ensures
        evict_from(v, order, freed, target, now, i, so_far).0 is Ok,
    decreases order.len() - i,
{
    if i < order.len() && so_far < target {
        let id = order[i];
        assert(allowed_spec(ChunkState::Visible)[0] == LifecycleEvent::Cull);
        let v2 = step(v, id, LifecycleEvent::Cull, now)->Some_0;
        assert forall|k: int| i + 1 <= k < order.len() implies state_in(v2, #[trigger] order[k]) == ChunkState::Visible by {
            assert(order[k] != order[i]);
        }
        lemma_evict_from_ok(v2, order, freed, target, now, i + 1, sat_add(so_far, freed_at(freed, id)));
    }
}

/// Evicting for memory pressure is never refused: every chunk it culls is
/// visible when its turn comes.
pub proof fn lemma_eviction_never_refused(
    v: LifecycleView,
    table: Seq<Placement>,
    direction: Direction,
    order: Seq<u32>,
    freed: Seq<u64>,
    target: u64,
    now: u64,
)
    requires
        eviction_order(v, table, direction, order),
    ensures
        evict_from(v, order, freed, target, now, 0, 0).0 is Ok,
{
    assert forall|k: int| 0 <= k < order.len() implies state_in(v, #[trigger] order[k]) == ChunkState::Visible by {
        assert(order.contains(order[k]));
        assert(ids_in_state(v, ChunkState::Visible).contains(order[k]));
    }
    lemma_evict_from_ok(v, order, freed, target, now, 0, 0);
}

proof fn lemma_expire_from_ok(v0: LifecycleView, v: LifecycleView, ready: Seq<u32>, now: u64, i: int)
    requires
        0 <= i,
        ready.no_duplicates(),
        v.selection_refs == v0.selection_refs,
        v.cooling_period == v0.cooling_period,
        v.default_cooling_period_ms == v0.default_cooling_period_ms,
        forall|k: int| i <= k < ready.len() ==> {
            &&& state_in(v, #[trigger] ready[k]) == ChunkState::Cooling
            &&& v.cooling_started_at.contains_key(ready[k])
            &&& v0.cooling_started_at.contains_key(ready[k])
            &&& v.cooling_started_at[ready[k]] == v0.cooling_started_at[ready[k]]
            &&& expirable(v0, now).contains(ready[k])
        },
    ensures
        expire_from(v, ready, now, i).0 is Ok,
    decreases ready.len() - i,
{
    if i < ready.len() {
        let id = ready[i];
        assert(allowed_spec(ChunkState::Cooling)[1] == LifecycleEvent::Expire);
        assert(remaining_at(v0, now)[id] == 0);
        assert(guards_pass(v, id, LifecycleEvent::Expire, now));
        let v2 = step(v, id, LifecycleEvent::Expire, now)->Some_0;
        assert forall|k: int| i + 1 <= k < ready.len() implies {
            &&& state_in(v2, #[trigger] ready[k]) == ChunkState::Cooling
            &&& v2.cooling_started_at.contains_key(ready[k])
            &&& v0.cooling_started_at.contains_key(ready[k])
            &&& v2.cooling_started_at[ready[k]] == v0.cooling_started_at[ready[k]]
            &&& expirable(v0, now).contains(ready[k])
        } by {
            assert(ready[k] != ready[i]);
        }
        lemma_expire_from_ok(v0, v2, ready, now, i + 1);
    }
}

/// Under the lifecycle's standing invariant a tick is never refused: every
/// chunk it expires is cooling, its period has run out, and no selection
/// pins it.
pub proof fn lemma_tick_never_refused(v: LifecycleView, ready: Seq<u32>, now: u64)
    requires
        lifecycle_inv(v),
        forall|i: int, j: int| 0 <= i < j < ready.len() ==> ready[i] < ready[j],
        forall|id: u32| ready.contains(id) <==> expirable(v, now).contains(id),
    ensures
        expire_from(v, ready, now, 0).0 is Ok,
{
    assert forall|k: int| 0 <= k < ready.len() implies {
        &&& state_in(v, #[trigger] ready[k]) == ChunkState::Cooling
        &&& v.cooling_started_at.contains_key(ready[k])
        &&& v.cooling_started_at.contains_key(ready[k])
        &&& v.cooling_started_at[ready[k]] == v.cooling_started_at[ready[k]]
        &&& expirable(v, now).contains(ready[k])
    } by {
        assert(ready.contains(ready[k]));
    }
    assert(ready.no_duplicates()) by {
        assert forall|a: int, b: int| 0 <= a < ready.len() && 0 <= b < ready.len() && a != b implies ready[a] != ready[b] by {
            if a < b {
                assert(ready[a] < ready[b]);
            } else {
                assert(ready[b] < ready[a]);
            }
        }
    }
    lemma_expire_from_ok(v, v, ready, now, 0);
}

/// The invariant depends only on the queue, the pending set and the
/// repeat-free last visible set.
proof fn lemma_inv_fields(a: SchedulerView, b: SchedulerView)
    requires
        sched_inv(a),
        b.queue == a.queue,
        b.pending == a.pending,
        b.last_visible.no_duplicates(),
    ensures
        sched_inv(b),
{
}

/// The priority key of visible chunk `id`.
fn key_of_id(placements: &[Placement], direction: Direction, id: u32) -> (r: u128)
    requires
        id >= 1,
    ensures
        r == item_for(placements@, direction, id).key,
{
    let placement = if (id as usize) <= placements.len() {
        placements[(id - 1) as usize]
    } else {
        Placement::Unplaced
    };
    priority_key(placement, direction, id - 1)
}

/// Whether chunk `a` is evicted before chunk `b`.
fn evicts_before(placements: &[Placement], direction: Direction, a: u32, b: u32) -> (r: bool)
    requires
        a >= 1,
        b >= 1,
    ensures
        r == evicted_before(placements@, direction, a, b),
{
    let ka = key_of_id(placements, direction, a);
    let kb = key_of_id(placements, direction, b);
    ka > kb || (ka == kb && a > b)
}

/// The given distinct ids ordered furthest first (an insertion sort).
fn eviction_order_of(ids: &Vec<u32>, placements: &[Placement], direction: Direction) -> (r: Vec<u32>)
    requires
        forall|i: int, j: int| 0 <= i < j < ids@.len() ==> ids@[i] < ids@[j],
        forall|i: int| 0 <= i < ids@.len() ==> ids@[i] >= 1,
    ensures
        r@.no_duplicates(),
        forall|id: u32| r@.contains(id) <==> ids@.contains(id),
        forall|i: int, j: int| 0 <= i < j < r@.len() ==> evicted_before(placements@, direction, #[trigger] r@[i], #[trigger] r@[j]),
{
    let mut out: Vec<u32> = Vec::new();
    let mut i: usize = 0;
    while i < ids.len()
        invariant
            i <= ids@.len(),
            forall|a: int, b: int| 0 <= a < b < ids@.len() ==> ids@[a] < ids@[b],
            forall|a: int| 0 <= a < ids@.len() ==> ids@[a] >= 1,
            out@.no_duplicates(),
            forall|id: u32| out@.contains(id) <==> ids@.take(i as int).contains(id),
            forall|a: int, b: int| 0 <= a < b < out@.len() ==> evicted_before(placements@, direction, #[trigger] out@[a], #[trigger] out@[b]),
        decreases ids@.len() - i,
    {
        let id = ids[i];
        assert(!out@.contains(id)) by {
            if out@.contains(id) {
                let k = choose|k: int| 0 <= k < i && ids@.take(i as int)[k] == id;
                assert(ids@[k] < ids@[i as int]);
            }
        }
        assert forall|j: int| 0 <= j < out@.len() implies out@[j] >= 1 by {
            assert(out@.contains(out@[j]));
            let k = choose|k: int| 0 <= k < i && ids@.take(i as int)[k] == out@[j];
            assert(ids@[k] >= 1);
        }
        let mut p: usize = 0;
        while p < out.len() && evicts_before(placements, direction, out[p], id)
            invariant
                p <= out@.len(),
                id >= 1,
                forall|j: int| 0 <= j < out@.len() ==> out@[j] >= 1,
                forall|j: int| 0 <= j < p ==> evicted_before(placements@, direction, out@[j], id),
            decreases out@.len() - p,
        {
            p = p + 1;
        }
        let ghost before = out@;
        out.insert(p, id);
        proof {
            before.insert_ensures(p as int, id);
            if p < before.len() {
                assert(before[p as int] != id);
                assert(!evicted_before(placements@, direction, before[p as int], id));
                assert(evicted_before(placements@, direction, id, before[p as int]));
            }
            assert forall|a: int, b: int| 0 <= a < b < out@.len() implies evicted_before(placements@, direction, #[trigger] out@[a], #[trigger] out@[b]) by {
                if b < p {
                    assert(out@[a] == before[a] && out@[b] == before[b]);
                } else if b == p {
                    assert(out@[a] == before[a]);
                } else if a == p {
                    assert(out@[b] == before[b - 1]);
                    if b - 1 > p {
                        assert(evicted_before(placements@, direction, before[p as int], before[b - 1]));
                    }
                } else if a < p {
                    assert(out@[a] == before[a] && out@[b] == before[b - 1]);
                    assert(evicted_before(placements@, direction, before[a], id));
                    if b - 1 >= p {
                        if b - 1 > p {
                            assert(evicted_before(placements@, direction, before[p as int], before[b - 1]));
                        }
                        assert(evicted_before(placements@, direction, id, before[b - 1]));
                    }
                } else {
                    assert(out@[a] == before[a - 1] && out@[b] == before[b - 1]);
                }
            }
            assert(ids@.take((i + 1) as int) =~= ids@.take(i as int).push(id));
            assert forall|x: u32| out@.contains(x) <==> ids@.take((i + 1) as int).contains(x) by {
                if out@.contains(x) {
                    let k = choose|k: int| 0 <= k < out@.len() && out@[k] == x;
                    if k < p {
                        assert(before[k] == x);
                    } else if k > p {
                        assert(before[k - 1] == x);
                    }
                }
                if before.contains(x) {
                    let k = choose|k: int| 0 <= k < before.len() && before[k] == x;
                    if k < p {
                        assert(out@[k] == x);
                    } else {
                        assert(out@[k + 1] == x);
                    }
                }
                if x == id {
                    assert(out@[p as int] == id);
                    assert(ids@.take((i + 1) as int)[i as int] == id);
                }
                if ids@.take((i + 1) as int).contains(x) {
                    let t = ids@.take((i + 1) as int);
                    let k = choose|k: int| 0 <= k < t.len() && t[k] == x;
                    if k < i {
                        assert(ids@.take(i as int)[k] == x);
                        assert(ids@.take(i as int).contains(x));
                        assert(before.contains(x));
                        let k2 = choose|k2: int| 0 <= k2 < before.len() && before[k2] == x;
                        if k2 < p {
                            assert(out@[k2] == x);
                        } else {
                            assert(out@[k2 + 1] == x);
                        }
                    } else {
                        assert(x == id);
                        assert(out@[p as int] == id);
                    }
                }
            }
            assert forall|a: int, b: int| 0 <= a < out@.len() && 0 <= b < out@.len() && a != b implies out@[a] != out@[b] by {
                if a < b {
                    assert(evicted_before(placements@, direction, out@[a], out@[b]));
                } else {
                    assert(evicted_before(placements@, direction, out@[b], out@[a]));
                }
            }
        }
        i = i + 1;
    }
    proof {
        assert(ids@.take(ids@.len() as int) =~= ids@);
    }
    out
}

/// The materialization scheduler.
///
/// Every state change is driven through the owned [`LifecycleManager`],
/// whose clock only measures the frame budget and stamps transitions.
pub struct MaterializationScheduler<C: Clock> {
    lifecycle: LifecycleManager<C>,
    frame_budget_ms: u64,
    yield_penalty: u64,
    queue: PriorityQueue,
    pending: BTreeSet<u32>,
    attempts: BTreeMap<u32, u64>,
    last_visible: Vec<u32>,
}

impl<C: Clock> View for MaterializationScheduler<C> {
    type V = SchedulerView;

    closed spec fn view(&self) -> SchedulerView {
        SchedulerView {
            lifecycle: self.lifecycle@,
            frame_budget_ms: self.frame_budget_ms,
            yield_penalty: self.yield_penalty,
            queue: self.queue@.to_multiset(),
            pending: self.pending@,
            attempts: self.attempts@,
            last_visible: self.last_visible@,
        }
    }
}

impl<C: Clock> MaterializationScheduler<C> {
    /// The scheduler's well-formedness: its queue is a heap and its view
    /// keeps [`sched_inv`].
    pub closed spec fn wf(&self) -> bool {
        heap_ok(self.queue@) && sched_inv(self@)
    }

    /// Whether `self` differs from `other` at most in its lifecycle manager.
    pub closed spec fn same_but_lifecycle(&self, other: &Self) -> bool {
        &&& self.queue == other.queue
        &&& self.pending == other.pending
        &&& self.attempts == other.attempts
        &&& self.last_visible == other.last_visible
        &&& self.frame_budget_ms == other.frame_budget_ms
        &&& self.yield_penalty == other.yield_penalty
    }

    /// Replacing only the lifecycle manager keeps the scheduler well formed.
    pub proof fn lemma_wf_kept(a: &Self, b: &Self)
        requires
            a.wf(),
            b.same_but_lifecycle(a),
        ensures
            b.wf(),
    {
        assert(b@.queue == a@.queue);
        assert(b@.pending == a@.pending);
        assert(b@.last_visible == a@.last_visible);
    }

    /// The lifecycle manager the scheduler owns (its clock included).
    pub closed spec fn manager(&self) -> LifecycleManager<C> {
        self.lifecycle
    }

    /// Create a scheduler over an owned lifecycle manager.
    pub fn new(lifecycle: LifecycleManager<C>, options: SchedulerOptions) -> (r: Self)
        ensures
            r.wf(),
            r.manager() == lifecycle,
            r@ == (SchedulerView {
                lifecycle: lifecycle@,
                frame_budget_ms: options.frame_budget_ms,
                yield_penalty: options.yield_penalty,
                queue: Multiset::empty(),
                pending: Set::empty(),
                attempts: Map::empty(),
                last_visible: Seq::empty(),
            }),
    {
        let r = MaterializationScheduler {
            lifecycle,
            frame_budget_ms: options.frame_budget_ms,
            yield_penalty: options.yield_penalty,
            queue: PriorityQueue::new(),
            pending: BTreeSet::new(),
            attempts: BTreeMap::new(),
            last_visible: Vec::new(),
        };
        proof {
            assert(r@.queue =~= Multiset::<QueueItem>::empty());
        }
        r
    }

    /// Read access to the owned lifecycle manager.
    pub fn lifecycle(&self) -> (r: &LifecycleManager<C>)
        ensures
            *r == self.manager(),
            r@ == self@.lifecycle,
    {
        &self.lifecycle
    }

    /// Mutable access to the owned lifecycle manager (selection pins,
    /// registration, the clock).
    pub fn lifecycle_mut(&mut self) -> (r: &mut LifecycleManager<C>)
        requires
            old(self).wf(),
        ensures
            *r == old(self).manager(),
            final(self).manager() == *final(r),
            final(self)@ == (SchedulerView { lifecycle: final(r)@, ..old(self)@ }),
            final(self).same_but_lifecycle(old(self)),
    {
        &mut self.lifecycle
    }

    /// Queue a chunk that is `Queued` and not yet pending.
    fn enqueue_with_priority(&mut self, chunk_id: u32, placements: &[Placement], direction: Direction)
        requires
            old(self).wf(),
            chunk_id >= 1,
            !old(self)@.pending.contains(chunk_id),
        ensures
            final(self).wf(),
            final(self).manager() == old(self).manager(),
            final(self)@ == (SchedulerView {
                queue: old(self)@.queue.insert(item_for(placements@, direction, chunk_id)),
                pending: old(self)@.pending.insert(chunk_id),
                ..old(self)@
            }),
    {
        let ordinal = chunk_id - 1;
        let placement = if (chunk_id as usize) <= placements.len() {
            placements[(chunk_id - 1) as usize]
        } else {
            Placement::Unplaced
        };
        let key = priority_key(placement, direction, ordinal);
        let item = QueueItem { chunk_id, key, ordinal };
        assert(item == item_for(placements@, direction, chunk_id));
        let ghost s = self@;
        self.queue.push(item);
        self.pending.insert(chunk_id);
        proof {
            let v = self@;
            assert(v.queue == s.queue.insert(item));
            assert(!s.queue.contains(item)) by {
                if s.queue.contains(item) {
                    assert(s.pending.contains(item.chunk_id));
                }
            }
            assert forall|t: QueueItem| #[trigger] v.queue.contains(t) implies v.queue.count(t) == 1 && t.ordinal + 1
                == t.chunk_id by {
                if t != item {
                    assert(s.queue.contains(t));
                }
            }
            assert forall|a: QueueItem, b: QueueItem| #[trigger] v.queue.contains(a) && #[trigger] v.queue.contains(b)
                && a.chunk_id == b.chunk_id implies a == b by {
                if a != item && b != item {
                    assert(s.queue.contains(a) && s.queue.contains(b));
                } else if a == item && b != item {
                    assert(s.queue.contains(b));
                    assert(s.pending.contains(b.chunk_id));
                } else if b == item && a != item {
                    assert(s.queue.contains(a));
                    assert(s.pending.contains(a.chunk_id));
                }
            }
            assert forall|id: u32| #[trigger] v.pending.contains(id) <==> exists|t: QueueItem| #[trigger] v.queue.contains(t)
                && t.chunk_id == id by {
                if id == chunk_id {
                    assert(v.queue.contains(item));
                } else {
                    if v.pending.contains(id) {
                        assert(s.pending.contains(id));
                        let t = choose|t: QueueItem| #[trigger] s.queue.contains(t) && t.chunk_id == id;
                        assert(v.queue.contains(t));
                    }
                    if exists|t: QueueItem| #[trigger] v.queue.contains(t) && t.chunk_id == id {
                        let t = choose|t: QueueItem| #[trigger] v.queue.contains(t) && t.chunk_id == id;
                        assert(s.queue.contains(t));
                    }
                }
            }
        }
    }

    /// Apply a lifecycle event at clock reading `now`.
    fn apply_at(&mut self, chunk_id: u32, event: LifecycleEvent, now: u64) -> (r: Result<ChunkState, LifecycleError>)
        requires
            old(self).wf(),
        ensures
            final(self).wf(),
            final(self).manager().clock_value() == old(self).manager().clock_value(),
            match apply_event(old(self)@, chunk_id, event, now) {
                Ok(v) => r is Ok && final(self)@ == v,
                Err(e) => r matches Err(x) && x.chunk_id == chunk_id && x.event == Some(e) && x.state == Some(
                    state_in(old(self)@.lifecycle, chunk_id),
                ) && final(self)@ == old(self)@,
            },
    {
        let ghost s = *self;
        let r = self.lifecycle.transition_at(chunk_id, event, now);
        proof {
            assert(self.same_but_lifecycle(&s));
            Self::lemma_wf_kept(&s, self);
            assert(self@.queue == s@.queue);
        }
        r
    }

    /// Reconcile the visible set at clock reading `now`: enqueue newly
    /// visible chunks (priority from `placements[id - 1]` and the direction
    /// of travel) and cull / dequeue chunks that left the visible set.
    pub fn reconcile_at(&mut self, visible: &[u32], placements: &[Placement], direction: Direction, now: u64) -> (r: Result<(), LifecycleError>)
        requires
            old(self).wf(),
            forall|i: int| 0 <= i < visible@.len() ==> visible@[i] >= 1,
        ensures
            final(self).wf(),
            final(self).manager().clock_value() == old(self).manager().clock_value(),
            final(self)@ == reconcile_spec(old(self)@, visible@, placements@, direction, now).1,
            reports(r, reconcile_spec(old(self)@, visible@, placements@, direction, now).0),
    {
        let ghost s0 = self@;
        let mut i: usize = 0;
        while i < visible.len()
            invariant
                self.wf(),
                self.manager().clock_value() == old(self).manager().clock_value(),
                s0 == old(self)@,
                i <= visible@.len(),
                forall|k: int| 0 <= k < visible@.len() ==> visible@[k] >= 1,
                admit_from(s0, visible@, placements@, direction, now, 0) == admit_from(
                    self@,
                    visible@,
                    placements@,
                    direction,
                    now,
                    i as int,
                ),
            decreases visible@.len() - i,
        {
            let id = visible[i];
            let ghost before = self@;
            let state = self.lifecycle.state(id);
            if state == ChunkState::Compressed || state == ChunkState::Evicted {
                match self.apply_at(id, LifecycleEvent::Enqueue, now) {
                    Err(e) => {
                        proof {
                            assert(admit_one(before, id, placements@, direction, now) == Err::<SchedulerView, LifecycleEvent>(
                                LifecycleEvent::Enqueue,
                            ));
                            assert(admit_from(before, visible@, placements@, direction, now, i as int) == Err::<
                                SchedulerView,
                                Refusal,
                            >((id, LifecycleEvent::Enqueue, before)));
                            assert(self@ == before);

                        }
                        return Err(e);
                    },
                    Ok(_) => {},
                }
            } else if state == ChunkState::Cooling {
                match self.apply_at(id, LifecycleEvent::Requeue, now) {
                    Err(e) => {
                        proof {
                            assert(admit_one(before, id, placements@, direction, now) == Err::<SchedulerView, LifecycleEvent>(
                                LifecycleEvent::Requeue,
                            ));
                            assert(admit_from(before, visible@, placements@, direction, now, i as int) == Err::<
                                SchedulerView,
                                Refusal,
                            >((id, LifecycleEvent::Requeue, before)));
                            assert(self@ == before);
                        }
                        return Err(e);
                    },
                    Ok(_) => {},
                }
            }
            if self.lifecycle.state(id) == ChunkState::Queued && !self.pending.contains(&id) {
                self.enqueue_with_priority(id, placements, direction);
            }
            proof {
                assert(admit_one(before, id, placements@, direction, now) == Ok::<SchedulerView, LifecycleEvent>(self@));
            }
            i = i + 1;
        }
        let mut last: Vec<u32> = Vec::new();
        let mut c: usize = 0;
        while c < self.last_visible.len()
            invariant
                c <= self.last_visible@.len(),
                last@ == self.last_visible@.take(c as int),
            decreases self.last_visible@.len() - c,
        {
            last.push(self.last_visible[c]);
            assert(self.last_visible@.take((c + 1) as int) =~= self.last_visible@.take(c as int).push(self.last_visible@[c as int]));
            c = c + 1;
        }
        assert(self.last_visible@.take(self.last_visible@.len() as int) =~= self.last_visible@);
        let ghost s1 = self@;
        let mut j: usize = 0;
        while j < last.len()
            invariant
                self.wf(),
                self.manager().clock_value() == old(self).manager().clock_value(),
                s0 == old(self)@,
                j <= last@.len(),
                last@ == s1.last_visible,
                admit_from(s0, visible@, placements@, direction, now, 0) == Ok::<SchedulerView, Refusal>(s1),
                retire_from(s1, last@, visible@, now, 0) == retire_from(self@, last@, visible@, now, j as int),
            decreases last@.len() - j,
        {
            let id = last[j];
            let ghost before = self@;
            if !slice_contains(visible, id) {
                let state = self.lifecycle.state(id);
                match state {
                    ChunkState::Queued => {
                        match self.apply_at(id, LifecycleEvent::Dequeue, now) {
                            Err(e) => {
                                proof {
                                    assert(retire_one(before, id, visible@, now) == Err::<SchedulerView, LifecycleEvent>(
                                        LifecycleEvent::Dequeue,
                                    ));
                                    assert(retire_from(before, last@, visible@, now, j as int) == Err::<SchedulerView, Refusal>(
                                        (id, LifecycleEvent::Dequeue, before),
                                    ));
                                    assert(self@ == before);
                                }
                                return Err(e);
                            },
                            Ok(_) => {},
                        }
                        self.drop_pending(id);
                    },
                    ChunkState::Materializing => {
                        match self.apply_at(id, LifecycleEvent::Cancel, now) {
                            Err(e) => {
                                proof {
                                    assert(retire_one(before, id, visible@, now) == Err::<SchedulerView, LifecycleEvent>(
                                        LifecycleEvent::Cancel,
                                    ));
                                    assert(retire_from(before, last@, visible@, now, j as int) == Err::<SchedulerView, Refusal>(
                                        (id, LifecycleEvent::Cancel, before),
                                    ));
                                    assert(self@ == before);
                                }
                                return Err(e);
                            },
                            Ok(_) => {},
                        }
                    },
                    ChunkState::Visible => {
                        match self.apply_at(id, LifecycleEvent::Cull, now) {
                            Err(e) => {
                                proof {
                                    assert(retire_one(before, id, visible@, now) == Err::<SchedulerView, LifecycleEvent>(
                                        LifecycleEvent::Cull,
                                    ));
                                    assert(retire_from(before, last@, visible@, now, j as int) == Err::<SchedulerView, Refusal>(
                                        (id, LifecycleEvent::Cull, before),
                                    ));
                                    assert(self@ == before);
                                }
                                return Err(e);
                            },
                            Ok(_) => {},
                        }
                    },
                    _ => {},
                }
            }
            proof {
                assert(retire_one(before, id, visible@, now) == Ok::<SchedulerView, LifecycleEvent>(self@));
            }
            j = j + 1;
        }
        let ghost s2 = self@;
        self.last_visible = dedup_ids(visible);
        proof {
            lemma_dedup_distinct(visible@);
            assert(self@ == SchedulerView { last_visible: dedup(visible@), ..s2 });
            lemma_inv_fields(s2, self@);
        }
        Ok(())
    }

    /// Drop a chunk's queue item, pending mark and yield count.
    fn drop_pending(&mut self, chunk_id: u32)
        requires
            old(self).wf(),
        ensures
            final(self).wf(),
            final(self).manager() == old(self).manager(),
            final(self)@ == (SchedulerView {
                queue: old(self)@.queue.filter(|t: QueueItem| t.chunk_id != chunk_id),
                pending: old(self)@.pending.remove(chunk_id),
                attempts: old(self)@.attempts.remove(chunk_id),
                ..old(self)@
            }),
    {
        let ghost s = self@;
        let ghost q = self.queue@;
        self.queue.remove(chunk_id);
        self.pending.remove(&chunk_id);
        self.attempts.remove(&chunk_id);
        proof {
            let v = self@;
            let f = s.queue.filter(|t: QueueItem| t.chunk_id != chunk_id);
            if exists|k: int| 0 <= k < q.len() && q[k].chunk_id == chunk_id {
                let t = choose|t: QueueItem| {
                    &&& s.queue.contains(t)
                    &&& t.chunk_id == chunk_id
                    &&& v.queue == s.queue.remove(t)
                    &&& self.queue@.len() + 1 == q.len()
                };
                assert forall|x: QueueItem| #[trigger] v.queue.count(x) == f.count(x) by {
                    if x.chunk_id == chunk_id && s.queue.contains(x) {
                        assert(x == t);
                    }
                }
                assert(v.queue =~= f);
            } else {
                assert forall|x: QueueItem| #[trigger] v.queue.count(x) == f.count(x) by {
                    if x.chunk_id == chunk_id && s.queue.contains(x) {
                        assert(q.contains(x));
                        let k = choose|k: int| 0 <= k < q.len() && q[k] == x;
                        assert(q[k].chunk_id == chunk_id);
                    }
                }
                assert(v.queue =~= f);
            }
            assert forall|t: QueueItem| #[trigger] v.queue.contains(t) implies v.queue.count(t) == 1 && t.ordinal + 1
                == t.chunk_id by {
                assert(s.queue.contains(t));
            }
            assert forall|a: QueueItem, b: QueueItem| #[trigger] v.queue.contains(a) && #[trigger] v.queue.contains(b)
                && a.chunk_id == b.chunk_id implies a == b by {
                assert(s.queue.contains(a) && s.queue.contains(b));
            }
            assert forall|id: u32| #[trigger] v.pending.contains(id) <==> exists|t: QueueItem| #[trigger] v.queue.contains(t)
                && t.chunk_id == id by {
                if v.pending.contains(id) {
                    assert(s.pending.contains(id));
                    let t = choose|t: QueueItem| #[trigger] s.queue.contains(t) && t.chunk_id == id;
                    assert(v.queue.contains(t));
                }
                if exists|t: QueueItem| #[trigger] v.queue.contains(t) && t.chunk_id == id {
                    let t = choose|t: QueueItem| #[trigger] v.queue.contains(t) && t.chunk_id == id;
                    assert(s.queue.contains(t));
                }
            }
        }
    }

    /// Reconcile the visible set, reading the clock once for the
    /// transitions' time. Whatever the clock reads, the outcome is that of
    /// [`reconcile_at`](Self::reconcile_at) at that reading.
    pub fn reconcile(&mut self, visible: &[u32], placements: &[Placement], direction: Direction) -> (r: Result<(), LifecycleError>)
        requires
            old(self).wf(),
            forall|i: int| 0 <= i < visible@.len() ==> visible@[i] >= 1,
        ensures
            final(self).wf(),
            final(self).manager().clock_value() == old(self).manager().clock_value(),
            exists|now: u64| {
                &&& call_ensures(C::now, (&old(self).manager().clock_value(),), now)
                &&& final(self)@ == #[trigger] reconcile_spec(old(self)@, visible@, placements@, direction, now).1
                &&& reports(r, reconcile_spec(old(self)@, visible@, placements@, direction, now).0)
            },
    {
        let now = self.lifecycle.clock().now();
        self.reconcile_at(visible, placements, direction, now)
    }

    /// Run one frame of materialization work within the time budget:
    /// repeatedly visit the queued item that runs first until the queue is
    /// empty or the clock shows the budget spent. Returns the elapsed
    /// milliseconds (measured, never affecting decisions). Every visit
    /// follows [`visit`], whatever the clock reads and the worker reports;
    /// no transition of a frame is ever refused.
    pub fn run_frame<W: MaterializeWorker>(&mut self, worker: &mut W) -> (r: Result<u64, LifecycleError>)
        requires
            old(self).wf(),
        ensures
            final(self).wf(),
            final(self).manager().clock_value() == old(self).manager().clock_value(),
            r is Ok,
            exists|steps: Seq<(u64, WorkResult, u64)>| {
                &&& final(self)@ == #[trigger] visits(old(self)@, steps)
                &&& forall|i: int| 0 <= i < steps.len() ==> call_ensures(C::now, (&old(self).manager().clock_value(),), (#[trigger] steps[i]).0)
                    && call_ensures(C::now, (&old(self).manager().clock_value(),), steps[i].2)
            },
    {
        let start = self.lifecycle.clock().now();
        let budget = self.frame_budget_ms;
        let penalty = self.yield_penalty;
        let ghost mut steps: Seq<(u64, WorkResult, u64)> = Seq::empty();
        let mut rounds: u64 = 0;
        while self.queue.size() > 0 && rounds < u64::MAX
            invariant
                self.wf(),
                self.manager().clock_value() == old(self).manager().clock_value(),
                budget == self@.frame_budget_ms,
                penalty == self@.yield_penalty,
                self@ == visits(old(self)@, steps),
                forall|i: int| 0 <= i < steps.len() ==> call_ensures(C::now, (&old(self).manager().clock_value(),), (#[trigger] steps[i]).0)
                    && call_ensures(C::now, (&old(self).manager().clock_value(),), steps[i].2),
            decreases u64::MAX - rounds,
        {
            rounds = rounds + 1;
            let reading = self.lifecycle.clock().now();
            let elapsed = reading.saturating_sub(start);
            if elapsed >= budget {
                break;
            }
            let ghost s = self@;
            let ghost q = self.queue@;
            let item = match self.queue.pop() {
                Some(item) => item,
                None => {
                    break;
                },
            };
            let id = item.chunk_id;
            self.pending.remove(&id);
            proof {
                lemma_first_item(s, item);
                lemma_inv_take(s, item, self@);
            }
            let ghost s1 = self@;
            let ghost begun: u64 = reading;
            let ghost ended: u64 = reading;
            let ghost result_seen = WorkResult::Complete;
            if self.lifecycle.state(id) != ChunkState::Queued {
                self.attempts.remove(&id);
                proof {
                    lemma_inv_fields(s1, self@);
                }
            } else {
                let ghost l0 = self@.lifecycle;
                let ghost before = *self;
                let begin = self.lifecycle.transition(id, LifecycleEvent::Begin);
                proof {
                    begun = choose|now: u64| call_ensures(C::now, (&old(self).manager().clock_value(),), now) && #[trigger] crate::lifecycle::transition_outcome(l0, id, LifecycleEvent::Begin, now, begin, self@.lifecycle);
                    assert(step(l0, id, LifecycleEvent::Begin, begun) is Some);
                    assert(self.same_but_lifecycle(&before));
                }
                let remaining = budget.saturating_sub(elapsed);
                let result = worker.work(id, remaining, elapsed);
                proof {
                    result_seen = result;
                }
                let ghost l1 = self@.lifecycle;
                match result {
                    WorkResult::Complete => {
                        let done = self.lifecycle.transition(id, LifecycleEvent::Complete);
                        proof {
                            ended = choose|now: u64| call_ensures(C::now, (&old(self).manager().clock_value(),), now) && #[trigger] crate::lifecycle::transition_outcome(l1, id, LifecycleEvent::Complete, now, done, self@.lifecycle);
                            assert(step(l1, id, LifecycleEvent::Complete, ended) is Some);
                        }
                        self.attempts.remove(&id);
                        proof {
                            lemma_inv_fields(s1, self@);
                        }
                    },
                    WorkResult::Yield => {
                        let paused = self.lifecycle.transition(id, LifecycleEvent::Pause);
                        proof {
                            ended = choose|now: u64| call_ensures(C::now, (&old(self).manager().clock_value(),), now) && #[trigger] crate::lifecycle::transition_outcome(l1, id, LifecycleEvent::Pause, now, paused, self@.lifecycle);
                            assert(step(l1, id, LifecycleEvent::Pause, ended) is Some);
                        }
                        let attempts = match self.attempts.get(&id) {
                            Some(a) => *a,
                            None => 0,
                        }.saturating_add(1);
                        self.attempts.insert(id, attempts);
                        assert(attempts as u128 * penalty as u128 <= 0xffff_ffff_ffff_ffff * 0xffff_ffff_ffff_ffff) by (nonlinear_arith)
                            requires
                                attempts <= 0xffff_ffff_ffff_ffff,
                                penalty <= 0xffff_ffff_ffff_ffff,
                        ;
                        let product = attempts as u128 * penalty as u128;
                        let key = item.key.saturating_add(product);
                        let again = QueueItem { chunk_id: id, key, ordinal: item.ordinal };
                        let ghost s2 = self@;
                        self.queue.push(again);
                        self.pending.insert(id);
                        proof {
                            assert(again.ordinal + 1 == again.chunk_id);
                            lemma_inv_fields(s1, s2);
                            lemma_inv_put(s2, again, self@);
                            assert(attempts == sat_inc(attempts_of(s.attempts, id)));
                            assert(key == penalized(item.key, attempts, s.yield_penalty));
                        }
                    },
                }
            }
            proof {
                let x = (begun, result_seen, ended);
                assert(self@ == visit(s, x.0, x.1, x.2));
                assert(steps.push(x).drop_last() =~= steps);
                steps = steps.push(x);
                assert forall|i: int| 0 <= i < steps.len() implies call_ensures(C::now, (&old(self).manager().clock_value(),), (#[trigger] steps[i]).0)
                    && call_ensures(C::now, (&old(self).manager().clock_value(),), steps[i].2) by {
                    if i < steps.len() - 1 {
                        assert(steps[i] == steps.drop_last()[i]);
                    }
                }
            }
        }
        let end = self.lifecycle.clock().now();
        Ok(end.saturating_sub(start))
    }

    /// Evict expired cooling chunks at clock reading `now`: each cooling
    /// chunk whose period has run out and that no selection pins, in
    /// ascending id order, is released through the worker and expires.
    /// Returns the number evicted.
    pub fn tick_at<W: MaterializeWorker>(&mut self, worker: &mut W, now: u64) -> (r: Result<usize, LifecycleError>)
        requires
            old(self).wf(),
        ensures
            final(self).wf(),
            final(self).manager().clock_value() == old(self).manager().clock_value(),
            exists|ready: Seq<u32>| {
                &&& forall|i: int, j: int| 0 <= i < j < ready.len() ==> ready[i] < ready[j]
                &&& forall|id: u32| ready.contains(id) <==> expirable(old(self)@.lifecycle, now).contains(id)
                &&& final(self)@ == with_lifecycle(old(self)@, #[trigger] expire_from(old(self)@.lifecycle, ready, now, 0).1)
                &&& reports_count(r, expire_from(old(self)@.lifecycle, ready, now, 0).0, LifecycleEvent::Expire)
            },
    {
        let remaining = self.lifecycle.cooling_remaining_at(now);
        let ghost rem = remaining@;
        let ghost l0 = self@.lifecycle;
        let iter = remaining.iter();
        let ghost entries = iter.remaining();
        let ghost keys = entries.map_values(|kv: (&u32, &u64)| *kv.0);
        proof {
            assert(increasing_seq(keys));
            crate::lifecycle::lemma_increasing_keys(keys);
        }
        let mut ready: Vec<u32> = Vec::new();
        for kv in it: iter
            invariant
                it.seq() == entries,
                rem == remaining_at(l0, now),
                l0 == self@.lifecycle,
                keys == entries.map_values(|kv: (&u32, &u64)| *kv.0),
                forall|a: int, b: int| 0 <= a < b < keys.len() ==> keys[a] < keys[b],
                forall|a: int| 0 <= a < entries.len() ==> rem.contains_key(#[trigger] *entries[a].0) && rem[*entries[a].0]
                    == *entries[a].1,
                forall|id: u32| #[trigger] rem.contains_key(id) ==> exists|a: int| 0 <= a < entries.len() && *entries[a].0 == id,
                forall|i: int, j: int| 0 <= i < j < ready@.len() ==> ready@[i] < ready@[j],
                ready@.len() > 0 ==> exists|a: int| 0 <= a < it.index() && ready@.last() == keys[a],
                forall|a: int| 0 <= a < it.index() && expirable(l0, now).contains(keys[a]) ==> ready@.contains(keys[a]),
                forall|i: int| 0 <= i < ready@.len() ==> expirable(l0, now).contains(#[trigger] ready@[i]),
        {
            let (id, left) = kv;
            let ghost i0 = it.index() as int;
            let ghost before = ready@;
            assert(kv == entries[i0]);
            assert(keys[i0] == *id);
            assert(rem.contains_key(*id) && rem[*id] == *left);
            if *left == 0 && !self.lifecycle.is_selected(*id) {
                ready.push(*id);
                proof {
                    if before.len() > 0 {
                        let a = choose|a: int| 0 <= a < i0 && before.last() == keys[a];
                        assert(keys[a] < keys[i0]);
                    }
                    assert forall|i: int, j: int| 0 <= i < j < ready@.len() implies ready@[i] < ready@[j] by {
                        if j == ready@.len() - 1 && i < j {
                            if i < before.len() - 1 {
                                assert(before[i] < before[before.len() - 1]);
                            }
                        }
                    }
                    assert(ready@.last() == keys[i0]);
                    assert forall|i: int| 0 <= i < ready@.len() implies expirable(l0, now).contains(#[trigger] ready@[i]) by {
                        if i < before.len() {
                            assert(ready@[i] == before[i]);
                        }
                    }
                }
            }
            proof {
                assert forall|a: int| 0 <= a < i0 + 1 && expirable(l0, now).contains(keys[a]) implies ready@.contains(keys[a]) by {
                    if a < i0 {
                        assert(before.contains(keys[a]));
                        let k = choose|k: int| 0 <= k < before.len() && before[k] == keys[a];
                        assert(ready@[k] == keys[a]);
                    } else {
                        assert(ready@[ready@.len() - 1] == keys[a]);
                    }
                }
            }
        }
        proof {
            assert forall|id: u32| ready@.contains(id) <==> expirable(l0, now).contains(id) by {
                if expirable(l0, now).contains(id) {
                    assert(rem.contains_key(id));
                    let a = choose|a: int| 0 <= a < entries.len() && *entries[a].0 == id;
                    assert(keys[a] == id);
                }
                if ready@.contains(id) {
                    let i = choose|i: int| 0 <= i < ready@.len() && ready@[i] == id;
                    assert(expirable(l0, now).contains(ready@[i]));
                }
            }
        }
        let ghost s0 = self@;
        let mut evicted: usize = 0;
        let mut k: usize = 0;
        while k < ready.len()
            invariant
                self.wf(),
                self.manager().clock_value() == old(self).manager().clock_value(),
                s0 == old(self)@,
                k <= ready@.len(),
                evicted == k,
                l0 == s0.lifecycle,
                forall|i: int, j: int| 0 <= i < j < ready@.len() ==> ready@[i] < ready@[j],
                forall|id: u32| ready@.contains(id) <==> expirable(l0, now).contains(id),
                self@ == with_lifecycle(s0, self@.lifecycle),
                expire_from(s0.lifecycle, ready@, now, 0) == expire_from(self@.lifecycle, ready@, now, k as int),
            decreases ready@.len() - k,
        {
            let id = ready[k];
            worker.release(id);
            let ghost before = *self;
            let ghost lb = self@.lifecycle;
            let done = self.lifecycle.transition_at(id, LifecycleEvent::Expire, now);
            proof {
                assert(self.same_but_lifecycle(&before));
                Self::lemma_wf_kept(&before, self);
            }
            match done {
                Err(e) => {
                    proof {
                        assert(step(lb, id, LifecycleEvent::Expire, now) is None);
                        assert(expire_from(lb, ready@, now, k as int).0 == Err::<nat, u32>(id));
                        assert(expire_from(lb, ready@, now, k as int).1 == lb);
                        assert(self@ == with_lifecycle(s0, expire_from(s0.lifecycle, ready@, now, 0).1));
                    }
                    return Err(e);
                },
                Ok(_) => {},
            }
            evicted = evicted + 1;
            k = k + 1;
        }
        proof {
            assert(expire_from(self@.lifecycle, ready@, now, k as int) == (
                Ok::<nat, u32>(ready@.len()),
                self@.lifecycle,
            ));
            assert(self@ == with_lifecycle(s0, expire_from(s0.lifecycle, ready@, now, 0).1));
        }
        Ok(evicted)
    }

    /// Evict expired cooling chunks, reading the clock once. Whatever the
    /// clock reads, the outcome is that of [`tick_at`](Self::tick_at) at
    /// that reading.
    pub fn tick<W: MaterializeWorker>(&mut self, worker: &mut W) -> (r: Result<usize, LifecycleError>)
        requires
            old(self).wf(),
        ensures
            final(self).wf(),
            final(self).manager().clock_value() == old(self).manager().clock_value(),
            exists|now: u64, ready: Seq<u32>| {
                &&& call_ensures(C::now, (&old(self).manager().clock_value(),), now)
                &&& forall|i: int, j: int| 0 <= i < j < ready.len() ==> ready[i] < ready[j]
                &&& forall|id: u32| ready.contains(id) <==> expirable(old(self)@.lifecycle, now).contains(id)
                &&& final(self)@ == with_lifecycle(old(self)@, #[trigger] expire_from(old(self)@.lifecycle, ready, now, 0).1)
                &&& reports_count(r, expire_from(old(self)@.lifecycle, ready, now, 0).0, LifecycleEvent::Expire)
            },
    {
        let now = self.lifecycle.clock().now();
        self.tick_at(worker, now)
    }

    /// Evict visible chunks for memory pressure at clock reading `now`:
    /// release the furthest-from-viewport visible chunks first (by priority
    /// key, then id, both descending), culling each, until the released
    /// chunks' bytes (`freed[id - 1]`) reach `target_bytes`. Returns the
    /// number of chunks evicted.
    pub fn evict_for_memory_at<W: MaterializeWorker>(
        &mut self,
        worker: &mut W,
        target_bytes: u64,
        freed: &[u64],
        placements: &[Placement],
        direction: Direction,
        now: u64,
    ) -> (r: Result<usize, LifecycleError>)
        requires
            old(self).wf(),
            !ids_in_state(old(self)@.lifecycle, ChunkState::Visible).contains(0),
        ensures
            final(self).wf(),
            final(self).manager().clock_value() == old(self).manager().clock_value(),
            exists|order: Seq<u32>| {
                &&& eviction_order(old(self)@.lifecycle, placements@, direction, order)
                &&& final(self)@ == with_lifecycle(
                    old(self)@,
                    #[trigger] evict_from(old(self)@.lifecycle, order, freed@, target_bytes, now, 0, 0).1,
                )
                &&& reports_count(r, evict_from(old(self)@.lifecycle, order, freed@, target_bytes, now, 0, 0).0, LifecycleEvent::Cull)
            },
    {
        let ghost s0 = self@;
        let visible = self.lifecycle.chunks_in_state(ChunkState::Visible);
        proof {
            assert forall|i: int| 0 <= i < visible@.len() implies visible@[i] >= 1 by {
                assert(visible@.contains(visible@[i]));
            }
        }
        let order = eviction_order_of(&visible, placements, direction);
        let mut freed_so_far: u64 = 0;
        let mut evicted: usize = 0;
        let mut i: usize = 0;
        while i < order.len()
            invariant
                self.wf(),
                self.manager().clock_value() == old(self).manager().clock_value(),
                s0 == old(self)@,
                eviction_order(s0.lifecycle, placements@, direction, order@),
                i <= order@.len(),
                evicted == i,
                self@ == with_lifecycle(s0, self@.lifecycle),
                evict_from(s0.lifecycle, order@, freed@, target_bytes, now, 0, 0) == evict_from(
                    self@.lifecycle,
                    order@,
                    freed@,
                    target_bytes,
                    now,
                    i as int,
                    freed_so_far,
                ),
            ensures
                i >= order@.len() || freed_so_far >= target_bytes,
            decreases order@.len() - i,
        {
            if freed_so_far >= target_bytes {
                break;
            }
            let id = order[i];
            worker.release(id);
            let ghost before = *self;
            let ghost lb = self@.lifecycle;
            let done = self.lifecycle.transition_at(id, LifecycleEvent::Cull, now);
            proof {
                assert(self.same_but_lifecycle(&before));
                Self::lemma_wf_kept(&before, self);
            }
            match done {
                Err(e) => {
                    proof {
                        assert(step(lb, id, LifecycleEvent::Cull, now) is None);
                        assert(evict_from(lb, order@, freed@, target_bytes, now, i as int, freed_so_far) == (
                            Err::<nat, u32>(id),
                            lb,
                        ));
                        assert(self@ == with_lifecycle(s0, evict_from(s0.lifecycle, order@, freed@, target_bytes, now, 0, 0).1));
                    }
                    return Err(e);
                },
                Ok(_) => {},
            }
            let bytes = if 1 <= id && (id as usize) <= freed.len() {
                freed[(id - 1) as usize]
            } else {
                0
            };
            freed_so_far = freed_so_far.saturating_add(bytes);
            evicted = evicted + 1;
            i = i + 1;
        }
        proof {
            assert(evict_from(self@.lifecycle, order@, freed@, target_bytes, now, i as int, freed_so_far) == (
                Ok::<nat, u32>(i as nat),
                self@.lifecycle,
            ));
            assert(self@ == with_lifecycle(s0, evict_from(s0.lifecycle, order@, freed@, target_bytes, now, 0, 0).1));
        }
        Ok(evicted)
    }

    /// Evict visible chunks for memory pressure, reading the clock once.
    /// Whatever the clock reads, the outcome is that of
    /// [`evict_for_memory_at`](Self::evict_for_memory_at) at that reading.
    pub fn evict_for_memory<W: MaterializeWorker>(
        &mut self,
        worker: &mut W,
        target_bytes: u64,
        freed: &[u64],
        placements: &[Placement],
        direction: Direction,
    ) -> (r: Result<usize, LifecycleError>)
        requires
            old(self).wf(),
            !ids_in_state(old(self)@.lifecycle, ChunkState::Visible).contains(0),
        ensures
            final(self).wf(),
            final(self).manager().clock_value() == old(self).manager().clock_value(),
            exists|now: u64, order: Seq<u32>| {
                &&& call_ensures(C::now, (&old(self).manager().clock_value(),), now)
                &&& eviction_order(old(self)@.lifecycle, placements@, direction, order)
                &&& final(self)@ == with_lifecycle(
                    old(self)@,
                    #[trigger] evict_from(old(self)@.lifecycle, order, freed@, target_bytes, now, 0, 0).1,
                )
                &&& reports_count(r, evict_from(old(self)@.lifecycle, order, freed@, target_bytes, now, 0, 0).0, LifecycleEvent::Cull)
            },
    {
        let now = self.lifecycle.clock().now();
        self.evict_for_memory_at(worker, target_bytes, freed, placements, direction, now)
    }

    /// Whether a chunk is currently queued.
    pub fn is_pending(&self, chunk_id: u32) -> (r: bool)
        ensures
            r == self@.pending.contains(chunk_id),
    {
        self.pending.contains(&chunk_id)
    }

    /// The number of queued chunks.
    pub fn pending_count(&self) -> (r: usize)
        requires
            self.wf(),
        ensures
            r == self@.queue.len(),
    {
        self.queue.size()
    }
}

} // verus!
