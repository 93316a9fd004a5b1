//! The chunk lifecycle state machine.
//!
//! Every chunk moves through deterministic states:
//!
//! ```text
//! Compressed ──(enqueue)──▶ Queued ──(begin)──▶ Materializing ──(complete)──▶ Visible
//!     ▲                        │  ▲                 │                            │
//!     │                        │  └──(pause: budget exhausted)                   │
//!     │                        │ (dequeue)          │ (cancel)                   │
//!     │                        ▼                    ▼                            ▼
//!     └───────────(requeue)── Cooling ◀──────────(cull: left visible set)───────┘
//!                                │
//!                                │ (expire: cooling elapsed, no selection)
//!                                ▼
//!                            Evicted ──▶ (re-enters at Queued on enqueue)
//! ```
//!
//! Every transition is explicit, guarded, and recorded in a transition log
//! (deterministic under an injected clock). Hidden chunks never enter the
//! queue; a cooling chunk with an active selection cannot be evicted. The
//! machine never panics: every violation is a typed [`LifecycleError`].

use vstd::prelude::*;
use std::collections::BTreeMap;
use crate::clock::Clock;
use vstd::std_specs::btree::increasing_seq;
use vstd::std_specs::iter::IteratorSpec;
use vstd::std_specs::cmp::OrdSpec;
use crate::text::{push_decimal, push_str, to_owned_string};

verus! {

/// The six lifecycle states.
#[derive(Debug, Clone, Copy, PartialEq, Eq, Structural, Hash, PartialOrd, Ord)]
pub enum ChunkState {
    /// The chunk's compressed payload exists; no runtime resources.
    Compressed,
    /// Waiting in the materialization queue.
    Queued,
    /// The chunk's resources are being produced.
    Materializing,
    /// The chunk is rendered and resident.
    Visible,
    /// Left the visible set; waiting out its cooling period.
    Cooling,
    /// Resources released; can re-enter at `Queued` on enqueue.
    Evicted,
}

/// The lifecycle events that drive transitions.
#[derive(Debug, Clone, Copy, PartialEq, Eq, Structural, Hash, PartialOrd, Ord)]
pub enum LifecycleEvent {
    /// Compressed or Evicted → Queued.
    Enqueue,
    /// Queued → Materializing.
    Begin,
    /// Queued → Compressed (priority changed before work started).
    Dequeue,
    /// Materializing → Visible.
    Complete,
    /// Materializing → Compressed (resources released).
    Cancel,
    /// Materializing → Queued (budget exhausted mid-work).
    Pause,
    /// Visible → Cooling (left the visible set).
    Cull,
    /// Cooling → Queued (needed again).
    Requeue,
    /// Cooling → Evicted (cooling elapsed, no selection).
    Expire,
}

/// The name of a state.
pub open spec fn state_name(s: ChunkState) -> Seq<char> {
    match s {
        ChunkState::Compressed => "Compressed"@,
        ChunkState::Queued => "Queued"@,
        ChunkState::Materializing => "Materializing"@,
        ChunkState::Visible => "Visible"@,
        ChunkState::Cooling => "Cooling"@,
        ChunkState::Evicted => "Evicted"@,
    }
}

/// The name of an event.
pub open spec fn event_name(e: LifecycleEvent) -> Seq<char> {
    match e {
        LifecycleEvent::Enqueue => "enqueue"@,
        LifecycleEvent::Begin => "begin"@,
        LifecycleEvent::Dequeue => "dequeue"@,
        LifecycleEvent::Complete => "complete"@,
        LifecycleEvent::Cancel => "cancel"@,
        LifecycleEvent::Pause => "pause"@,
        LifecycleEvent::Cull => "cull"@,
        LifecycleEvent::Requeue => "requeue"@,
        LifecycleEvent::Expire => "expire"@,
    }
}

/// The names of `events`, in order, separated by `", "`.
pub open spec fn event_list(events: Seq<LifecycleEvent>) -> Seq<char>
    decreases events.len(),
{
    if events.len() == 0 {
        Seq::empty()
    } else if events.len() == 1 {
        event_name(events[0])
    } else {
        event_list(events.drop_last()) + ", "@ + event_name(events.last())
    }
}

impl ChunkState {
    /// The state's name.
    pub fn name(self) -> (r: &'static str)
        ensures
            r@ == state_name(self),
    {
        match self {
            ChunkState::Compressed => "Compressed",
            ChunkState::Queued => "Queued",
            ChunkState::Materializing => "Materializing",
            ChunkState::Visible => "Visible",
            ChunkState::Cooling => "Cooling",
            ChunkState::Evicted => "Evicted",
        }
    }
}

impl LifecycleEvent {
    /// The event's name.
    pub fn name(self) -> (r: &'static str)
        ensures
            r@ == event_name(self),
    {
        match self {
            LifecycleEvent::Enqueue => "enqueue",
            LifecycleEvent::Begin => "begin",
            LifecycleEvent::Dequeue => "dequeue",
            LifecycleEvent::Complete => "complete",
            LifecycleEvent::Cancel => "cancel",
            LifecycleEvent::Pause => "pause",
            LifecycleEvent::Cull => "cull",
            LifecycleEvent::Requeue => "requeue",
            LifecycleEvent::Expire => "expire",
        }
    }
}

/// One recorded transition.
#[derive(Debug, Clone, Copy, PartialEq, Eq, Structural)]
pub struct Transition {
    /// The chunk that transitioned.
    pub chunk_id: u32,
    /// The event that drove the transition.
    pub event: LifecycleEvent,
    /// The state before the transition.
    pub from: ChunkState,
    /// The state after the transition.
    pub to: ChunkState,
    /// The clock reading at the transition.
    pub time: u64,
}

/// A lifecycle violation (guards / illegal transitions / registration).
#[derive(Debug, Clone, PartialEq, Eq)]
pub struct LifecycleError {
    /// The chunk the violation is scoped to.
    pub chunk_id: u32,
    /// The attempted event (`None` for registration failures).
    pub event: Option<LifecycleEvent>,
    /// The state at the attempt (`None` for registration failures).
    pub state: Option<ChunkState>,
    /// A human-readable detail.
    pub detail: String,
}

impl LifecycleError {
    /// A transition violation.
    pub fn transition(chunk_id: u32, event: LifecycleEvent, state: ChunkState, detail: &str) -> (r: Self)
        ensures
            r.chunk_id == chunk_id,
            r.event == Some(event),
            r.state == Some(state),
            r.detail@ == detail@,
    {
        LifecycleError { chunk_id, event: Some(event), state: Some(state), detail: to_owned_string(detail) }
    }

    /// A registration violation (invalid chunk id).
    pub fn registration(chunk_id: u32, detail: &str) -> (r: Self)
        ensures
            r.chunk_id == chunk_id,
            r.event is None,
            r.state is None,
            r.detail@ == detail@,
    {
        LifecycleError { chunk_id, event: None, state: None, detail: to_owned_string(detail) }
    }

    /// The violation's text: `"lifecycle: chunk <id> cannot <event> from
    /// <state>: <detail>"` for a transition, `"lifecycle: chunk <id> cannot
    /// register: <detail>"` otherwise.
    pub fn message(&self) -> (r: String)
        ensures
            r@ == lifecycle_error_text(*self),
    {
        let mut text = to_owned_string("lifecycle: chunk ");
        push_decimal(&mut text, self.chunk_id as u64);
        match (self.event, self.state) {
            (Some(event), Some(state)) => {
                push_str(&mut text, " cannot ");
                push_str(&mut text, event.name());
                push_str(&mut text, " from ");
                push_str(&mut text, state.name());
                push_str(&mut text, ": ");
            },
            _ => {
                push_str(&mut text, " cannot register: ");
            },
        }
        push_str(&mut text, self.detail.as_str());
        text
    }
}

/// The text of a lifecycle violation.
pub open spec fn lifecycle_error_text(e: LifecycleError) -> Seq<char> {
    let head = "lifecycle: chunk "@ + crate::text::decimal(e.chunk_id as nat);
    match (e.event, e.state) {
        (Some(event), Some(state)) => head + " cannot "@ + event_name(event) + " from "@ + state_name(state) + ": "@
            + e.detail@,
        _ => head + " cannot register: "@ + e.detail@,
    }
}

/// The events each state allows.
pub open spec fn allowed_spec(state: ChunkState) -> Seq<LifecycleEvent> {
    match state {
        ChunkState::Compressed => seq![LifecycleEvent::Enqueue],
        ChunkState::Queued => seq![LifecycleEvent::Begin, LifecycleEvent::Dequeue],
        ChunkState::Materializing => seq![LifecycleEvent::Complete, LifecycleEvent::Cancel, LifecycleEvent::Pause],
        ChunkState::Visible => seq![LifecycleEvent::Cull],
        ChunkState::Cooling => seq![LifecycleEvent::Requeue, LifecycleEvent::Expire],
        ChunkState::Evicted => seq![LifecycleEvent::Enqueue],
    }
}

/// Whether `event` is allowed from `state`.
pub open spec fn is_allowed(state: ChunkState, event: LifecycleEvent) -> bool {
    allowed_spec(state).contains(event)
}

/// The destination state of each event.
pub open spec fn destination_spec(event: LifecycleEvent) -> ChunkState {
    match event {
        LifecycleEvent::Enqueue => ChunkState::Queued,
        LifecycleEvent::Begin => ChunkState::Materializing,
        LifecycleEvent::Dequeue => ChunkState::Compressed,
        LifecycleEvent::Complete => ChunkState::Visible,
        LifecycleEvent::Cancel => ChunkState::Compressed,
        LifecycleEvent::Pause => ChunkState::Queued,
        LifecycleEvent::Cull => ChunkState::Cooling,
        LifecycleEvent::Requeue => ChunkState::Queued,
        LifecycleEvent::Expire => ChunkState::Evicted,
    }
}

/// The allowed events for each state.
fn allowed_events(state: ChunkState) -> (r: Vec<LifecycleEvent>)
    ensures
        r@ == allowed_spec(state),
{
    let r = match state {
        ChunkState::Compressed => vec![LifecycleEvent::Enqueue],
        ChunkState::Queued => vec![LifecycleEvent::Begin, LifecycleEvent::Dequeue],
        ChunkState::Materializing => vec![LifecycleEvent::Complete, LifecycleEvent::Cancel, LifecycleEvent::Pause],
        ChunkState::Visible => vec![LifecycleEvent::Cull],
        ChunkState::Cooling => vec![LifecycleEvent::Requeue, LifecycleEvent::Expire],
        ChunkState::Evicted => vec![LifecycleEvent::Enqueue],
    };
    assert(r@ =~= allowed_spec(state));
    r
}

/// The destination state for each transition.
fn destination(event: LifecycleEvent) -> (r: ChunkState)
    ensures
        r == destination_spec(event),
{
    match event {
        LifecycleEvent::Enqueue => ChunkState::Queued,
        LifecycleEvent::Begin => ChunkState::Materializing,
        LifecycleEvent::Dequeue => ChunkState::Compressed,
        LifecycleEvent::Complete => ChunkState::Visible,
        LifecycleEvent::Cancel => ChunkState::Compressed,
        LifecycleEvent::Pause => ChunkState::Queued,
        LifecycleEvent::Cull => ChunkState::Cooling,
        LifecycleEvent::Requeue => ChunkState::Queued,
        LifecycleEvent::Expire => ChunkState::Evicted,
    }
}

/// Per-chunk lifecycle configuration.
#[derive(Debug, Clone, Copy, PartialEq, Eq, Structural)]
pub struct ChunkLifecycleConfig {
    /// Chunks excluded by semantic culling never enter the queue.
    pub hidden: bool,
    /// The cooling period (ms) before an evicted chunk can be released.
    pub cooling_period_ms: u64,
}

/// Options for the lifecycle manager.
#[derive(Debug, Clone, Copy, PartialEq, Eq, Structural)]
pub struct LifecycleOptions {
    /// Default cooling period for chunks without explicit configuration.
    pub default_cooling_period_ms: u64,
}

/// The lifecycle manager: owns every chunk's state, guards every transition,
/// and records the transition log.
///
/// Chunks register once at load with their hidden flag; selection references
/// pin cooling chunks against eviction. All per-chunk tables are ordered by
/// chunk id, so enumeration is deterministic.
#[derive(Debug)]
pub struct LifecycleManager<C: Clock> {
    clock: C,
    tables: Tables,
}

/// The per-chunk tables and the log of a [`LifecycleManager`].
#[derive(Debug)]
struct Tables {
    default_cooling_period_ms: u64,
    states: BTreeMap<u32, ChunkState>,
    hidden: BTreeMap<u32, bool>,
    cooling_period: BTreeMap<u32, u64>,
    cooling_started_at: BTreeMap<u32, u64>,
    selection_refs: BTreeMap<u32, u32>,
    log: Vec<Transition>,
}

impl Tables {
    /// Empty tables with the given default cooling period.
    fn empty(default_cooling_period_ms: u64) -> (r: Self)
        ensures
            r.default_cooling_period_ms == default_cooling_period_ms,
            r.states@ == Map::<u32, ChunkState>::empty(),
            r.hidden@ == Map::<u32, bool>::empty(),
            r.cooling_period@ == Map::<u32, u64>::empty(),
            r.cooling_started_at@ == Map::<u32, u64>::empty(),
            r.selection_refs@ == Map::<u32, u32>::empty(),
            r.log@ == Seq::<Transition>::empty(),
    {
        Tables {
            default_cooling_period_ms,
            states: BTreeMap::new(),
            hidden: BTreeMap::new(),
            cooling_period: BTreeMap::new(),
            cooling_started_at: BTreeMap::new(),
            selection_refs: BTreeMap::new(),
            log: Vec::new(),
        }
    }
}

/// The mathematical value of a [`LifecycleManager`] (everything but its
/// clock).
pub struct LifecycleView {
    pub default_cooling_period_ms: u64,
    pub states: Map<u32, ChunkState>,
    pub hidden: Map<u32, bool>,
    pub cooling_period: Map<u32, u64>,
    pub cooling_started_at: Map<u32, u64>,
    pub selection_refs: Map<u32, u32>,
    pub log: Seq<Transition>,
}

impl<C: Clock> View for LifecycleManager<C> {
    type V = LifecycleView;

    closed spec fn view(&self) -> LifecycleView {
        LifecycleView {
            default_cooling_period_ms: self.tables.default_cooling_period_ms,
            states: self.tables.states@,
            hidden: self.tables.hidden@,
            cooling_period: self.tables.cooling_period@,
            cooling_started_at: self.tables.cooling_started_at@,
            selection_refs: self.tables.selection_refs@,
            log: self.tables.log@,
        }
    }
}

/// The state of a chunk (`Compressed` when unregistered).
pub open spec fn state_in(v: LifecycleView, id: u32) -> ChunkState {
    if v.states.contains_key(id) {
        v.states[id]
    } else {
        ChunkState::Compressed
    }
}

/// Whether a chunk is excluded by semantic culling.
pub open spec fn hidden_in(v: LifecycleView, id: u32) -> bool {
    v.hidden.contains_key(id) && v.hidden[id]
}

/// A chunk's cooling period (the default when unconfigured).
pub open spec fn period_in(v: LifecycleView, id: u32) -> u64 {
    if v.cooling_period.contains_key(id) {
        v.cooling_period[id]
    } else {
        v.default_cooling_period_ms
    }
}

/// Whether a chunk is pinned by a selection.
pub open spec fn selected_in(v: LifecycleView, id: u32) -> bool {
    v.selection_refs.contains_key(id) && v.selection_refs[id] > 0
}

/// `a - b`, or 0 when `b > a`.
pub open spec fn sat_sub(a: u64, b: u64) -> u64 {
    if a >= b {
        (a - b) as u64
    } else {
        0
    }
}

/// Whether the guards of `event` pass for chunk `id` at time `now`.
pub open spec fn guards_pass(v: LifecycleView, id: u32, event: LifecycleEvent, now: u64) -> bool {
    &&& is_allowed(state_in(v, id), event)
    &&& event == LifecycleEvent::Enqueue ==> !hidden_in(v, id)
    &&& event == LifecycleEvent::Expire ==> {
        &&& v.cooling_started_at.contains_key(id)
        &&& sat_sub(now, v.cooling_started_at[id]) >= period_in(v, id)
        &&& !selected_in(v, id)
    }
}

/// Whether `event` clears the cooling start.
pub open spec fn clears_cooling(event: LifecycleEvent) -> bool {
    event == LifecycleEvent::Requeue || event == LifecycleEvent::Cancel || event == LifecycleEvent::Dequeue
        || event == LifecycleEvent::Expire || destination_spec(event) == ChunkState::Queued
}

/// Applying `event` to chunk `id` with the clock reading `now`: `None` when
/// the transition is not allowed or a guard fails, otherwise the new state:
/// the chunk moves to the event's destination, a cull records `now` as the
/// cooling start, events that leave cooling (or land in `Queued`) clear it,
/// and the log gains one entry.
pub open spec fn step(v: LifecycleView, id: u32, event: LifecycleEvent, now: u64) -> Option<LifecycleView> {
    if !guards_pass(v, id, event, now) {
        None
    } else {
        let to = destination_spec(event);
        let started = if event == LifecycleEvent::Cull {
            v.cooling_started_at.insert(id, now)
        } else {
            v.cooling_started_at
        };
        Some(LifecycleView {
            states: v.states.insert(id, to),
            cooling_started_at: if clears_cooling(event) {
                started.remove(id)
            } else {
                started
            },
            log: v.log.push(Transition { chunk_id: id, event, from: state_in(v, id), to, time: now }),
            ..v
        })
    }
}

/// What a transition at clock reading `now` yields: on success the
/// destination state and the stepped manager; otherwise an error naming the
/// chunk, the event and the state, with the manager unchanged.
pub open spec fn transition_outcome(
    old: LifecycleView,
    id: u32,
    event: LifecycleEvent,
    now: u64,
    r: Result<ChunkState, LifecycleError>,
    new: LifecycleView,
) -> bool {
    match step(old, id, event, now) {
        Some(v) => r == Ok::<ChunkState, LifecycleError>(destination_spec(event)) && new == v,
        None => r matches Err(e) && e.chunk_id == id && e.event == Some(event) && e.state == Some(state_in(old, id))
            && new == old,
    }
}

/// An increasing sequence of ids is strictly ascending.
pub(crate) proof fn lemma_increasing_keys(keys: Seq<u32>)
    requires
        increasing_seq(keys),
    ensures
        forall|a: int, b: int| 0 <= a < b < keys.len() ==> keys[a] < keys[b],
{
    broadcast use vstd::std_specs::btree::group_btree_axioms;
    assert forall|a: int, b: int| 0 <= a < b < keys.len() implies keys[a] < keys[b] by {
        assert(keys[a].cmp_spec(&keys[b]) is Less);
    }
}

/// The remaining cooling time of every cooling chunk at time `now`.
pub open spec fn remaining_at(v: LifecycleView, now: u64) -> Map<u32, u64> {
    Map::new(
        |id: u32| v.cooling_started_at.contains_key(id),
        |id: u32| sat_sub(period_in(v, id), sat_sub(now, v.cooling_started_at[id])),
    )
}

/// The chunk ids in `state`.
pub open spec fn ids_in_state(v: LifecycleView, state: ChunkState) -> Set<u32> {
    v.states.dom().filter(|id: u32| v.states[id] == state)
}

impl<C: Clock> LifecycleManager<C> {
    /// Every manager keeps the standing invariant.
    #[verifier::type_invariant]
    spec fn manager_inv(self) -> bool {
        lifecycle_inv(self@)
    }

    /// The manager's clock.
    pub closed spec fn clock_value(&self) -> C {
        self.clock
    }

    /// Create a manager over the given clock.
    pub fn new(clock: C, options: LifecycleOptions) -> (r: Self)
        ensures
            r.clock_value() == clock,
            r@.default_cooling_period_ms == options.default_cooling_period_ms,
            r@.states == Map::<u32, ChunkState>::empty(),
            r@.hidden == Map::<u32, bool>::empty(),
            r@.cooling_period == Map::<u32, u64>::empty(),
            r@.cooling_started_at == Map::<u32, u64>::empty(),
            r@.selection_refs == Map::<u32, u32>::empty(),
            r@.log == Seq::<Transition>::empty(),
            lifecycle_inv(r@),
    {
        proof {
            lemma_inv_new(options.default_cooling_period_ms);
        }
        LifecycleManager { clock, tables: Tables::empty(options.default_cooling_period_ms) }
    }

    /// The manager's clock.
    pub fn clock(&self) -> (r: &C)
        ensures
            *r == self.clock_value(),
    {
        &self.clock
    }

    /// Replace the manager's clock (a test moves its clock this way).
    pub fn set_clock(&mut self, clock: C)
        ensures
            final(self).clock_value() == clock,
            final(self)@ == old(self)@,
    {
        proof {
            use_type_invariant(&*self);
        }
        self.clock = clock;
    }

    /// Move the tables out, leaving empty ones (with the same default
    /// period) in their place.
    fn take_tables(&mut self) -> (r: Tables)
        ensures
            final(self).clock_value() == old(self).clock_value(),
            final(self)@ == (LifecycleView {
                states: Map::empty(),
                hidden: Map::empty(),
                cooling_period: Map::empty(),
                cooling_started_at: Map::empty(),
                selection_refs: Map::empty(),
                log: Seq::empty(),
                ..old(self)@
            }),
            (LifecycleView {
                default_cooling_period_ms: r.default_cooling_period_ms,
                states: r.states@,
                hidden: r.hidden@,
                cooling_period: r.cooling_period@,
                cooling_started_at: r.cooling_started_at@,
                selection_refs: r.selection_refs@,
                log: r.log@,
            }) == old(self)@,
    {
        proof {
            lemma_inv_new(self.tables.default_cooling_period_ms);
        }
        let mut t = Tables::empty(self.tables.default_cooling_period_ms);
        std::mem::swap(&mut t, &mut self.tables);
        t
    }

    /// Register a chunk (idempotent); resets its state to `Compressed`,
    /// records its configuration and clears its cooling start and selection
    /// pins. Chunk id 0 is refused.
    pub fn register(&mut self, chunk_id: u32, config: ChunkLifecycleConfig) -> (r: Result<(), LifecycleError>)
        ensures
            final(self).clock_value() == old(self).clock_value(),
            chunk_id < 1 ==> (r matches Err(e) && e.chunk_id == chunk_id && e.event is None && e.state is None
                && final(self)@ == old(self)@),
            chunk_id >= 1 ==> r is Ok && final(self)@ == (LifecycleView {
                states: old(self)@.states.insert(chunk_id, ChunkState::Compressed),
                hidden: old(self)@.hidden.insert(chunk_id, config.hidden),
                cooling_period: old(self)@.cooling_period.insert(chunk_id, config.cooling_period_ms),
                cooling_started_at: old(self)@.cooling_started_at.remove(chunk_id),
                selection_refs: old(self)@.selection_refs.remove(chunk_id),
                ..old(self)@
            }),
            lifecycle_inv(final(self)@),
            final(self)@ == apply_call(old(self)@, ManagerCall::Register(chunk_id, config)),
    {
        proof {
            use_type_invariant(&*self);
        }
        if chunk_id < 1 {
            return Err(LifecycleError::registration(chunk_id, "chunk id must be a positive integer"));
        }
        proof {
            lemma_inv_register(old(self)@, chunk_id, config);
        }
        let mut t = self.take_tables();
        t.states.insert(chunk_id, ChunkState::Compressed);
        t.hidden.insert(chunk_id, config.hidden);
        t.cooling_period.insert(chunk_id, config.cooling_period_ms);
        t.cooling_started_at.remove(&chunk_id);
        t.selection_refs.remove(&chunk_id);
        self.tables = t;
        Ok(())
    }

    /// Whether a chunk is registered (or has transitioned).
    pub fn has(&self, chunk_id: u32) -> (r: bool)
        ensures
            r == self@.states.contains_key(chunk_id),
    {
        self.tables.states.contains_key(&chunk_id)
    }

    /// The current state of a chunk (`Compressed` when unregistered).
    pub fn state(&self, chunk_id: u32) -> (r: ChunkState)
        ensures
            r == state_in(self@, chunk_id),
    {
        match self.tables.states.get(&chunk_id) {
            Some(s) => *s,
            None => ChunkState::Compressed,
        }
    }

    /// Whether the chunk is excluded by semantic culling (a hidden chunk is
    /// always `Compressed`: it never enters the queue).
    pub fn is_hidden(&self, chunk_id: u32) -> (r: bool)
        ensures
            r == hidden_in(self@, chunk_id),
            r ==> state_in(self@, chunk_id) == ChunkState::Compressed,
    {
        proof {
            use_type_invariant(self);
        }
        match self.tables.hidden.get(&chunk_id) {
            Some(h) => *h,
            None => false,
        }
    }

    /// The number of selection pins on a chunk.
    fn selection_count(&self, chunk_id: u32) -> (r: u32)
        ensures
            r == (if self@.selection_refs.contains_key(chunk_id) { self@.selection_refs[chunk_id] } else { 0 }),
    {
        match self.tables.selection_refs.get(&chunk_id) {
            Some(n) => *n,
            None => 0,
        }
    }

    /// Pin a chunk against eviction (selection). Idempotent: selecting a
    /// selected chunk changes nothing.
    pub fn select(&mut self, chunk_id: u32)
        ensures
            final(self).clock_value() == old(self).clock_value(),
            final(self)@ == (LifecycleView { selection_refs: old(self)@.selection_refs.insert(chunk_id, 1), ..old(self)@ }),
            selected_in(final(self)@, chunk_id),
            lifecycle_inv(final(self)@),
            final(self)@ == apply_call(old(self)@, ManagerCall::Select(chunk_id)),
    {
        proof {
            use_type_invariant(&*self);
            lemma_inv_selection(old(self)@, old(self)@.selection_refs.insert(chunk_id, 1));
        }
        let mut t = self.take_tables();
        t.selection_refs.insert(chunk_id, 1);
        self.tables = t;
    }

    /// Release the selection pin: the chunk is no longer selected.
    pub fn unselect(&mut self, chunk_id: u32)
        ensures
            final(self).clock_value() == old(self).clock_value(),
            final(self)@ == (LifecycleView { selection_refs: old(self)@.selection_refs.remove(chunk_id), ..old(self)@ }),
            !selected_in(final(self)@, chunk_id),
            lifecycle_inv(final(self)@),
            final(self)@ == apply_call(old(self)@, ManagerCall::Unselect(chunk_id)),
    {
        proof {
            use_type_invariant(&*self);
            lemma_inv_selection(old(self)@, old(self)@.selection_refs.remove(chunk_id));
        }
        let mut t = self.take_tables();
        t.selection_refs.remove(&chunk_id);
        self.tables = t;
    }

    /// Whether the chunk is referenced by an active selection.
    pub fn is_selected(&self, chunk_id: u32) -> (r: bool)
        ensures
            r == selected_in(self@, chunk_id),
    {
        self.selection_count(chunk_id) > 0
    }

    /// The recorded transition log, in order.
    pub fn transitions(&self) -> (r: &[Transition])
        ensures
            r@ == self@.log,
            forall|i: int| 0 <= i < r@.len() ==> entry_follows_table(#[trigger] r@[i]),
    {
        proof {
            use_type_invariant(self);
        }
        let r = self.tables.log.as_slice();
        proof {
            assert forall|i: int| 0 <= i < r@.len() implies entry_follows_table(#[trigger] r@[i]) by {
                assert(r@[i] == self@.log[i]);
            }
        }
        r
    }

    /// The detail of a refused transition: the events the state allows.
    fn not_allowed_detail(allowed: &Vec<LifecycleEvent>) -> (r: String)
        ensures
            r@ == "transition not in {"@ + event_list(allowed@) + "}"@,
    {
        let mut detail = to_owned_string("transition not in {");
        let mut i: usize = 0;
        assert(allowed@.take(0) =~= Seq::<LifecycleEvent>::empty());
        assert(detail@ =~= "transition not in {"@ + event_list(allowed@.take(0)));
        while i < allowed.len()
            invariant
                i <= allowed@.len(),
                detail@ == "transition not in {"@ + event_list(allowed@.take(i as int)),
            decreases allowed@.len() - i,
        {
            let ghost before = detail@;
            assert(allowed@.take((i + 1) as int).drop_last() =~= allowed@.take(i as int));
            assert(allowed@.take((i + 1) as int).last() == allowed@[i as int]);
            if i > 0 {
                push_str(&mut detail, ", ");
            }
            push_str(&mut detail, allowed[i].name());
            proof {
                if i > 0 {
                    assert(detail@ =~= "transition not in {"@ + (event_list(allowed@.take(i as int)) + ", "@
                        + event_name(allowed@[i as int])));
                } else {
                    assert(detail@ =~= "transition not in {"@ + event_name(allowed@[i as int]));
                }
            }
            i = i + 1;
        }
        assert(allowed@.take(allowed@.len() as int) =~= allowed@);
        push_str(&mut detail, "}");
        detail
    }

    /// Apply an event with the clock reading `now`. Returns the destination
    /// state on success, or a typed [`LifecycleError`] (leaving the manager
    /// unchanged) when the transition is not allowed or a guard fails.
    pub fn transition_at(&mut self, chunk_id: u32, event: LifecycleEvent, now: u64) -> (r: Result<ChunkState, LifecycleError>)
        ensures
            final(self).clock_value() == old(self).clock_value(),
            transition_outcome(old(self)@, chunk_id, event, now, r, final(self)@),
            lifecycle_inv(final(self)@),
            final(self)@ == apply_call(old(self)@, ManagerCall::Transition(chunk_id, event, now)),
    {
        proof {
            use_type_invariant(&*self);
        }
        let state = self.state(chunk_id);
        let allowed = allowed_events(state);
        let mut found = false;
        let mut i: usize = 0;
        while i < allowed.len()
            invariant
                i <= allowed@.len(),
                found <==> exists|j: int| 0 <= j < i && allowed@[j] == event,
            decreases allowed@.len() - i,
        {
            if allowed[i] == event {
                found = true;
            }
            i = i + 1;
        }
        if !found {
            let detail = Self::not_allowed_detail(&allowed);
            return Err(LifecycleError { chunk_id, event: Some(event), state: Some(state), detail });
        }
        assert(allowed@[allowed@.index_of(event)] == event);
        match event {
            LifecycleEvent::Enqueue => {
                if self.is_hidden(chunk_id) {
                    return Err(LifecycleError::transition(chunk_id, event, state, "hidden chunks never enter the queue"));
                }
            },
            LifecycleEvent::Expire => {
                let started = match self.tables.cooling_started_at.get(&chunk_id) {
                    Some(t) => *t,
                    None => {
                        return Err(LifecycleError::transition(chunk_id, event, state, "no cooling start recorded"));
                    },
                };
                let period = match self.tables.cooling_period.get(&chunk_id) {
                    Some(p) => *p,
                    None => self.tables.default_cooling_period_ms,
                };
                if now.saturating_sub(started) < period {
                    return Err(LifecycleError::transition(chunk_id, event, state, "cooling period has not elapsed"));
                }
                if self.is_selected(chunk_id) {
                    return Err(LifecycleError::transition(chunk_id, event, state, "chunk is referenced by a selection"));
                }
            },
            _ => {},
        }
        let to = destination(event);
        let ghost v = step(old(self)@, chunk_id, event, now)->Some_0;
        proof {
            lemma_inv_step(old(self)@, chunk_id, event, now);
        }
        let mut t = self.take_tables();
        if event == LifecycleEvent::Cull {
            t.cooling_started_at.insert(chunk_id, now);
        }
        t.states.insert(chunk_id, to);
        t.log.push(Transition { chunk_id, event, from: state, to, time: now });
        if event == LifecycleEvent::Requeue || event == LifecycleEvent::Cancel || event == LifecycleEvent::Dequeue
            || event == LifecycleEvent::Expire {
            t.cooling_started_at.remove(&chunk_id);
        }
        if to == ChunkState::Queued {
            t.cooling_started_at.remove(&chunk_id);
        }
        proof {
            assert(t.cooling_started_at@ =~= v.cooling_started_at);
            assert(t.states@ =~= v.states);
        }
        self.tables = t;
        Ok(to)
    }

    /// Apply an event, reading the clock once for the transition's time.
    /// Whatever the clock reads, the outcome is that of
    /// [`transition_at`](Self::transition_at) at that reading.
    pub fn transition(&mut self, chunk_id: u32, event: LifecycleEvent) -> (r: Result<ChunkState, LifecycleError>)
        ensures
            final(self).clock_value() == old(self).clock_value(),
            exists|now: u64| call_ensures(C::now, (&old(self).clock_value(),), now) && #[trigger] transition_outcome(old(self)@, chunk_id, event, now, r, final(self)@)
                && final(self)@ == apply_call(old(self)@, ManagerCall::Transition(chunk_id, event, now)),
            lifecycle_inv(final(self)@),
    {
        let now = self.clock.now();
        self.transition_at(chunk_id, event, now)
    }

    /// All chunk ids in a given state, in ascending id order.
    pub fn chunks_in_state(&self, state: ChunkState) -> (r: Vec<u32>)
        ensures
            forall|i: int, j: int| 0 <= i < j < r@.len() ==> r@[i] < r@[j],
            forall|id: u32| r@.contains(id) <==> ids_in_state(self@, state).contains(id),
            r@.len() == ids_in_state(self@, state).len(),
            self@.states.dom().finite(),
    {
        proof {
            use_type_invariant(self);
        }
        broadcast use vstd::std_specs::btree::group_btree_axioms;
        let iter = self.tables.states.iter();
        let ghost entries = iter.remaining();
        let ghost keys = entries.map_values(|kv: (&u32, &ChunkState)| *kv.0);
        proof {
            assert(increasing_seq(keys));
            lemma_increasing_keys(keys);
        }
        let mut out: Vec<u32> = Vec::new();
        for kv in it: iter
            invariant
                it.seq() == entries,
                keys == entries.map_values(|kv: (&u32, &ChunkState)| *kv.0),
                forall|a: int, b: int| 0 <= a < b < keys.len() ==> keys[a] < keys[b],
                forall|a: int| 0 <= a < entries.len() ==> self@.states.contains_key(#[trigger] *entries[a].0)
                    && self@.states[*entries[a].0] == *entries[a].1,
                forall|id: u32| #[trigger] self@.states.contains_key(id) ==> exists|a: int| 0 <= a < entries.len() && *entries[a].0 == id,
                forall|i: int, j: int| 0 <= i < j < out@.len() ==> out@[i] < out@[j],
                out@.len() > 0 ==> exists|a: int| 0 <= a < it.index() && out@.last() == keys[a],
                forall|a: int| 0 <= a < it.index() && *entries[a].1 == state ==> out@.contains(keys[a]),
                forall|i: int| 0 <= i < out@.len() ==> ids_in_state(self@, state).contains(#[trigger] out@[i]),
        {
            let (id, s) = kv;
            let ghost i0 = it.index() as int;
            let ghost before = out@;
            assert(kv == entries[i0]);
            assert(keys[i0] == *id);
            if *s == state {
                out.push(*id);
                proof {
                    if before.len() > 0 {
                        let a = choose|a: int| 0 <= a < i0 && before.last() == keys[a];
                        assert(keys[a] < keys[i0]);
                    }
                    assert forall|i: int, j: int| 0 <= i < j < out@.len() implies out@[i] < out@[j] by {
                        if j == out@.len() - 1 && i < j {
                            if i < before.len() - 1 {
                                assert(before[i] < before[before.len() - 1]);
                            }
                        }
                    }
                    assert(out@.last() == keys[i0]);
                    assert(self@.states.contains_key(*entries[i0].0) && self@.states[*entries[i0].0] == *entries[i0].1);
                    assert forall|i: int| 0 <= i < out@.len() implies ids_in_state(self@, state).contains(#[trigger] out@[i]) by {
                        if i < before.len() {
                            assert(out@[i] == before[i]);
                        } else {
                            assert(out@[i] == *id);
                            assert(*entries[i0].0 == *id && *entries[i0].1 == *s);
                        }
                    }
                }
            }
            proof {
                assert forall|a: int| 0 <= a < i0 + 1 && *entries[a].1 == state implies out@.contains(keys[a]) by {
                    if a < i0 {
                        assert(before.contains(keys[a]));
                        let k = choose|k: int| 0 <= k < before.len() && before[k] == keys[a];
                        assert(out@[k] == keys[a]);
                    } else {
                        assert(out@[out@.len() - 1] == keys[a]);
                    }
                }
            }
        }
        proof {
            assert forall|id: u32| ids_in_state(self@, state).contains(id) implies out@.contains(id) by {
                let a = choose|a: int| 0 <= a < entries.len() && *entries[a].0 == id;
                assert(keys[a] == id);
            }
            assert forall|id: u32| out@.contains(id) implies ids_in_state(self@, state).contains(id) by {
                let i = choose|i: int| 0 <= i < out@.len() && out@[i] == id;
                assert(ids_in_state(self@, state).contains(out@[i]));
            }
            assert(out@.no_duplicates());
            out@.unique_seq_to_set();
            assert(out@.to_set() =~= ids_in_state(self@, state));
        }
        out
    }

    /// The number of chunks in a given state.
    pub fn count_in_state(&self, state: ChunkState) -> (r: usize)
        ensures
            r == ids_in_state(self@, state).len(),
            self@.states.dom().finite(),
    {
        proof {
            use_type_invariant(self);
        }
        let ids = self.chunks_in_state(state);
        proof {
            assert(ids@.no_duplicates());
            ids@.unique_seq_to_set();
            assert(ids@.to_set() =~= ids_in_state(self@, state));
        }
        ids.len()
    }

    /// The remaining cooling time of every cooling chunk at clock reading
    /// `now`. A reading before the cooling start counts as zero elapsed
    /// time (the cooling period starts over), which is strictly safer for
    /// eviction.
    pub fn cooling_remaining_at(&self, now: u64) -> (r: BTreeMap<u32, u64>)
        ensures
            r@ == remaining_at(self@, now),
            r@.dom() == ids_in_state(self@, ChunkState::Cooling),
    {
        proof {
            use_type_invariant(self);
            lemma_cooling_keys_are_cooling_chunks(self@, now);
        }
        broadcast use vstd::std_specs::btree::group_btree_axioms;
        let mut out: BTreeMap<u32, u64> = BTreeMap::new();
        for kv in it: self.tables.cooling_started_at.iter()
            invariant
                forall|id: u32| #[trigger] out@.contains_key(id) ==> self@.cooling_started_at.contains_key(id)
                    && out@[id] == sat_sub(period_in(self@, id), sat_sub(now, self@.cooling_started_at[id])),
                forall|k: int| 0 <= k < it.index() ==> out@.contains_key(*it.seq()[k].0),
        {
            let (id, started) = kv;
            let period = match self.tables.cooling_period.get(id) {
                Some(p) => *p,
                None => self.tables.default_cooling_period_ms,
            };
            out.insert(*id, period.saturating_sub(now.saturating_sub(*started)));
        }
        assert(out@ =~= remaining_at(self@, now));
        out
    }

    /// The chunk ids currently cooling, with the time remaining (ms) at the
    /// clock's reading.
    pub fn cooling_remaining(&self) -> (r: BTreeMap<u32, u64>)
        ensures
            exists|now: u64| call_ensures(C::now, (&self.clock_value(),), now) && r@ == #[trigger] remaining_at(self@, now),
            r@.dom() == ids_in_state(self@, ChunkState::Cooling),
    {
        let now = self.clock.now();
        self.cooling_remaining_at(now)
    }
}

/// A log entry follows the transition table: its event is allowed from
/// the state it left, and it landed in the event's destination.
pub open spec fn entry_follows_table(t: Transition) -> bool {
    is_allowed(t.from, t.event) && t.to == destination_spec(t.event)
}

/// The manager's standing invariant: a hidden chunk is always
/// `Compressed`, a chunk has a recorded cooling start exactly while it is
/// `Cooling`, every log entry follows the transition table, and finitely
/// many chunks are known.
pub open spec fn lifecycle_inv(v: LifecycleView) -> bool {
    &&& v.states.dom().finite()
    &&& forall|id: u32| #[trigger] hidden_in(v, id) ==> state_in(v, id) == ChunkState::Compressed
    &&& forall|id: u32| #[trigger] v.cooling_started_at.contains_key(id) <==> state_in(v, id) == ChunkState::Cooling
    &&& forall|i: int| 0 <= i < v.log.len() ==> entry_follows_table(#[trigger] v.log[i])
}

/// A successful transition follows the transition table: the event is
/// allowed from the chunk's state, the chunk lands in the event's
/// destination, every other chunk keeps its state, and the log gains
/// exactly one entry recording the move at the clock reading.
pub proof fn lemma_transition_follows_table(v: LifecycleView, id: u32, event: LifecycleEvent, now: u64)
    requires
        step(v, id, event, now) is Some,
    ensures
        is_allowed(state_in(v, id), event),
        state_in(step(v, id, event, now)->Some_0, id) == destination_spec(event),
        forall|other: u32| other != id ==> state_in(step(v, id, event, now)->Some_0, other) == state_in(v, other),
        step(v, id, event, now)->Some_0.log == v.log.push(
            Transition { chunk_id: id, event, from: state_in(v, id), to: destination_spec(event), time: now },
        ),
{
}

/// Hidden chunks never enter the queue: enqueueing one is refused at any
/// clock reading.
pub proof fn lemma_hidden_never_enqueued(v: LifecycleView, id: u32, now: u64)
    requires
        hidden_in(v, id),
    ensures
        step(v, id, LifecycleEvent::Enqueue, now) is None,
{
}

/// A chunk referenced by an active selection cannot be evicted, at any
/// clock reading.
pub proof fn lemma_selected_never_expires(v: LifecycleView, id: u32, now: u64)
    requires
        selected_in(v, id),
    ensures
        step(v, id, LifecycleEvent::Expire, now) is None,
{
}

/// Eviction only happens from `Cooling`, once the cooling period has
/// elapsed since the recorded cooling start (a reading before the start
/// counts as nothing elapsed), and never while a selection pins the chunk.
pub proof fn lemma_expire_waits_for_cooling(v: LifecycleView, id: u32, now: u64)
    requires
        step(v, id, LifecycleEvent::Expire, now) is Some,
    ensures
        state_in(v, id) == ChunkState::Cooling,
        v.cooling_started_at.contains_key(id),
        sat_sub(now, v.cooling_started_at[id]) >= period_in(v, id),
        !selected_in(v, id),
{
}

/// A fresh manager satisfies the invariant.
pub proof fn lemma_inv_new(default_cooling_period_ms: u64)
    ensures
        lifecycle_inv(LifecycleView {
            default_cooling_period_ms,
            states: Map::empty(),
            hidden: Map::empty(),
            cooling_period: Map::empty(),
            cooling_started_at: Map::empty(),
            selection_refs: Map::empty(),
            log: Seq::empty(),
        }),
{
}

/// Every transition keeps the invariant.
pub proof fn lemma_inv_step(v: LifecycleView, id: u32, event: LifecycleEvent, now: u64)
    requires
        lifecycle_inv(v),
        step(v, id, event, now) is Some,
    ensures
        lifecycle_inv(step(v, id, event, now)->Some_0),
{
    let w = step(v, id, event, now)->Some_0;
    assert forall|x: u32| #[trigger] hidden_in(w, x) implies state_in(w, x) == ChunkState::Compressed by {
        if x == id {
            assert(hidden_in(v, id));
            assert(state_in(v, id) == ChunkState::Compressed);
            assert(allowed_spec(ChunkState::Compressed) =~= seq![LifecycleEvent::Enqueue]);
            assert(allowed_spec(ChunkState::Compressed).contains(event));
            let k = choose|k: int| 0 <= k < allowed_spec(ChunkState::Compressed).len()
                && allowed_spec(ChunkState::Compressed)[k] == event;
            assert(event == LifecycleEvent::Enqueue);
        } else {
            assert(hidden_in(v, x));
            assert(state_in(w, x) == state_in(v, x));
        }
    }
    assert forall|x: u32| #[trigger] w.cooling_started_at.contains_key(x) <==> state_in(w, x) == ChunkState::Cooling by {
        if x == id {
            assert(v.cooling_started_at.contains_key(id) <==> state_in(v, id) == ChunkState::Cooling);
        } else {
            assert(v.cooling_started_at.contains_key(x) <==> state_in(v, x) == ChunkState::Cooling);
        }
    }
    assert forall|i: int| 0 <= i < w.log.len() implies entry_follows_table(#[trigger] w.log[i]) by {
        if i < v.log.len() {
            assert(w.log[i] == v.log[i]);
        }
    }
}

/// Registering a chunk keeps the invariant.
pub proof fn lemma_inv_register(v: LifecycleView, id: u32, config: ChunkLifecycleConfig)
    requires
        lifecycle_inv(v),
    ensures
        lifecycle_inv(LifecycleView {
            states: v.states.insert(id, ChunkState::Compressed),
            hidden: v.hidden.insert(id, config.hidden),
            cooling_period: v.cooling_period.insert(id, config.cooling_period_ms),
            cooling_started_at: v.cooling_started_at.remove(id),
            selection_refs: v.selection_refs.remove(id),
            ..v
        }),
{
    let w = LifecycleView {
        states: v.states.insert(id, ChunkState::Compressed),
        hidden: v.hidden.insert(id, config.hidden),
        cooling_period: v.cooling_period.insert(id, config.cooling_period_ms),
        cooling_started_at: v.cooling_started_at.remove(id),
        selection_refs: v.selection_refs.remove(id),
        ..v
    };
    assert forall|x: u32| #[trigger] hidden_in(w, x) implies state_in(w, x) == ChunkState::Compressed by {
        if x != id {
            assert(hidden_in(v, x));
        }
    }
    assert forall|x: u32| #[trigger] w.cooling_started_at.contains_key(x) <==> state_in(w, x) == ChunkState::Cooling by {
        if x != id {
            assert(v.cooling_started_at.contains_key(x) <==> state_in(v, x) == ChunkState::Cooling);
        }
    }
}

/// Selection pins do not touch states, hidden flags or cooling starts, so
/// they keep the invariant.
pub proof fn lemma_inv_selection(v: LifecycleView, refs: Map<u32, u32>)
    requires
        lifecycle_inv(v),
    ensures
        lifecycle_inv(LifecycleView { selection_refs: refs, ..v }),
{
    let w = LifecycleView { selection_refs: refs, ..v };
    assert forall|x: u32| #[trigger] hidden_in(w, x) implies state_in(w, x) == ChunkState::Compressed by {
        assert(hidden_in(v, x));
    }
    assert forall|x: u32| #[trigger] w.cooling_started_at.contains_key(x) <==> state_in(w, x) == ChunkState::Cooling by {
        assert(v.cooling_started_at.contains_key(x) <==> state_in(v, x) == ChunkState::Cooling);
    }
}

/// Under the invariant, an expiry refused for want of a cooling start
/// cannot happen: a cooling chunk always has one.
pub proof fn lemma_cooling_has_start(v: LifecycleView, id: u32)
    requires
        lifecycle_inv(v),
        state_in(v, id) == ChunkState::Cooling,
    ensures
        v.cooling_started_at.contains_key(id),
{
    assert(v.cooling_started_at.contains_key(id) <==> state_in(v, id) == ChunkState::Cooling);
}

/// A transition only ever appends to the log: a refused one leaves it as
/// it was, a successful one adds exactly the entry recording the move, and
/// no earlier entry changes. (Registration and selection calls keep the
/// log too: their contracts leave every other field of the view alone.)
pub proof fn lemma_log_append_only(
    v: LifecycleView,
    id: u32,
    event: LifecycleEvent,
    now: u64,
    r: Result<ChunkState, LifecycleError>,
    w: LifecycleView,
)
    requires
        transition_outcome(v, id, event, now, r, w),
    ensures
        v.log.len() <= w.log.len(),
        w.log.subrange(0, v.log.len() as int) == v.log,
        r is Err ==> w.log == v.log,
        r is Ok ==> w.log == v.log.push(
            Transition { chunk_id: id, event, from: state_in(v, id), to: destination_spec(event), time: now },
        ),
{
    assert(v.log.subrange(0, v.log.len() as int) =~= v.log);
    if step(v, id, event, now) is Some {
        assert(w.log.subrange(0, v.log.len() as int) =~= v.log);
    }
}

/// Under the invariant, every entry of the log follows the transition
/// table.
pub proof fn lemma_log_follows_table(v: LifecycleView, i: int)
    requires
        lifecycle_inv(v),
        0 <= i < v.log.len(),
    ensures
        is_allowed(v.log[i].from, v.log[i].event),
        v.log[i].to == destination_spec(v.log[i].event),
{
    assert(entry_follows_table(v.log[i]));
}

/// Under the invariant, the chunks with a cooling clock running are
/// exactly the `Cooling` chunks, whatever the clock reads.
pub proof fn lemma_cooling_keys_are_cooling_chunks(v: LifecycleView, now: u64)
    requires
        lifecycle_inv(v),
    ensures
        remaining_at(v, now).dom() == ids_in_state(v, ChunkState::Cooling),
{
    assert forall|id: u32| remaining_at(v, now).dom().contains(id) <==> ids_in_state(v, ChunkState::Cooling).contains(id) by {
        assert(v.cooling_started_at.contains_key(id) <==> state_in(v, id) == ChunkState::Cooling);
    }
    assert(remaining_at(v, now).dom() =~= ids_in_state(v, ChunkState::Cooling));
}

/// Every known chunk is in exactly one state: the per-state counts sum to
/// the number of known chunks.
pub proof fn lemma_state_counts_sum(v: LifecycleView)
    requires
        v.states.dom().finite(),
    ensures
        ids_in_state(v, ChunkState::Compressed).len() + ids_in_state(v, ChunkState::Queued).len() + ids_in_state(
            v,
            ChunkState::Materializing,
        ).len() + ids_in_state(v, ChunkState::Visible).len() + ids_in_state(v, ChunkState::Cooling).len()
            + ids_in_state(v, ChunkState::Evicted).len() == v.states.dom().len(),
{
    let a = ids_in_state(v, ChunkState::Compressed);
    let b = ids_in_state(v, ChunkState::Queued);
    let c = ids_in_state(v, ChunkState::Materializing);
    let d = ids_in_state(v, ChunkState::Visible);
    let e = ids_in_state(v, ChunkState::Cooling);
    let f = ids_in_state(v, ChunkState::Evicted);
    let dom = v.states.dom();
    vstd::set_lib::lemma_set_subset_finite(dom, a);
    vstd::set_lib::lemma_set_subset_finite(dom, b);
    vstd::set_lib::lemma_set_subset_finite(dom, c);
    vstd::set_lib::lemma_set_subset_finite(dom, d);
    vstd::set_lib::lemma_set_subset_finite(dom, e);
    vstd::set_lib::lemma_set_subset_finite(dom, f);
    vstd::set_lib::lemma_set_disjoint_lens(a, b);
    vstd::set_lib::lemma_set_disjoint_lens(a + b, c);
    vstd::set_lib::lemma_set_disjoint_lens(a + b + c, d);
    vstd::set_lib::lemma_set_disjoint_lens(a + b + c + d, e);
    vstd::set_lib::lemma_set_disjoint_lens(a + b + c + d + e, f);
    assert(a + b + c + d + e + f =~= dom);
}

/// One call on a manager, as its view sees it: a registration, a
/// transition at a clock reading, or a selection pin set or released.
pub enum ManagerCall {
    Register(u32, ChunkLifecycleConfig),
    Transition(u32, LifecycleEvent, u64),
    Select(u32),
    Unselect(u32),
}

/// The view after one call, as the methods' contracts give it.
pub open spec fn apply_call(v: LifecycleView, call: ManagerCall) -> LifecycleView {
    match call {
        ManagerCall::Register(id, config) => if id < 1 {
            v
        } else {
            LifecycleView {
                states: v.states.insert(id, ChunkState::Compressed),
                hidden: v.hidden.insert(id, config.hidden),
                cooling_period: v.cooling_period.insert(id, config.cooling_period_ms),
                cooling_started_at: v.cooling_started_at.remove(id),
                selection_refs: v.selection_refs.remove(id),
                ..v
            }
        },
        ManagerCall::Transition(id, event, now) => match step(v, id, event, now) {
            Some(w) => w,
            None => v,
        },
        ManagerCall::Select(id) => LifecycleView { selection_refs: v.selection_refs.insert(id, 1), ..v },
        ManagerCall::Unselect(id) => LifecycleView { selection_refs: v.selection_refs.remove(id), ..v },
    }
}

/// The view after a sequence of calls, in order.
pub open spec fn apply_calls(v: LifecycleView, calls: Seq<ManagerCall>) -> LifecycleView
    decreases calls.len(),
{
    if calls.len() == 0 {
        v
    } else {
        apply_call(apply_calls(v, calls.drop_last()), calls.last())
    }
}

/// A chunk's state as its call history gives it: the destination of the
/// last successful transition of the chunk since its last registration,
/// `Compressed` when it was registered since with no transition after, and
/// its state at the start otherwise.
pub open spec fn state_by_history(v: LifecycleView, calls: Seq<ManagerCall>, c: u32) -> ChunkState
    decreases calls.len(),
{
    if calls.len() == 0 {
        state_in(v, c)
    } else {
        let before = apply_calls(v, calls.drop_last());
        match calls.last() {
            ManagerCall::Register(id, _) => if id == c && id >= 1 {
                ChunkState::Compressed
            } else {
                state_by_history(v, calls.drop_last(), c)
            },
            ManagerCall::Transition(id, event, now) => if id == c && step(before, id, event, now) is Some {
                destination_spec(event)
            } else {
                state_by_history(v, calls.drop_last(), c)
            },
            _ => state_by_history(v, calls.drop_last(), c),
        }
    }
}

/// After any sequence of calls, a chunk's state is the one its history
/// gives: the destination of its last successful transition since its last
/// registration, or `Compressed` (for a fresh manager, `Compressed` for a
/// chunk never registered nor transitioned). The log only ever grows.
pub proof fn lemma_state_follows_history(v: LifecycleView, calls: Seq<ManagerCall>, c: u32)
    ensures
        state_in(apply_calls(v, calls), c) == state_by_history(v, calls, c),
        v.log.len() <= apply_calls(v, calls).log.len(),
        apply_calls(v, calls).log.subrange(0, v.log.len() as int) == v.log,
    decreases calls.len(),
{
    if calls.len() == 0 {
        assert(v.log.subrange(0, v.log.len() as int) =~= v.log);
    } else {
        lemma_state_follows_history(v, calls.drop_last(), c);
        let before = apply_calls(v, calls.drop_last());
        let after = apply_calls(v, calls);
        assert(after.log.subrange(0, v.log.len() as int) =~= before.log.subrange(0, v.log.len() as int)) by {
            if let ManagerCall::Transition(id, event, now) = calls.last() {
                if step(before, id, event, now) is Some {
                    assert(after.log == before.log.push(
                        Transition { chunk_id: id, event, from: state_in(before, id), to: destination_spec(event), time: now },
                    ));
                }
            }
        }
    }
}

/// Every sequence of calls keeps the invariant (which a fresh manager
/// holds), so in particular every entry of the log follows the transition
/// table.
pub proof fn lemma_calls_keep_invariant(v: LifecycleView, calls: Seq<ManagerCall>)
    requires
        lifecycle_inv(v),
    ensures
        lifecycle_inv(apply_calls(v, calls)),
    decreases calls.len(),
{
    if calls.len() > 0 {
        lemma_calls_keep_invariant(v, calls.drop_last());
        let before = apply_calls(v, calls.drop_last());
        match calls.last() {
            ManagerCall::Register(id, config) => {
                if id >= 1 {
                    lemma_inv_register(before, id, config);
                }
            },
            ManagerCall::Transition(id, event, now) => {
                if step(before, id, event, now) is Some {
                    lemma_inv_step(before, id, event, now);
                }
            },
            ManagerCall::Select(id) => {
                lemma_inv_selection(before, before.selection_refs.insert(id, 1));
            },
            ManagerCall::Unselect(id) => {
                lemma_inv_selection(before, before.selection_refs.remove(id));
            },
        }
    }
}

/// The view before call `j` of `calls`.
pub open spec fn view_before(v: LifecycleView, calls: Seq<ManagerCall>, j: int) -> LifecycleView {
    apply_calls(v, calls.take(j))
}

/// Log entry `i` of the run was made by call `j`: a transition whose
/// guards held in the view before it (allowed from the chunk's state, no
/// enqueue of a hidden chunk, no expiry before the cooling period has run
/// or while a selection pins the chunk), recording the move it made.
pub open spec fn entry_made_by(v: LifecycleView, calls: Seq<ManagerCall>, j: int, i: int) -> bool {
    &&& 0 <= j < calls.len()
    &&& calls[j] matches ManagerCall::Transition(id, event, now) && {
        let before = view_before(v, calls, j);
        &&& guards_pass(before, id, event, now)
        &&& apply_calls(v, calls).log[i] == Transition {
            chunk_id: id,
            event,
            from: state_in(before, id),
            to: destination_spec(event),
            time: now,
        }
    }
}

/// Every entry a run of calls adds to the log was made by one of its
/// transitions, whose guards held at that point of the run.
pub proof fn lemma_log_entry_origin(v: LifecycleView, calls: Seq<ManagerCall>, i: int)
    requires
        v.log.len() <= i < apply_calls(v, calls).log.len(),
    ensures
        exists|j: int| #[trigger] entry_made_by(v, calls, j, i),
    decreases calls.len(),
{
    lemma_state_follows_history(v, calls, 0);
    if calls.len() == 0 {
    } else {
        let prev = calls.drop_last();
        let before = apply_calls(v, prev);
        let after = apply_calls(v, calls);
        lemma_state_follows_history(v, prev, 0);
        assert(calls.take(calls.len() - 1) =~= prev);
        if i < before.log.len() {
            lemma_log_entry_origin(v, prev, i);
            let j = choose|j: int| #[trigger] entry_made_by(v, prev, j, i);
            assert(calls.take(j) =~= prev.take(j));
            assert(calls[j] == prev[j]);
            assert(after.log[i] == before.log[i]) by {
                if let ManagerCall::Transition(id, event, now) = calls.last() {
                    if step(before, id, event, now) is Some {
                        assert(after.log == before.log.push(
                            Transition { chunk_id: id, event, from: state_in(before, id), to: destination_spec(event), time: now },
                        ));
                    }
                }
            }
            assert(entry_made_by(v, calls, j, i));
        } else {
            let j = calls.len() - 1;
            if let ManagerCall::Transition(id, event, now) = calls.last() {
                if step(before, id, event, now) is Some {
                    assert(after.log == before.log.push(
                        Transition { chunk_id: id, event, from: state_in(before, id), to: destination_spec(event), time: now },
                    ));
                    assert(entry_made_by(v, calls, j, i));
                }
            }
        }
    }
}

/// Call `k` of `calls` moves chunk `c`: a registration of it or a
/// transition of it that succeeds.
pub open spec fn moves_chunk(v: LifecycleView, calls: Seq<ManagerCall>, k: int, c: u32) -> bool {
    match calls[k] {
        ManagerCall::Register(id, _) => id == c && id >= 1,
        ManagerCall::Transition(id, event, now) => id == c && step(view_before(v, calls, k), id, event, now) is Some,
        _ => false,
    }
}

/// After a successful transition of chunk `c` at call `j1`, the chunk
/// keeps that transition's destination until the next call that moves it.
proof fn lemma_state_kept(v: LifecycleView, calls: Seq<ManagerCall>, j1: int, k: int, c: u32, to: ChunkState)
    requires
        0 <= j1 < k <= calls.len(),
        state_in(view_before(v, calls, j1 + 1), c) == to,
        forall|m: int| j1 < m < k ==> !#[trigger] moves_chunk(v, calls, m, c),
    ensures
        state_in(view_before(v, calls, k), c) == to,
    decreases k - j1,
{
    if k > j1 + 1 {
        lemma_state_kept(v, calls, j1, k - 1, c, to);
        let prev = view_before(v, calls, k - 1);
        assert(calls.take(k).drop_last() =~= calls.take(k - 1));
        assert(calls.take(k).last() == calls[k - 1]);
        assert(!moves_chunk(v, calls, k - 1, c));
        assert(view_before(v, calls, k) == apply_call(prev, calls[k - 1]));
    }
}

/// Consecutive log entries of one chunk chain: when calls `j1` and `j2`
/// are successful transitions of chunk `c` and no call between them moves
/// it (no registration of it, no other successful transition of it), the
/// second leaves the state the first arrived in.
pub proof fn lemma_entries_chain(v: LifecycleView, calls: Seq<ManagerCall>, j1: int, j2: int, c: u32)
    requires
        0 <= j1 < j2 < calls.len(),
        calls[j1] matches ManagerCall::Transition(id, _, _) && id == c,
        moves_chunk(v, calls, j1, c),
        forall|m: int| j1 < m < j2 ==> !#[trigger] moves_chunk(v, calls, m, c),
    ensures
        calls[j1] matches ManagerCall::Transition(_, event, _) && state_in(view_before(v, calls, j2), c)
            == destination_spec(event),
{
    if let ManagerCall::Transition(id, event, now) = calls[j1] {
        assert(calls.take(j1 + 1).drop_last() =~= calls.take(j1));
        assert(calls.take(j1 + 1).last() == calls[j1]);
        assert(view_before(v, calls, j1 + 1) == apply_call(view_before(v, calls, j1), calls[j1]));
        lemma_state_kept(v, calls, j1, j2, c, destination_spec(event));
    }
}

/// A chunk at rest (never materialized, or evicted) that is not hidden can
/// always be queued again, whatever the clock reads: the transition is
/// accepted, lands in `Queued`, and leaves every other chunk's state alone.
pub proof fn lemma_resting_chunks_can_be_enqueued(v: LifecycleView, id: u32, now: u64)
    requires
        state_in(v, id) == ChunkState::Compressed || state_in(v, id) == ChunkState::Evicted,
        !hidden_in(v, id),
    ensures
        step(v, id, LifecycleEvent::Enqueue, now) matches Some(w) && state_in(w, id) == ChunkState::Queued
            && forall|other: u32| other != id ==> state_in(w, other) == state_in(v, other),
{
    assert(allowed_spec(state_in(v, id))[0] == LifecycleEvent::Enqueue);
    assert(is_allowed(state_in(v, id), LifecycleEvent::Enqueue));
}

/// Every move of the lifecycle is accepted from the state it leaves, at
/// any clock reading, and lands where it goes: a queued chunk begins or is
/// dequeued; a materializing one completes, is cancelled or pauses; a
/// visible one is culled; a cooling one is requeued, or expires once its
/// period has run out while no selection pins it.
pub proof fn lemma_lifecycle_moves_are_accepted(v: LifecycleView, id: u32, event: LifecycleEvent, now: u64)
    requires
        ({
            let s = state_in(v, id);
            ||| s == ChunkState::Queued && event == LifecycleEvent::Begin
            ||| s == ChunkState::Queued && event == LifecycleEvent::Dequeue
            ||| s == ChunkState::Materializing && event == LifecycleEvent::Complete
            ||| s == ChunkState::Materializing && event == LifecycleEvent::Cancel
            ||| s == ChunkState::Materializing && event == LifecycleEvent::Pause
            ||| s == ChunkState::Visible && event == LifecycleEvent::Cull
            ||| s == ChunkState::Cooling && event == LifecycleEvent::Requeue
            ||| s == ChunkState::Cooling && event == LifecycleEvent::Expire && v.cooling_started_at.contains_key(id)
                && sat_sub(now, v.cooling_started_at[id]) >= period_in(v, id) && !selected_in(v, id)
        }),
    ensures
        step(v, id, event, now) matches Some(w) && state_in(w, id) == (match event {
            LifecycleEvent::Begin => ChunkState::Materializing,
            LifecycleEvent::Complete => ChunkState::Visible,
            LifecycleEvent::Cull => ChunkState::Cooling,
            LifecycleEvent::Expire => ChunkState::Evicted,
            LifecycleEvent::Dequeue | LifecycleEvent::Cancel => ChunkState::Compressed,
            _ => ChunkState::Queued,
        }),
{
    let a = allowed_spec(state_in(v, id));
    if event == LifecycleEvent::Begin || event == LifecycleEvent::Complete || event == LifecycleEvent::Cull
        || event == LifecycleEvent::Requeue {
        assert(a[0] == event);
    } else if event == LifecycleEvent::Pause {
        assert(a[2] == event);
    } else {
        assert(a[1] == event);
    }
    assert(is_allowed(state_in(v, id), event));
}

} // verus!
