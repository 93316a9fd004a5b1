use glyphcull_core::clock::FakeClock;
use glyphcull_core::lifecycle::{ChunkLifecycleConfig, ChunkState, LifecycleEvent, LifecycleManager, LifecycleOptions};
use glyphcull_core::materialize::queue::{PriorityQueue, QueueItem};
use glyphcull_core::materialize::{
    priority_key, Direction, MaterializationScheduler, MaterializeWorker, Placement, SchedulerOptions, WorkResult,
};

struct Recorder {
    worked: Vec<u32>,
    released: Vec<u32>,
    yields_left: u32,
}

impl MaterializeWorker for Recorder {
    fn work(&mut self, chunk_id: u32, _budget_ms: u64, _elapsed_ms: u64) -> WorkResult {
        self.worked.push(chunk_id);
        if self.yields_left > 0 {
            self.yields_left -= 1;
            WorkResult::Yield
        } else {
            WorkResult::Complete
        }
    }

    fn release(&mut self, chunk_id: u32) {
        self.released.push(chunk_id);
    }
}

fn recorder(yields: u32) -> Recorder {
    Recorder { worked: Vec::new(), released: Vec::new(), yields_left: yields }
}

fn scheduler(chunks: u32, hidden: &[u32]) -> MaterializationScheduler<FakeClock> {
    let mut lifecycle = LifecycleManager::new(FakeClock::new(), LifecycleOptions { default_cooling_period_ms: 1000 });
    for id in 1..=chunks {
        lifecycle
            .register(id, ChunkLifecycleConfig { hidden: hidden.contains(&id), cooling_period_ms: 1000 })
            .expect("register");
    }
    MaterializationScheduler::new(lifecycle, SchedulerOptions { frame_budget_ms: 8, yield_penalty: 1 })
}

#[test]
fn priority_keys_follow_distance_direction_and_order() {
    assert_eq!(priority_key(Placement::Intersecting, Direction::Down, 7), 7);
    assert_eq!(priority_key(Placement::Unplaced, Direction::Up, 9), 9);
    let below = Placement::Away { tier: 1, above: false, below: true };
    let above = Placement::Away { tier: 1, above: true, below: false };
    assert_eq!(priority_key(below, Direction::Down, 3), (1u128 << 32) + 3);
    assert_eq!(priority_key(below, Direction::Up, 3), (1u128 << 32) + 0x8000_0000 + 3);
    assert_eq!(priority_key(above, Direction::Up, 3), (1u128 << 32) + 3);
    let far = Placement::Away { tier: 2, above: false, below: true };
    assert!(priority_key(far, Direction::Down, 0) > priority_key(above, Direction::Down, 1000));
}

#[test]
fn the_queue_hands_out_items_in_key_then_ordinal_order() {
    let mut q = PriorityQueue::new();
    let items = [(5u32, 30u128), (2, 10), (9, 10), (1, 50), (4, 20), (7, 10)];
    for (id, key) in items {
        q.push(QueueItem { chunk_id: id, key, ordinal: id - 1 });
    }
    assert_eq!(q.size(), 6);
    q.remove(4);
    q.remove(42);
    let mut order = Vec::new();
    while let Some(item) = q.pop() {
        order.push(item.chunk_id);
    }
    assert_eq!(order, vec![2, 7, 9, 5, 1]);
    assert!(q.pop().is_none());
}

#[test]
fn reconcile_enqueues_visible_chunks_in_priority_order() {
    let mut s = scheduler(3, &[]);
    let placements = [
        Placement::Away { tier: 2, above: false, below: true },
        Placement::Intersecting,
        Placement::Away { tier: 1, above: true, below: false },
    ];
    s.reconcile(&[1, 2, 3], &placements, Direction::Down).expect("reconcile");
    assert_eq!(s.pending_count(), 3);
    assert!(s.is_pending(1) && s.is_pending(2) && s.is_pending(3));
    assert_eq!(s.lifecycle().state(1), ChunkState::Queued);
    let mut w = recorder(0);
    s.run_frame(&mut w).expect("frame");
    assert_eq!(w.worked, vec![2, 3, 1]);
    assert_eq!(s.pending_count(), 0);
    assert_eq!(s.lifecycle().state(1), ChunkState::Visible);
    assert_eq!(s.lifecycle().chunks_in_state(ChunkState::Visible), vec![1, 2, 3]);
}

#[test]
fn a_yielding_chunk_is_requeued_behind_a_penalty() {
    let mut s = scheduler(2, &[]);
    let placements = [Placement::Intersecting, Placement::Intersecting];
    s.reconcile(&[1, 2], &placements, Direction::Down).expect("reconcile");
    let mut w = recorder(1);
    s.run_frame(&mut w).expect("frame");
    // chunk 1 yields once (key 0 + 1) and then runs after chunk 2 (key 1,
    // ordinal 1 > 0 so 1 still first at equal keys).
    assert_eq!(w.worked, vec![1, 1, 2]);
    assert_eq!(s.lifecycle().state(1), ChunkState::Visible);
    assert_eq!(s.lifecycle().state(2), ChunkState::Visible);
    let events: Vec<LifecycleEvent> = s.lifecycle().transitions().iter().filter(|t| t.chunk_id == 1).map(|t| t.event).collect();
    assert_eq!(
        events,
        vec![LifecycleEvent::Enqueue, LifecycleEvent::Begin, LifecycleEvent::Pause, LifecycleEvent::Begin, LifecycleEvent::Complete]
    );
}

#[test]
fn leaving_the_visible_set_culls_dequeues_and_later_expires() {
    let mut s = scheduler(3, &[]);
    let placements = [Placement::Intersecting; 3];
    s.reconcile(&[1, 2], &placements, Direction::Down).expect("reconcile");
    let mut w = recorder(0);
    s.run_frame(&mut w).expect("frame");
    s.reconcile(&[2, 3], &placements, Direction::Down).expect("reconcile");
    assert_eq!(s.lifecycle().state(1), ChunkState::Cooling);
    assert_eq!(s.lifecycle().state(3), ChunkState::Queued);
    s.reconcile(&[2], &placements, Direction::Down).expect("reconcile");
    assert_eq!(s.lifecycle().state(3), ChunkState::Compressed);
    assert!(!s.is_pending(3));
    assert_eq!(s.tick(&mut w).expect("tick"), 0);
    let mut clock = *s.lifecycle().clock();
    clock.advance(1000);
    s.lifecycle_mut().set_clock(clock);
    assert_eq!(s.tick(&mut w).expect("tick"), 1);
    assert_eq!(w.released, vec![1]);
    assert_eq!(s.lifecycle().state(1), ChunkState::Evicted);
}

#[test]
fn a_selected_cooling_chunk_survives_the_tick() {
    let mut s = scheduler(2, &[]);
    let placements = [Placement::Intersecting; 2];
    s.reconcile(&[1, 2], &placements, Direction::Down).expect("reconcile");
    let mut w = recorder(0);
    s.run_frame(&mut w).expect("frame");
    s.reconcile(&[], &placements, Direction::Down).expect("reconcile");
    s.lifecycle_mut().select(1);
    let mut clock = *s.lifecycle().clock();
    clock.advance(5000);
    s.lifecycle_mut().set_clock(clock);
    assert_eq!(s.tick(&mut w).expect("tick"), 1);
    assert_eq!(s.lifecycle().state(1), ChunkState::Cooling);
    assert_eq!(s.lifecycle().state(2), ChunkState::Evicted);
}

#[test]
fn a_hidden_visible_chunk_is_refused_entry() {
    let mut s = scheduler(2, &[2]);
    let placements = [Placement::Intersecting; 2];
    let err = s.reconcile(&[1, 2], &placements, Direction::Down).err().expect("refused");
    assert_eq!(err.chunk_id, 2);
    assert_eq!(err.event, Some(LifecycleEvent::Enqueue));
    assert_eq!(err.state, Some(ChunkState::Compressed));
    assert!(s.is_pending(1));
    assert!(!s.is_pending(2));
}

#[test]
fn memory_pressure_evicts_the_furthest_chunks_first() {
    let mut s = scheduler(3, &[]);
    let near = [Placement::Intersecting; 3];
    s.reconcile(&[1, 2, 3], &near, Direction::Down).expect("reconcile");
    let mut w = recorder(0);
    s.run_frame(&mut w).expect("frame");
    let placements = [
        Placement::Away { tier: 3, above: true, below: false },
        Placement::Intersecting,
        Placement::Away { tier: 1, above: false, below: true },
    ];
    let freed = [100u64, 100, 100];
    let n = s.evict_for_memory(&mut w, 150, &freed, &placements, Direction::Down).expect("evict");
    assert_eq!(n, 2);
    assert_eq!(w.released, vec![1, 3]);
    assert_eq!(s.lifecycle().state(1), ChunkState::Cooling);
    assert_eq!(s.lifecycle().state(3), ChunkState::Cooling);
    assert_eq!(s.lifecycle().state(2), ChunkState::Visible);
    let none = s.evict_for_memory(&mut w, 0, &freed, &placements, Direction::Down).expect("evict");
    assert_eq!(none, 0);
}
