use glyphcull_core::clock::FakeClock;
use glyphcull_core::lifecycle::{ChunkLifecycleConfig, ChunkState, LifecycleEvent, LifecycleManager, LifecycleOptions};

fn advance(m: &mut LifecycleManager<FakeClock>, ms: u64) {
    let mut clock = *m.clock();
    clock.advance(ms);
    m.set_clock(clock);
}

fn manager() -> LifecycleManager<FakeClock> {
    LifecycleManager::new(FakeClock::new(), LifecycleOptions { default_cooling_period_ms: 500 })
}

#[test]
fn the_full_lifecycle_round_trip_is_logged() {
    let mut m = manager();
    m.register(7, ChunkLifecycleConfig { hidden: false, cooling_period_ms: 100 }).expect("register");
    assert_eq!(m.transition(7, LifecycleEvent::Enqueue), Ok(ChunkState::Queued));
    assert_eq!(m.transition(7, LifecycleEvent::Begin), Ok(ChunkState::Materializing));
    assert_eq!(m.transition(7, LifecycleEvent::Complete), Ok(ChunkState::Visible));
    advance(&mut m, 40);
    assert_eq!(m.transition(7, LifecycleEvent::Cull), Ok(ChunkState::Cooling));
    assert_eq!(m.cooling_remaining().get(&7), Some(&100));
    advance(&mut m, 60);
    assert!(m.transition(7, LifecycleEvent::Expire).is_err());
    assert_eq!(m.cooling_remaining().get(&7), Some(&40));
    advance(&mut m, 40);
    assert_eq!(m.transition(7, LifecycleEvent::Expire), Ok(ChunkState::Evicted));
    assert_eq!(m.transitions().len(), 5);
    assert_eq!(m.transitions()[3].time, 40);
    assert_eq!(m.transitions()[4].time, 140);
    assert_eq!(m.transitions()[4].from, ChunkState::Cooling);
}

#[test]
fn illegal_transitions_are_refused_and_leave_state_alone() {
    let mut m = manager();
    m.register(1, ChunkLifecycleConfig { hidden: false, cooling_period_ms: 0 }).expect("register");
    let err = m.transition(1, LifecycleEvent::Complete).err().expect("refused");
    assert_eq!(err.chunk_id, 1);
    assert_eq!(err.event, Some(LifecycleEvent::Complete));
    assert_eq!(err.state, Some(ChunkState::Compressed));
    assert_eq!(m.state(1), ChunkState::Compressed);
    assert!(m.transitions().is_empty());
}

#[test]
fn hidden_chunks_never_enter_the_queue() {
    let mut m = manager();
    m.register(3, ChunkLifecycleConfig { hidden: true, cooling_period_ms: 0 }).expect("register");
    assert!(m.is_hidden(3));
    assert!(m.transition(3, LifecycleEvent::Enqueue).is_err());
    assert_eq!(m.state(3), ChunkState::Compressed);
}

#[test]
fn chunk_id_zero_is_refused_at_registration() {
    let mut m = manager();
    let err = m.register(0, ChunkLifecycleConfig { hidden: false, cooling_period_ms: 0 }).err().expect("refused");
    assert_eq!(err.chunk_id, 0);
    assert_eq!(err.event, None);
    assert!(!m.has(0));
}

#[test]
fn selecting_is_idempotent() {
    let mut m = manager();
    m.select(4);
    m.select(4);
    assert!(m.is_selected(4));
    m.unselect(4);
    assert!(!m.is_selected(4));
    m.unselect(4);
    assert!(!m.is_selected(4));
}

#[test]
fn states_are_enumerated_in_id_order() {
    let mut m = manager();
    for id in [9u32, 2, 5] {
        m.register(id, ChunkLifecycleConfig { hidden: false, cooling_period_ms: 0 }).expect("register");
        m.transition(id, LifecycleEvent::Enqueue).expect("enqueue");
    }
    assert_eq!(m.chunks_in_state(ChunkState::Queued), vec![2, 5, 9]);
    assert_eq!(m.count_in_state(ChunkState::Queued), 3);
    assert_eq!(m.count_in_state(ChunkState::Visible), 0);
}

#[test]
fn states_and_events_have_their_names() {
    assert_eq!(ChunkState::Compressed.name(), "Compressed");
    assert_eq!(ChunkState::Materializing.name(), "Materializing");
    assert_eq!(ChunkState::Evicted.name(), "Evicted");
    assert_eq!(LifecycleEvent::Enqueue.name(), "enqueue");
    assert_eq!(LifecycleEvent::Requeue.name(), "requeue");
    assert_eq!(LifecycleEvent::Expire.name(), "expire");
}

#[test]
fn every_known_chunk_is_counted_in_exactly_one_state() {
    let mut m = manager();
    for id in 1..=6u32 {
        m.register(id, ChunkLifecycleConfig { hidden: false, cooling_period_ms: 100 }).expect("register");
    }
    m.transition(2, LifecycleEvent::Enqueue).expect("enqueue");
    m.transition(3, LifecycleEvent::Enqueue).expect("enqueue");
    m.transition(3, LifecycleEvent::Begin).expect("begin");
    m.transition(4, LifecycleEvent::Enqueue).expect("enqueue");
    m.transition(4, LifecycleEvent::Begin).expect("begin");
    m.transition(4, LifecycleEvent::Complete).expect("complete");
    m.transition(4, LifecycleEvent::Cull).expect("cull");
    let states = [
        ChunkState::Compressed,
        ChunkState::Queued,
        ChunkState::Materializing,
        ChunkState::Visible,
        ChunkState::Cooling,
        ChunkState::Evicted,
    ];
    let total: usize = states.iter().map(|&s| m.count_in_state(s)).sum();
    assert_eq!(total, 6);
    for s in states {
        assert_eq!(m.count_in_state(s), m.chunks_in_state(s).len());
    }
    let cooling: Vec<u32> = m.cooling_remaining().keys().copied().collect();
    assert_eq!(cooling, m.chunks_in_state(ChunkState::Cooling));
    assert_eq!(cooling, vec![4]);
}
