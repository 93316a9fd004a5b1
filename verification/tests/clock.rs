use glyphcull_core::clock::{Clock, FakeClock, RealClock};

#[test]
fn fake_clock_advances_monotonically() {
    let mut clock = FakeClock::new();
    assert_eq!(clock.now(), 0);
    clock.advance(500);
    assert_eq!(clock.now(), 500);
    clock.advance(0);
    assert_eq!(clock.now(), 500);
}

#[test]
fn real_clock_reports_an_epoch_timestamp() {
    // The real clock reads the wall clock; it must be a large positive
    // millisecond timestamp (well past the epoch).
    assert!(RealClock.now() > 1_700_000_000_000);
}

#[test]
fn fake_clock_saturates_instead_of_wrapping() {
    let mut clock = FakeClock::new();
    clock.advance(u64::MAX - 1);
    clock.advance(10);
    assert_eq!(clock.now(), u64::MAX);
}
