use exponential_decay_histogram::clock::{Clock, NANOS_PER_SEC, RESCALE_INTERVAL_NANOS};

#[test]
fn a_new_clock_starts_its_epoch_at_the_given_instant() {
    let clock = Clock::new(42);
    assert_eq!(clock.start_time(), 42);
}

#[test]
fn elapsed_time_is_counted_in_whole_seconds() {
    let mut clock = Clock::new(0);
    let tick = clock.advance(5 * NANOS_PER_SEC + 999_999_999);
    assert_eq!(tick.now, 5 * NANOS_PER_SEC + 999_999_999);
    assert_eq!(tick.rescale_secs, None);
    assert_eq!(tick.elapsed_secs, 5);
    assert_eq!(clock.start_time(), 0);
}

#[test]
fn a_timestamp_that_runs_backwards_is_taken_at_the_latest_instant() {
    let mut clock = Clock::new(0);
    clock.advance(10 * NANOS_PER_SEC);
    let tick = clock.advance(3 * NANOS_PER_SEC);
    assert_eq!(tick.now, 10 * NANOS_PER_SEC);
    assert_eq!(tick.elapsed_secs, 10);
    assert_eq!(tick.rescale_secs, None);
}

#[test]
fn a_timestamp_before_the_start_is_taken_at_the_start() {
    let mut clock = Clock::new(7 * NANOS_PER_SEC);
    let tick = clock.advance(0);
    assert_eq!(tick.now, 7 * NANOS_PER_SEC);
    assert_eq!(tick.elapsed_secs, 0);
}

#[test]
fn reaching_the_deadline_opens_a_new_epoch() {
    let mut clock = Clock::new(0);
    let tick = clock.advance(RESCALE_INTERVAL_NANOS - 1);
    assert_eq!(tick.rescale_secs, None);
    assert_eq!(tick.elapsed_secs, 3599);

    let tick = clock.advance(RESCALE_INTERVAL_NANOS);
    assert_eq!(tick.rescale_secs, Some(3600));
    assert_eq!(tick.elapsed_secs, 0);
    assert_eq!(clock.start_time(), RESCALE_INTERVAL_NANOS);

    let tick = clock.advance(RESCALE_INTERVAL_NANOS + 1_500_000_000);
    assert_eq!(tick.rescale_secs, None);
    assert_eq!(tick.elapsed_secs, 1);
}

#[test]
fn a_long_idle_gap_closes_the_epoch_with_its_whole_length() {
    let mut clock = Clock::new(0);
    clock.advance(100 * NANOS_PER_SEC);
    let tick = clock.advance(15 * 60 * 60 * NANOS_PER_SEC);
    assert_eq!(tick.rescale_secs, Some(15 * 60 * 60));
    assert_eq!(tick.elapsed_secs, 0);
    let tick = clock.advance(15 * 60 * 60 * NANOS_PER_SEC + RESCALE_INTERVAL_NANOS / 2);
    assert_eq!(tick.rescale_secs, None);
    assert_eq!(tick.elapsed_secs, 1800);
}

#[test]
fn the_deadline_saturates_near_the_end_of_time() {
    let mut clock = Clock::new(u64::MAX - 5);
    let tick = clock.advance(u64::MAX - 1);
    assert_eq!(tick.rescale_secs, None);
    let tick = clock.advance(u64::MAX);
    assert_eq!(tick.rescale_secs, Some(0));
    assert_eq!(clock.start_time(), u64::MAX);
}
