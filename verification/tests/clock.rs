use polygone_drive::clock::{unix_now, whole_seconds, ClockError};
use std::time::{Duration, UNIX_EPOCH};

#[test]
fn durations_are_read_in_whole_seconds() {
    assert_eq!(whole_seconds(Ok(Duration::new(12, 999_999_999))), Ok(12));
    assert_eq!(whole_seconds(Ok(Duration::new(0, 1))), Ok(0));
}

#[test]
fn time_before_the_epoch_is_refused() {
    let before = UNIX_EPOCH.duration_since(UNIX_EPOCH + Duration::from_secs(1));
    assert_eq!(whole_seconds(before), Err(ClockError::BeforeEpoch));
}

#[test]
fn clock_shows_a_time_after_the_epoch() {
    assert!(unix_now().unwrap() > 1_600_000_000);
}
