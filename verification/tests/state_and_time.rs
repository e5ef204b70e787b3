use cyclotron_core::time::{has_lapsed, hour_floor, MICROS_PER_HOUR};
use cyclotron_core::{JobState, StoreError};
use std::str::FromStr;

#[test]
fn parses_the_four_readable_states() {
    assert_eq!(JobState::from_str("available"), Ok(JobState::Available));
    assert_eq!(JobState::from_str("running"), Ok(JobState::Running));
    assert_eq!(JobState::from_str("completed"), Ok(JobState::Completed));
    assert_eq!(JobState::from_str("failed"), Ok(JobState::Failed));
}

#[test]
fn parsing_ignores_letter_case() {
    assert_eq!(JobState::from_str("Available"), Ok(JobState::Available));
    assert_eq!(JobState::from_str("RUNNING"), Ok(JobState::Running));
    assert_eq!(JobState::from_str("cOmPlEtEd"), Ok(JobState::Completed));
    assert_eq!(JobState::from_str("FaileD"), Ok(JobState::Failed));
}

#[test]
fn paused_has_no_readable_name() {
    assert_eq!(JobState::from_str("paused"), Err(()));
    assert_eq!(JobState::from_str("Paused"), Err(()));
    assert_eq!(JobState::from_str("PAUSED"), Err(()));
}

#[test]
fn rejects_other_texts() {
    assert_eq!(JobState::from_str(""), Err(()));
    assert_eq!(JobState::from_str("available "), Err(()));
    assert_eq!(JobState::from_str(" running"), Err(()));
    assert_eq!(JobState::from_str("run"), Err(()));
    assert_eq!(JobState::from_str("runningx"), Err(()));
    assert_eq!(JobState::from_str("complete"), Err(()));
    assert_eq!(JobState::from_str("fa\u{131}led"), Err(()));
    assert_eq!(JobState::from_str("\u{212a}"), Err(()));
    assert_eq!(JobState::from_str("fa\u{ff49}led"), Err(()));
}

#[test]
fn parse_goes_through_the_std_trait_too() {
    assert_eq!("Failed".parse::<JobState>(), Ok(JobState::Failed));
    assert_eq!("paused".parse::<JobState>(), Err(()));
    assert_eq!(<JobState as FromStr>::from_str("running"), Ok(JobState::Running));
}

#[test]
fn state_names_are_lower_case() {
    assert_eq!(JobState::Available.as_str(), "available");
    assert_eq!(JobState::Running.as_str(), "running");
    assert_eq!(JobState::Completed.as_str(), "completed");
    assert_eq!(JobState::Failed.as_str(), "failed");
    assert_eq!(JobState::Paused.as_str(), "paused");
}

#[test]
fn readable_names_round_trip() {
    for state in [
        JobState::Available,
        JobState::Running,
        JobState::Completed,
        JobState::Failed,
    ] {
        assert_eq!(JobState::from_str(state.as_str()), Ok(state));
    }
    assert_eq!(JobState::from_str(JobState::Paused.as_str()), Err(()));
}

#[test]
fn only_completed_and_failed_are_terminal() {
    assert!(JobState::Completed.is_terminal());
    assert!(JobState::Failed.is_terminal());
    assert!(!JobState::Available.is_terminal());
    assert!(!JobState::Running.is_terminal());
    assert!(!JobState::Paused.is_terminal());
}

#[test]
fn hour_floor_truncates_to_the_hour() {
    assert_eq!(MICROS_PER_HOUR, 3_600_000_000);
    assert_eq!(hour_floor(0), 0);
    assert_eq!(hour_floor(1), 0);
    assert_eq!(hour_floor(3_599_999_999), 0);
    assert_eq!(hour_floor(3_600_000_000), 3_600_000_000);
    assert_eq!(hour_floor(3_600_000_001), 3_600_000_000);
    // 2024-01-01T12:34:56.789012Z is in the hour that starts at 12:00:00Z.
    assert_eq!(hour_floor(1_704_112_496_789_012), 1_704_110_400_000_000);
}

#[test]
fn hour_floor_rounds_down_before_the_epoch() {
    assert_eq!(hour_floor(-1), -3_600_000_000);
    assert_eq!(hour_floor(-3_600_000_000), -3_600_000_000);
    assert_eq!(hour_floor(-3_600_000_001), -7_200_000_000);
}

#[test]
fn hour_floor_at_the_ends_of_the_range() {
    assert_eq!(hour_floor(i64::MAX), 9_223_372_036_800_000_000);
    let top = hour_floor(i64::MAX);
    assert_eq!(top % MICROS_PER_HOUR, 0);
    assert!(top <= i64::MAX && i64::MAX - top < MICROS_PER_HOUR);
    // The lowest hour is cut off by the end of the range: its instants share the lowest one.
    assert_eq!(hour_floor(i64::MIN), i64::MIN);
    assert_eq!(hour_floor(i64::MIN + 1), i64::MIN);
    let first_full = hour_floor(i64::MIN + MICROS_PER_HOUR);
    assert_eq!(first_full, -9_223_372_036_800_000_000);
    assert_eq!(first_full % MICROS_PER_HOUR, 0);
    assert!(first_full > i64::MIN);
    assert_eq!(hour_floor(first_full - 1), i64::MIN);
}

#[test]
fn lapsed_is_strictly_older_than_now_less_timeout() {
    assert!(has_lapsed(99, 200, 100));
    assert!(!has_lapsed(100, 200, 100));
    assert!(!has_lapsed(101, 200, 100));
    assert!(has_lapsed(-1, 0, 0));
    assert!(!has_lapsed(0, 0, 0));
}

#[test]
fn lapsed_does_not_wrap() {
    assert!(!has_lapsed(i64::MIN, i64::MIN, i64::MAX));
    assert!(has_lapsed(i64::MIN, i64::MAX, 0));
    assert!(!has_lapsed(i64::MAX, i64::MIN, i64::MIN));
    assert!(has_lapsed(0, i64::MAX, i64::MIN));
    assert!(!has_lapsed(0, i64::MIN, i64::MAX));
}

#[test]
fn errors_describe_themselves() {
    assert_eq!(StoreError::LeaseInvalid.as_str(), "lease invalid");
    assert_eq!(StoreError::NotFound.as_str(), "job not found");
    assert_eq!(StoreError::StorageError.as_str(), "storage error");
    assert_eq!(StoreError::CounterOverflow.as_str(), "counter overflow");
}
