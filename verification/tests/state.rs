use insights::clock::{millis_or_zero, now_ms};
use insights::state::{interval_for, interval_millis, AppState};
use std::time::{Duration, UNIX_EPOCH};

#[test]
fn focus_drives_sampling_interval() {
    let state = AppState::new();
    assert!(!state.is_focused());
    assert_eq!(state.sample_interval(), Duration::from_millis(1000));
    let shared = state.clone();
    shared.set_focused(true);
    assert!(state.is_focused());
    assert_eq!(state.sample_interval(), Duration::from_millis(250));
    state.set_focused(false);
    assert!(!shared.is_focused());
    assert_eq!(shared.sample_interval(), Duration::from_millis(1000));
}

#[test]
fn interval_for_focus() {
    assert_eq!(interval_millis(true), 250);
    assert_eq!(interval_millis(false), 1000);
    assert_eq!(interval_for(true), Duration::from_millis(250));
    assert_eq!(interval_for(false), Duration::from_millis(1000));
}

#[test]
fn clock_reads_after_epoch() {
    let a = now_ms();
    let b = now_ms();
    assert!(a > 1_600_000_000_000);
    assert!(b >= a);
}

#[test]
fn elapsed_time_in_whole_millis() {
    assert_eq!(millis_or_zero(Ok(Duration::from_millis(1500))), 1500);
    assert_eq!(millis_or_zero(Ok(Duration::from_micros(2999))), 2);
    let before = UNIX_EPOCH.duration_since(UNIX_EPOCH + Duration::from_secs(1));
    assert!(before.is_err());
    assert_eq!(millis_or_zero(before), 0);
}

#[test]
fn focused_period_is_shorter_and_positive() {
    let fast = interval_for(true);
    let slow = interval_for(false);
    assert!(fast < slow);
    assert!(fast > Duration::ZERO);
    assert_eq!(fast.as_millis(), 250);
    assert_eq!(slow.as_millis(), 1000);
    let state = AppState::new();
    assert!(state.sample_interval() > Duration::ZERO);
}
