use monitoring_platform::clock::{
    is_good, next_streak, outcome, Gate, GateSettings, Outcome, DEFAULT_THRESHOLD_MICROS,
};
use monitoring_platform::time::Duration;

#[test]
fn clock_the_threshold_is_exclusive() {
    assert!(is_good(4_999_999, 5_000_000));
    assert!(!is_good(5_000_000, 5_000_000));
    assert!(!is_good(5_000_001, 5_000_000));
}

#[test]
fn the_kernels_unsynchronized_ceiling_is_not_good_enough() {
    assert!(!is_good(16_000_000, DEFAULT_THRESHOLD_MICROS));
}

#[test]
fn one_bad_poll_resets_the_streak() {
    let streak = [true, true, false].iter().fold(0, |s, &g| next_streak(s, g));
    assert_eq!(streak, 0, "a bad reading must not leave partial credit behind");
    assert_eq!(next_streak(streak, true), 1);
}

#[test]
fn ready_only_once_the_streak_is_long_enough() {
    assert_eq!(outcome(2, 3, 0, 60), Outcome::KeepWaiting);
    assert_eq!(outcome(3, 3, 0, 60), Outcome::Ready);
    assert_eq!(outcome(4, 3, 0, 60), Outcome::Ready);
}

#[test]
fn gives_up_on_the_last_poll_rather_than_after_it() {
    assert_eq!(outcome(0, 3, 1, 3), Outcome::KeepWaiting);
    assert_eq!(outcome(0, 3, 2, 3), Outcome::GiveUp);
}

#[test]
fn a_good_last_poll_wins_over_giving_up() {
    assert_eq!(outcome(1, 1, 2, 3), Outcome::Ready);
}

fn settings(max_polls: u32) -> GateSettings {
    GateSettings { threshold_micros: 100, poll_interval: Duration::from_secs(5), max_polls, consecutive: 2 }
}

#[test]
fn the_gate_opens_on_two_good_readings_in_a_row() {
    let gate = Gate::new(settings(9));
    assert!(gate.wants_poll());
    let (gate, first) = gate.observe(99);
    let (gate, second) = gate.observe(100);
    let (gate, third) = gate.observe(0);
    let (_, fourth) = gate.observe(1);
    assert_eq!(
        [first, second, third, fourth],
        [Outcome::KeepWaiting, Outcome::KeepWaiting, Outcome::KeepWaiting, Outcome::Ready]
    );
}

#[test]
fn the_gate_fails_closed() {
    let (gate, first) = Gate::new(settings(2)).observe(500);
    let (gate, last) = gate.observe(700);
    assert_eq!((first, last), (Outcome::KeepWaiting, Outcome::GiveUp));
    assert!(!gate.wants_poll());
    let refusal = gate.refusal();
    assert!(refusal.contains("10") && refusal.contains("700"), "{refusal}");
    assert!(!Gate::new(settings(0)).wants_poll());
}
