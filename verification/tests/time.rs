use monitoring_platform::time::{saturating_add, saturating_sub, Duration};

#[test]
fn a_duration_counts_as_stds_does() {
    let std_max = std::time::Duration::MAX;
    assert_eq!(Duration::max().as_nanos(), std_max.as_nanos());
    assert_eq!(Duration::from_millis(1_500).as_nanos(), 1_500_000_000);
    assert_eq!(Duration::from_nanos(2_999_999_999).as_secs(), 2);
    assert_eq!(Duration::from_total(1 << 70).as_nanos(), 1 << 70);
    assert!(Duration::from_secs(3).at_least(Duration::from_secs(3)));
    assert!(Duration::zero().is_zero());
}

#[test]
fn time_that_went_backwards_is_no_time() {
    assert_eq!(Duration::between(5, 9), Duration::from_nanos(4));
    assert_eq!(Duration::between(9, 5), Duration::zero());
    assert_eq!(Duration::between(i64::MIN, i64::MAX), Duration::from_nanos(i64::MAX as u64));
    assert_eq!(saturating_add(i64::MAX, 1), i64::MAX);
    assert_eq!(saturating_sub(i64::MIN, 1), i64::MIN);
    assert_eq!(saturating_sub(3, 5), -2);
}
