use monitoring_platform::host::{is_unsynchronized, nanos, suspended_nanos, Sample};

#[test]
fn decodes_the_unsync_bit() {
    assert!(is_unsynchronized(libc::STA_UNSYNC));
    assert!(is_unsynchronized(libc::STA_UNSYNC | libc::STA_PLL));
    assert!(!is_unsynchronized(0));
    assert!(!is_unsynchronized(libc::STA_PLL));
}

#[test]
fn converts_a_timespec_to_nanoseconds() {
    assert_eq!(nanos(0, 0), 0);
    assert_eq!(nanos(1, 0), 1_000_000_000);
    assert_eq!(nanos(2, 500_000_000), 2_500_000_000);
}

#[test]
fn differences_of_clocks_are_exact() {
    assert_eq!(Sample { realtime: 100, boottime: 30 }.offset(), 70);
    assert_eq!(suspended_nanos(40, 100), 60);
}
