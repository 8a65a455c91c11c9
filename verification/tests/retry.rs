use monitoring_platform::collector::retry::backoff;
use monitoring_platform::time::Duration;

fn base() -> Duration {
    Duration::from_millis(500)
}

fn cap() -> Duration {
    Duration::from_secs(10)
}

#[test]
fn no_failures_means_no_wait() {
    assert_eq!(backoff(0, base(), cap()), Duration::zero());
}

#[test]
fn the_first_retry_waits_one_base_interval() {
    assert_eq!(backoff(1, base(), cap()), base());
}

#[test]
fn it_doubles_per_consecutive_failure() {
    assert_eq!(backoff(2, base(), cap()), Duration::from_secs(1));
    assert_eq!(backoff(3, base(), cap()), Duration::from_secs(2));
    assert_eq!(backoff(4, base(), cap()), Duration::from_secs(4));
    assert_eq!(backoff(5, base(), cap()), Duration::from_secs(8));
}

#[test]
fn it_stops_doubling_at_the_cap() {
    assert_eq!(backoff(6, base(), cap()), cap());
    assert_eq!(backoff(7, base(), cap()), cap());
    assert_eq!(backoff(1_000, base(), cap()), cap());
}

#[test]
fn an_absurd_failure_count_neither_panics_nor_wraps() {
    assert_eq!(backoff(u32::MAX, base(), cap()), cap());
    assert_eq!(backoff(u32::MAX, Duration::max(), cap()), cap());
}

#[test]
fn a_zero_cap_disables_the_backoff() {
    assert_eq!(backoff(9, base(), Duration::zero()), Duration::zero());
}

#[test]
fn doubling_goes_on_until_the_cap() {
    let (nano, hour) = (Duration::from_nanos(1), Duration::from_secs(3_600));
    assert_eq!(backoff(40, nano, hour), Duration::from_nanos(549_755_813_888));
    assert_eq!(backoff(41, nano, hour), Duration::from_nanos(1_099_511_627_776));
    assert_eq!(backoff(43, nano, hour), hour);
    assert_eq!(backoff(u32::MAX, nano, Duration::max()), Duration::max());
    assert_eq!(backoff(u32::MAX, Duration::zero(), hour), Duration::zero());
}
