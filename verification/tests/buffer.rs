use monitoring_platform::collector::buffer::{decide, Buffer, Decision, Limits, Pending};
use monitoring_platform::collector::correct::Tally;
use monitoring_platform::otlp::proto::{LogsRequest, LogRecord, ResourceLogs, ScopeLogs};
use monitoring_platform::time::Duration;

const SEC: i64 = 1_000_000_000;

fn pending(bytes: usize, records: u64, queued_at: i64) -> Pending {
    Pending {
        request: LogsRequest {
            resource_logs: vec![ResourceLogs {
                scope_logs: vec![ScopeLogs {
                    log_records: (0..records).map(|_| LogRecord::default()).collect(),
                    ..Default::default()
                }],
                ..Default::default()
            }],
        },
        bytes,
        queued_at,
        tally: Tally { exact: records, ..Tally::default() },
    }
}

fn limits(max_records: usize, max_bytes: usize) -> Limits {
    Limits { max_records, max_bytes }
}

#[test]
fn holds_everything_under_the_cap() {
    let mut buffer = Buffer::new(limits(100, 10_000));
    for i in 0..5 {
        assert!(buffer.push(pending(100, 10, i * SEC)).is_empty());
    }
    assert_eq!(buffer.depth(), 50);
    assert_eq!(buffer.bytes(), 500);
    assert_eq!(buffer.drain().len(), 5);
    assert!(buffer.is_empty());
}

#[test]
fn the_record_cap_spills_oldest_first() {
    let mut buffer = Buffer::new(limits(25, 1_000_000));
    let mut spilled = Vec::new();
    for i in 0..4 {
        spilled.extend(buffer.push(pending(10, 10, i * SEC)));
    }

    assert_eq!(
        spilled.iter().map(|p| p.queued_at).collect::<Vec<_>>(),
        vec![0, SEC],
        "the two oldest should have been shed, in order"
    );
    assert_eq!(buffer.depth(), 20, "and the buffer trimmed back under its cap");
}

#[test]
fn the_byte_cap_spills_independently_of_the_record_cap() {
    let mut buffer = Buffer::new(limits(1_000_000, 250));
    for i in 0..2 {
        assert!(buffer.push(pending(100, 1, i * SEC)).is_empty());
    }
    let spilled = buffer.push(pending(100, 1, 2 * SEC));
    assert_eq!(spilled.len(), 1);
    assert_eq!(buffer.bytes(), 200);
}

#[test]
fn every_batch_comes_out_somewhere() {
    let mut buffer = Buffer::new(limits(30, 1_000_000));
    let mut seen = Vec::new();
    for i in 0..10 {
        seen.extend(buffer.push(pending(10, 10, i * SEC)).into_iter().map(|p| p.queued_at));
    }
    seen.extend(buffer.drain().into_iter().map(|p| p.queued_at));

    seen.sort_unstable();
    assert_eq!(seen, (0..10).map(|i| i * SEC).collect::<Vec<_>>(), "a batch went missing");
}

#[test]
fn one_oversized_batch_is_kept_rather_than_immediately_spilled() {
    let mut buffer = Buffer::new(limits(10, 100));
    assert!(buffer.push(pending(10_000, 5_000, 0)).is_empty());
    assert_eq!(buffer.depth(), 5_000);
    let spilled = buffer.push(pending(10, 1, SEC));
    assert_eq!(spilled.len(), 1);
    assert_eq!(spilled[0].tally.total(), 5_000);
}

#[test]
fn reports_the_age_of_the_oldest_batch() {
    let mut buffer = Buffer::new(limits(100, 10_000));
    assert_eq!(buffer.oldest_age(10 * SEC), None);

    buffer.push(pending(10, 1, 2 * SEC));
    buffer.push(pending(10, 1, 8 * SEC));
    assert_eq!(buffer.oldest_age(10 * SEC), Some(Duration::from_secs(8)));
    assert_eq!(buffer.oldest_age(0), Some(Duration::zero()));
}

#[test]
fn an_unsynchronized_clock_holds() {
    assert_eq!(
        decide(false, false, Duration::from_secs(10), Duration::from_secs(300)),
        Decision::Hold
    );
}

#[test]
fn the_timeout_flushes_marked_rather_than_dropping() {
    assert_eq!(
        decide(false, false, Duration::from_secs(300), Duration::from_secs(300)),
        Decision::FlushUncertain
    );
    assert_eq!(
        decide(false, false, Duration::from_secs(3000), Duration::from_secs(300)),
        Decision::FlushUncertain
    );
}

#[test]
fn losing_discipline_after_a_good_sync_does_not_re_arm_the_buffer() {
    assert_eq!(
        decide(false, true, Duration::from_secs(0), Duration::from_secs(300)),
        Decision::Flush,
        "a clock that was set stays trusted; only the error bound grows"
    );
    assert_eq!(
        decide(false, true, Duration::from_secs(86_400), Duration::from_secs(300)),
        Decision::Flush
    );
}

#[test]
fn a_synchronized_clock_flushes_immediately() {
    assert_eq!(
        decide(true, true, Duration::zero(), Duration::from_secs(300)),
        Decision::Flush
    );
    assert_eq!(
        decide(true, false, Duration::zero(), Duration::from_secs(300)),
        Decision::Flush,
        "the first sync of the boot releases the buffer"
    );
}

#[test]
fn spilling_stops_as_soon_as_both_caps_hold() {
    let mut buffer = Buffer::new(limits(30, 100));
    assert!(buffer.push(pending(40, 10, 0)).is_empty());
    assert!(buffer.push(pending(40, 10, SEC)).is_empty());
    let spilled = buffer.push(pending(40, 10, 2 * SEC));
    assert_eq!(spilled.len(), 1, "one batch too many bytes, none too many records");
    assert_eq!(spilled[0].queued_at, 0);
    assert_eq!((buffer.depth(), buffer.bytes()), (20, 80));
}

#[test]
fn what_is_spilled_and_then_drained_is_everything_in_order() {
    let mut buffer = Buffer::new(limits(3, 1_000));
    let mut out = Vec::new();
    for at in 0..9 {
        out.extend(buffer.push(pending(10, 1 + (at as u64 % 2), at)));
    }
    assert_eq!(buffer.count(), 2);
    out.extend(buffer.drain());
    assert_eq!(out.iter().map(|p| p.queued_at).collect::<Vec<_>>(), (0..9).collect::<Vec<_>>());
    assert!(buffer.is_empty());
    assert_eq!((buffer.depth(), buffer.bytes(), buffer.oldest_age(5)), (0, 0, None));
}
