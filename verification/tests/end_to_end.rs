use monitoring_platform::collector::buffer::{Decision, Limits};
use monitoring_platform::collector::correct::{
    Receipt, ATTR_AUTHORITATIVE, ATTR_EVENT_BOOTTIME, ATTR_RECEIPT_BOOTTIME, ATTR_RESOLUTION, NS,
};
use monitoring_platform::collector::epoch::{Epoch, EpochTable, Source, DEFAULT_TOLERANCE_NANOS};
use monitoring_platform::collector::receive::receive;
use monitoring_platform::collector::runtime::{choose_initial_table, status, ClockState, InFlight};
use monitoring_platform::collector::sync::SyncSource;
use monitoring_platform::host::Sample;
use monitoring_platform::otlp::compose::{kv, record, request};
use monitoring_platform::otlp::convert::to_measurements;
use monitoring_platform::content_id::content_id;
use monitoring_platform::otlp::proto::{LogsRequest, KeyValue, LogRecord, Value};
use monitoring_platform::time::Duration;
use monitoring_platform::wire::{body_encoding, PROTOBUF};

const SEC: i64 = 1_000_000_000;
const THREE_DAYS: i64 = 3 * 86_400 * SEC;
const WALL: i64 = 1_785_924_000 * SEC;
const STARTED: i64 = 100 * SEC;

struct Collector {
    clock: ClockState,
    flight: InFlight,
}

impl Collector {
    fn start(seed: Option<EpochTable>) -> Collector {
        let now = Sample { realtime: WALL + STARTED, boottime: STARTED };
        let (table, _) = choose_initial_table(seed, vec![], now);
        let mut clock = ClockState::new(table);
        clock.sync_source = Some(SyncSource::MaxError);
        clock.ever_synchronized = true;
        Collector { clock, flight: InFlight::new(Limits { max_records: 1_000, max_bytes: 1 << 20 }) }
    }

    fn post(&mut self, batch: LogsRequest, received: i64) {
        let receipt = Receipt { sender_started: 10 * SEC, received, tolerance: DEFAULT_TOLERANCE_NANOS };
        let pending = receive(batch, 100, &self.clock.table, receipt);
        assert!(self.flight.received(pending).is_empty());
        let decision = self.flight.decision(&self.clock, received, Duration::from_secs(300));
        assert_eq!(decision, Some(Decision::Flush));
        self.flight.correct_into_outbox(&self.clock.table, self.clock.sync_source, Decision::Flush, vec![], 100);
    }

    fn delivered(&mut self) -> LogRecord {
        let log = copy(&self.flight.front().unwrap().resource_logs[0].scope_logs[0].log_records[0]);
        self.flight.delivered();
        log
    }
}

fn copy(log: &LogRecord) -> LogRecord {
    LogRecord {
        time_unix_nano: log.time_unix_nano,
        observed_time_unix_nano: log.observed_time_unix_nano,
        event_name: log.event_name.clone(),
        attributes: log.attributes.iter().map(copy_attribute).collect(),
        ..Default::default()
    }
}

fn copy_attribute(attribute: &KeyValue) -> KeyValue {
    match attribute.value.as_ref().unwrap().value.as_ref().unwrap() {
        Value::StringValue(text) => kv(&attribute.key, Value::StringValue(text.clone())),
        Value::BoolValue(b) => kv(&attribute.key, Value::BoolValue(*b)),
        Value::IntValue(n) => kv(&attribute.key, Value::IntValue(*n)),
        other => panic!("unexpected attribute {other:?}"),
    }
}

fn batch(event_name: &str, time: i64, attributes: Vec<KeyValue>) -> LogsRequest {
    request(vec![], "", "", vec![], vec![record(event_name, time, 0, None, attributes)])
}

fn attr<'a>(record: &'a LogRecord, key: &str) -> Option<&'a Value> {
    record.attributes.iter().rev().find(|kv| kv.key == key)?.value.as_ref()?.value.as_ref()
}

fn clock_attrs(record: &LogRecord) -> Vec<&str> {
    record.attributes.iter().map(|kv| kv.key.as_str()).filter(|k| k.starts_with(NS)).collect()
}

#[test]
fn a_record_from_a_three_day_stale_clock_arrives_corrected() {
    let stale_offset = WALL - THREE_DAYS;
    let seed = EpochTable::new(Epoch { boot_start: 0, offset: stale_offset, source: Source::Journal });
    let mut collector = Collector::start(Some(seed));

    let stamped = STARTED - SEC + stale_offset;
    collector.post(batch("cpu", stamped, vec![]), STARTED + SEC);

    let out = collector.delivered();
    assert!(clock_attrs(&out).is_empty(), "expected no clock attributes, got {:?}", clock_attrs(&out));
    assert_eq!(out.time_unix_nano as i64 - stamped, THREE_DAYS, "the correction is the step");
}

#[test]
fn a_correct_clock_round_trips_the_timestamp_exactly() {
    let mut collector = Collector::start(None);
    let stamped = WALL + STARTED + 7;
    collector.post(batch("exact_round_trip", stamped, vec![]), STARTED + SEC);

    let out = collector.delivered();
    assert!(clock_attrs(&out).is_empty(), "expected no clock attributes, got {:?}", clock_attrs(&out));
    assert_eq!(
        out.time_unix_nano as i64, stamped,
        "resolve-then-project must be the identity when the offset has not moved"
    );
}

#[test]
fn a_foreign_timestamp_passes_through_untouched() {
    let mut collector = Collector::start(None);
    let historical = WALL - 400 * 86_400 * SEC;
    collector.post(batch("historical", historical, vec![]), STARTED + SEC);

    let out = collector.delivered();
    assert_eq!(out.time_unix_nano as i64, historical, "a foreign frame was rewritten");
    assert_eq!(attr(&out, ATTR_RESOLUTION), Some(&Value::StringValue("passthrough".into())));
    assert_eq!(clock_attrs(&out), vec!["mp.clock.resolution"], "and nothing besides");
}

#[test]
fn an_authoritative_record_is_not_touched() {
    let mut collector = Collector::start(None);
    let stamped = WALL + STARTED;
    let hint = vec![kv(ATTR_AUTHORITATIVE, Value::BoolValue(true))];
    collector.post(batch("authoritative", stamped, hint), STARTED + SEC);

    let out = collector.delivered();
    assert_eq!(out.time_unix_nano as i64, stamped);
    assert_eq!(attr(&out, ATTR_RESOLUTION), Some(&Value::StringValue("authoritative".into())));
    assert!(attr(&out, ATTR_AUTHORITATIVE).is_none(), "the hint must not reach the wire");
}

#[test]
fn no_internal_attribute_reaches_the_receiver() {
    let mut collector = Collector::start(None);
    collector.post(batch("clean", WALL + STARTED, vec![]), STARTED + SEC);

    let out = collector.delivered();
    for internal in [ATTR_EVENT_BOOTTIME, ATTR_RECEIPT_BOOTTIME] {
        assert!(attr(&out, internal).is_none(), "{internal} escaped to the receiver: {:?}", out.attributes);
    }
}

#[test]
fn the_same_batch_delivered_twice_is_identical() {
    let mut collector = Collector::start(None);
    let mut both = Vec::new();
    for received in [STARTED + SEC, STARTED + 2 * SEC] {
        collector.post(batch("idempotent", WALL + STARTED, vec![]), received);
        both.push(collector.delivered());
    }

    assert_eq!(both[0].time_unix_nano, both[1].time_unix_nano, "event_time drifted between deliveries");
    assert_eq!(both[0].attributes, both[1].attributes, "an attribute drifted between deliveries");
    assert_eq!(both[0].body, both[1].body);
    assert_ne!(
        both[0].observed_time_unix_nano, both[1].observed_time_unix_nano,
        "the receipt times should differ, or this test is not comparing two real deliveries"
    );
    let ids: Vec<_> = both
        .into_iter()
        .map(|log| content_id(&to_measurements(&request(vec![], "", "", vec![], vec![log]), 1).0[0]))
        .collect();
    assert_eq!(ids[0], ids[1], "the receiver would store both");
}

#[test]
fn it_reports_its_clock_state() {
    let collector = Collector::start(None);
    let report = status(&collector.clock, collector.flight.stats(STARTED));
    assert!(report.synchronized);
    assert_eq!(report.sync_source.map(|s| s.label()), Some("maxerror"));
    assert_eq!((report.epochs, report.steps, report.buffered_records), (1, 0, 0));
}

#[test]
fn it_refuses_what_the_receiver_refuses() {
    let wrong_type = body_encoding(Some(b"application/json"), None).unwrap_err();
    assert_eq!(wrong_type.status, 415, "wrong content type must be refused");
    let wrong_encoding = body_encoding(Some(PROTOBUF.as_bytes()), Some(b"zstd")).unwrap_err();
    assert_eq!(wrong_encoding.status, 415, "unknown encoding must be refused");
}

#[test]
fn a_batch_survives_an_unreachable_receiver() {
    let mut collector = Collector::start(None);
    collector.post(batch("late", WALL + STARTED, vec![]), STARTED + SEC);

    let (grace, retry_max) = (Duration::from_millis(100), Duration::from_secs(10));
    let mut now = STARTED + 2 * SEC;
    for _ in 0..5 {
        assert!(collector.flight.is_due(now));
        let (_, wait) = collector.flight.failed(now, grace, retry_max);
        assert!(!collector.flight.is_due(now));
        now += wait.as_nanos() as i64;
    }
    assert!(collector.flight.is_due(now));
    assert_eq!(collector.delivered().event_name, "late");
    assert!(collector.flight.front().is_none());
}
