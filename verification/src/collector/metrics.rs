//! What the collector reports of itself, as an event like any other.
//!
//! The values are in the body: attributes identify a measurement, and these are the measurement.

use vstd::prelude::*;

use crate::otlp::convert::reason_of;
use crate::otlp::compose::{
    attribute, body_map, kv, kv_int, kv_str, push_attribute, push_record, record, record_with, request,
    request_with,
};
use crate::otlp::proto::{
    all_records, any_views, attr_views, record_views, scope_records, AnyValue, AnyView, ArrayValue, AttrView,
    LogsRequest, KeyValue, LogRecord, RecordView, ResourceLogsView, Value,
};
use crate::time::{Duration, NANOS_PER_SEC};

verus! {

/// The type of these events.
pub const EVENT_NAME: &'static str = "mp.collector.health";

pub const SERVICE_NAME: &'static str = "mp-collector";

/// The version of the collector that these events name.
pub const VERSION: &'static str = "0.1.0";

/// One reading of everything that is reported.
#[derive(Debug, Clone, Copy, PartialEq, Eq, Structural)]
pub struct Health {
    /// The kernel's bound on the clock's error.
    pub max_error_micros: i64,
    /// Nothing where the clock was not stepped since boot.
    pub since_last_step: Option<Duration>,
    pub steps: u64,
    /// Whether anything disciplines the clock.
    pub disciplined: bool,
    pub epochs: u64,
    pub resolved_exact: u64,
    pub resolved_ambiguous: u64,
    pub resolved_passthrough: u64,
    pub resolved_authoritative: u64,
    pub buffered_records: u64,
    pub oldest_buffered: Duration,
    pub forwarded_batches: u64,
    /// Batches that were dropped because the receiver took none.
    pub shed_batches: u64,
}

impl Default for Health {
    fn default() -> (r: Self)
        ensures
            r.max_error_micros == 0,
            r.since_last_step is None,
            r.steps == 0,
            !r.disciplined,
            r.epochs == 0,
            r.resolved_exact == 0,
            r.resolved_ambiguous == 0,
            r.resolved_passthrough == 0,
            r.resolved_authoritative == 0,
            r.buffered_records == 0,
            r.oldest_buffered@ == 0,
            r.forwarded_batches == 0,
            r.shed_batches == 0,
    {
        Health {
            max_error_micros: 0,
            since_last_step: None,
            steps: 0,
            disciplined: false,
            epochs: 0,
            resolved_exact: 0,
            resolved_ambiguous: 0,
            resolved_passthrough: 0,
            resolved_authoritative: 0,
            buffered_records: 0,
            oldest_buffered: Duration::zero(),
            forwarded_batches: 0,
            shed_batches: 0,
        }
    }
}

/// Whole seconds, as the events write them.
pub open spec fn whole_seconds(d: Duration) -> AnyView {
    AnyView::Int((d@ / NANOS_PER_SEC as nat) as u64 as i64)
}

/// How long ago the clock was stepped. That it was not is a state of its own: a list of one unset
/// value, which no number can be taken for.
pub open spec fn step_age(since: Option<Duration>) -> AnyView {
    match since {
        Some(d) => whole_seconds(d),
        None => AnyView::Array(seq![AnyView::Unset]),
    }
}

/// A counter as the events write it.
pub open spec fn counter(n: u64) -> AnyView {
    AnyView::Int(n as i64)
}

/// The body of an event.
pub open spec fn reported(h: Health) -> Seq<AttrView> {
    seq![
        attribute("clock.max_error_micros"@, AnyView::Int(h.max_error_micros)),
        attribute("clock.disciplined"@, AnyView::Bool(h.disciplined)),
        attribute("clock.steps"@, counter(h.steps)),
        attribute("clock.seconds_since_last_step"@, step_age(h.since_last_step)),
        attribute("clock.epochs"@, counter(h.epochs)),
        attribute("resolved.exact"@, counter(h.resolved_exact)),
        attribute("resolved.ambiguous"@, counter(h.resolved_ambiguous)),
        attribute("resolved.passthrough"@, counter(h.resolved_passthrough)),
        attribute("resolved.authoritative"@, counter(h.resolved_authoritative)),
        attribute("buffer.records"@, counter(h.buffered_records)),
        attribute("buffer.oldest_seconds"@, whole_seconds(h.oldest_buffered)),
        attribute("forwarded.batches"@, counter(h.forwarded_batches)),
        attribute("shed.batches"@, counter(h.shed_batches)),
    ]
}

/// The time of an event; a clock before the epoch has none.
pub open spec fn event_stamp(now: i64) -> i64 {
    if now < 0 {
        0
    } else {
        now
    }
}

/// The request that reports a reading.
pub open spec fn health_request(h: Health, now: i64, boot_id: Seq<char>) -> Seq<ResourceLogsView> {
    request_with(
        seq![
            attribute("service.name"@, AnyView::Text(SERVICE_NAME@)),
            attribute("boot.id"@, AnyView::Text(boot_id)),
        ],
        SERVICE_NAME@,
        VERSION@,
        Seq::empty(),
        seq![
            record_with(
                EVENT_NAME@,
                event_stamp(now) as u64,
                event_stamp(now) as u64,
                Some(AnyView::List(reported(h))),
                Seq::empty(),
            ),
        ],
    )
}

fn seconds(d: Duration) -> (r: Value)
    ensures
        r.view() == whole_seconds(d),
{
    Value::IntValue(d.as_secs() as i64)
}

fn step_value(since: Option<Duration>) -> (r: Value)
    ensures
        r.view() == step_age(since),
{
    match since {
        Some(d) => seconds(d),
        None => {
            let mut values: Vec<AnyValue> = Vec::new();
            values.push(AnyValue { value: None });
            proof {
                assert(values@.drop_last() =~= Seq::<AnyValue>::empty());
                assert(any_views(values@.drop_last()) =~= Seq::<AnyView>::empty());
                assert(values@.last().view() == AnyView::Unset);
                assert(any_views(values@) =~= seq![AnyView::Unset]);
            }
            Value::ArrayValue(ArrayValue { values })
        },
    }
}

fn report(h: Health) -> (r: Vec<KeyValue>)
    ensures
        attr_views(r@) == reported(h),
{
    let mut body: Vec<KeyValue> = Vec::new();
    push_attribute(&mut body, kv_int("clock.max_error_micros", h.max_error_micros));
    push_attribute(&mut body, kv("clock.disciplined", Value::BoolValue(h.disciplined)));
    push_attribute(&mut body, kv_int("clock.steps", h.steps as i64));
    push_attribute(&mut body, kv("clock.seconds_since_last_step", step_value(h.since_last_step)));
    push_attribute(&mut body, kv_int("clock.epochs", h.epochs as i64));
    push_attribute(&mut body, kv_int("resolved.exact", h.resolved_exact as i64));
    push_attribute(&mut body, kv_int("resolved.ambiguous", h.resolved_ambiguous as i64));
    push_attribute(&mut body, kv_int("resolved.passthrough", h.resolved_passthrough as i64));
    push_attribute(&mut body, kv_int("resolved.authoritative", h.resolved_authoritative as i64));
    push_attribute(&mut body, kv_int("buffer.records", h.buffered_records as i64));
    push_attribute(&mut body, kv("buffer.oldest_seconds", seconds(h.oldest_buffered)));
    push_attribute(&mut body, kv_int("forwarded.batches", h.forwarded_batches as i64));
    push_attribute(&mut body, kv_int("shed.batches", h.shed_batches as i64));
    assert(attr_views(body@) =~= reported(h));
    body
}

/// The request that reports a reading, at the given wall-clock time.
pub fn to_request(health: Health, now_unix_nanos: i64, boot_id: &str) -> (r: LogsRequest)
    ensures
        r.view() == health_request(health, now_unix_nanos, boot_id@),
{
    let stamp: i64 = if now_unix_nanos < 0 { 0 } else { now_unix_nanos };
    let none: Vec<KeyValue> = Vec::new();
    let event = record(EVENT_NAME, stamp, stamp, Some(body_map(report(health))), none);
    let mut records: Vec<LogRecord> = Vec::new();
    push_record(&mut records, event);
    let mut resource: Vec<KeyValue> = Vec::new();
    push_attribute(&mut resource, kv_str("service.name", SERVICE_NAME));
    push_attribute(&mut resource, kv_str("boot.id", boot_id));
    let scope: Vec<KeyValue> = Vec::new();
    proof {
        assert(attr_views(none@) =~= Seq::<AttrView>::empty());
        assert(attr_views(scope@) =~= Seq::<AttrView>::empty());
        assert(attr_views(resource@) =~= seq![
            attribute("service.name"@, AnyView::Text(SERVICE_NAME@)),
            attribute("boot.id"@, AnyView::Text(boot_id@)),
        ]);
        assert(record_views(Seq::<LogRecord>::empty()) =~= Seq::<RecordView>::empty());
        assert(record_views(records@) =~= seq![event.view()]);
    }
    request(resource, SERVICE_NAME, VERSION, scope, records)
}

/// A reading is reported as an event that a receiver takes: it has a name, and, after the epoch, a
/// time.
pub proof fn law_health_is_an_event(h: Health, now: i64, boot_id: Seq<char>)
    requires
        now > 0,
    ensures
        reason_of(health_request(h, now, boot_id)[0].scope_logs[0].log_records[0]) is None,
        all_records(health_request(h, now, boot_id)).len() == 1,
{
    let request = health_request(h, now, boot_id);
    reveal_strlit("mp.collector.health");
    assert(event_stamp(now) as u64 != 0) by (bit_vector)
        requires
            event_stamp(now) as i64 > 0,
    ;
    reveal_with_fuel(all_records, 2);
    reveal_with_fuel(scope_records, 2);
    assert(request.drop_last() =~= Seq::empty());
    assert(request.last().scope_logs.drop_last() =~= Seq::empty());
}

} // verus!
