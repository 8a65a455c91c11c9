//! Builders for OTLP log requests, and the sample request made with them.

use vstd::prelude::*;

use crate::otlp::proto::{
    attr_views, record_views, resource_logs_views, scope_logs_views, AnyValue, AnyView, AttrView,
    EntityRef, LogsRequest, InstrumentationScope, KeyValue, KeyValueList, LogRecord,
    RecordView, Resource, ResourceLogs, ResourceLogsView, ResourceView, ScopeLogs, ScopeLogsView,
    ScopeView, Value,
};

verus! {

/// The device that the sample request is from.
pub const SAMPLE_DEVICE_ID: &'static str = "dev-7";

/// The bits of 47.4979.
pub const SAMPLE_LAT: u64 = 0x4047bfbb2fec56d6;

/// The bits of 19.0402.
pub const SAMPLE_LON: u64 = 0x40330a4a8c154c98;

/// The bits of 105.2.
pub const SAMPLE_ALT: u64 = 0x405a4ccccccccccd;

/// The bits of 0.42.
pub const SAMPLE_USAGE: u64 = 0x3fdae147ae147ae1;

/// The bits of 51.5.
pub const SAMPLE_TEMP: u64 = 0x4049c00000000000;

/// An attribute with a value.
pub open spec fn attribute(key: Seq<char>, value: AnyView) -> AttrView {
    AttrView { key, value: Some(value), key_strindex: 0 }
}

pub fn kv(key: &str, value: Value) -> (r: KeyValue)
    ensures
        r.view() == attribute(key@, value.view()),
{
    KeyValue { key: key.to_owned(), value: Some(AnyValue { value: Some(value) }), key_strindex: 0 }
}

/// An attribute without a value.
pub fn kv_absent(key: &str) -> (r: KeyValue)
    ensures
        r.view() == (AttrView { key: key@, value: None, key_strindex: 0 }),
{
    KeyValue { key: key.to_owned(), value: None, key_strindex: 0 }
}

pub fn kv_str(key: &str, value: &str) -> (r: KeyValue)
    ensures
        r.view() == attribute(key@, AnyView::Text(value@)),
{
    kv(key, Value::StringValue(value.to_owned()))
}

pub fn kv_int(key: &str, value: i64) -> (r: KeyValue)
    ensures
        r.view() == attribute(key@, AnyView::Int(value)),
{
    kv(key, Value::IntValue(value))
}

/// An attribute whose value is the double with these bits.
pub fn kv_double(key: &str, bits: u64) -> (r: KeyValue)
    ensures
        r.view() == attribute(key@, AnyView::Double(bits)),
{
    kv(key, Value::DoubleValue(bits))
}

/// What an optional value says.
pub open spec fn body_given(body: Option<AnyValue>) -> Option<AnyView> {
    match body {
        Some(v) => Some(v.view()),
        None => None,
    }
}

/// A record with these fields and no others.
pub open spec fn record_with(
    event_name: Seq<char>,
    time: u64,
    observed: u64,
    body: Option<AnyView>,
    attributes: Seq<AttrView>,
) -> RecordView {
    RecordView {
        time_unix_nano: time,
        observed_time_unix_nano: observed,
        severity_number: 0,
        severity_text: Seq::empty(),
        body,
        attributes,
        dropped_attributes_count: 0,
        flags: 0,
        trace_id: Seq::empty(),
        span_id: Seq::empty(),
        event_name,
    }
}

pub fn record(
    event_name: &str,
    time_unix_nano: i64,
    observed_time_unix_nano: i64,
    body: Option<AnyValue>,
    attributes: Vec<KeyValue>,
) -> (r: LogRecord)
    ensures
        r.view() == record_with(
            event_name@,
            time_unix_nano as u64,
            observed_time_unix_nano as u64,
            body_given(body),
            attr_views(attributes@),
        ),
{
    let r = LogRecord {
        time_unix_nano: time_unix_nano as u64,
        observed_time_unix_nano: observed_time_unix_nano as u64,
        severity_number: 0,
        severity_text: String::new(),
        body,
        attributes,
        dropped_attributes_count: 0,
        flags: 0,
        trace_id: Vec::new(),
        span_id: Vec::new(),
        event_name: event_name.to_owned(),
    };
    proof {
        assert(r.view().severity_text =~= Seq::<char>::empty());
        assert(r.view().trace_id =~= Seq::<u8>::empty());
        assert(r.view().span_id =~= Seq::<u8>::empty());
    }
    r
}

/// A request of one resource and one scope.
pub open spec fn request_with(
    resource_attributes: Seq<AttrView>,
    scope_name: Seq<char>,
    scope_version: Seq<char>,
    scope_attributes: Seq<AttrView>,
    records: Seq<RecordView>,
) -> Seq<ResourceLogsView> {
    seq![
        ResourceLogsView {
            resource: Some(
                ResourceView {
                    attributes: resource_attributes,
                    dropped_attributes_count: 0,
                    entity_refs: Seq::empty(),
                },
            ),
            scope_logs: seq![
                ScopeLogsView {
                    scope: Some(
                        ScopeView {
                            name: scope_name,
                            version: scope_version,
                            attributes: scope_attributes,
                            dropped_attributes_count: 0,
                        },
                    ),
                    log_records: records,
                    schema_url: Seq::empty(),
                },
            ],
            schema_url: Seq::empty(),
        },
    ]
}

/// One resource, one scope, many records.
pub fn request(
    resource_attributes: Vec<KeyValue>,
    scope_name: &str,
    scope_version: &str,
    scope_attributes: Vec<KeyValue>,
    records: Vec<LogRecord>,
) -> (r: LogsRequest)
    ensures
        r.view() == request_with(
            attr_views(resource_attributes@),
            scope_name@,
            scope_version@,
            attr_views(scope_attributes@),
            record_views(records@),
        ),
{
    let scope = InstrumentationScope {
        name: scope_name.to_owned(),
        version: scope_version.to_owned(),
        attributes: scope_attributes,
        dropped_attributes_count: 0,
    };
    let scope_logs = ScopeLogs { scope: Some(scope), log_records: records, schema_url: String::new() };
    let refs: Vec<EntityRef> = Vec::new();
    let resource = Resource { attributes: resource_attributes, dropped_attributes_count: 0, entity_refs: refs };
    let mut scopes: Vec<ScopeLogs> = Vec::new();
    scopes.push(scope_logs);
    let logs = ResourceLogs { resource: Some(resource), scope_logs: scopes, schema_url: String::new() };
    let mut all: Vec<ResourceLogs> = Vec::new();
    all.push(logs);
    let r = LogsRequest { resource_logs: all };
    proof {
        let expected = request_with(
            attr_views(resource_attributes@),
            scope_name@,
            scope_version@,
            attr_views(scope_attributes@),
            record_views(records@),
        );
        assert(scope_logs.view().schema_url =~= Seq::<char>::empty());
        assert(logs.view().schema_url =~= Seq::<char>::empty());
        assert(resource.view().entity_refs =~= Seq::<EntityRef>::empty());
        assert(scope_logs.view() == expected[0].scope_logs[0]);
        assert(scope_logs_views(scopes@) =~= expected[0].scope_logs);
        assert(resource_logs_views(all@) =~= expected);
    }
    r
}

/// One attribute more.
pub fn push_attribute(attributes: &mut Vec<KeyValue>, attribute: KeyValue)
    ensures
        attr_views(final(attributes)@) == attr_views(old(attributes)@).push(attribute.view()),
{
    attributes.push(attribute);
    assert(attributes@.drop_last() =~= old(attributes)@);
}

/// One record more.
pub fn push_record(records: &mut Vec<LogRecord>, record: LogRecord)
    ensures
        record_views(final(records)@) == record_views(old(records)@).push(record.view()),
{
    records.push(record);
    assert(record_views(records@) =~= record_views(old(records)@).push(record.view()));
}

/// A value that is a list of members.
pub fn body_map(members: Vec<KeyValue>) -> (r: AnyValue)
    ensures
        r.view() == AnyView::List(attr_views(members@)),
{
    AnyValue { value: Some(Value::KvlistValue(KeyValueList { values: members })) }
}

/// The records of the sample request.
pub open spec fn sample_records(now: i64) -> Seq<RecordView> {
    seq![
        record_with(
            "gps"@,
            now as u64,
            0,
            Some(
                AnyView::List(
                    seq![
                        attribute("lat"@, AnyView::Double(SAMPLE_LAT)),
                        attribute("lon"@, AnyView::Double(SAMPLE_LON)),
                        attribute("alt_m"@, AnyView::Double(SAMPLE_ALT)),
                    ],
                ),
            ),
            seq![attribute("unit"@, AnyView::Text("wgs84"@)), attribute("sensor.index"@, AnyView::Int(0))],
        ),
        record_with(
            "cpu"@,
            (now + 1_000_000) as i64 as u64,
            0,
            Some(
                AnyView::List(
                    seq![
                        attribute("usage"@, AnyView::Double(SAMPLE_USAGE)),
                        attribute("temp_c"@, AnyView::Double(SAMPLE_TEMP)),
                    ],
                ),
            ),
            seq![attribute("unit"@, AnyView::Text("ratio"@)), attribute("cpu.core"@, AnyView::Int(0))],
        ),
        record_with(
            "heart_rate"@,
            (now + 2_000_000) as i64 as u64,
            0,
            Some(AnyView::Int(72)),
            seq![
                attribute("unit"@, AnyView::Text("bpm"@)),
                attribute("sensor.model"@, AnyView::Text("polar-h10"@)),
            ],
        ),
    ]
}

/// The sample request: three measurements of one device, a moment apart.
pub fn sample_request(device_id: &str, now_unix_nano: i64) -> (r: LogsRequest)
    requires
        now_unix_nano <= i64::MAX - 2_000_000,
    ensures
        r.view() == request_with(
            seq![
                attribute("service.name"@, AnyView::Text("fleet-agent"@)),
                attribute("device.id"@, AnyView::Text(device_id@)),
            ],
            "sensors"@,
            "0.3.1"@,
            Seq::empty(),
            sample_records(now_unix_nano),
        ),
{
    let mut resource: Vec<KeyValue> = Vec::new();
    push_attribute(&mut resource, kv_str("service.name", "fleet-agent"));
    push_attribute(&mut resource, kv_str("device.id", device_id));
    let scope: Vec<KeyValue> = Vec::new();
    let mut records: Vec<LogRecord> = Vec::new();
    push_record(&mut records, sample_gps(now_unix_nano));
    push_record(&mut records, sample_cpu(now_unix_nano + 1_000_000));
    push_record(&mut records, sample_heart_rate(now_unix_nano + 2_000_000));
    proof {
        assert(attr_views(resource@) =~= seq![
            attribute("service.name"@, AnyView::Text("fleet-agent"@)),
            attribute("device.id"@, AnyView::Text(device_id@)),
        ]);
        assert(attr_views(scope@) =~= Seq::<AttrView>::empty());
        assert(record_views(records@) =~= sample_records(now_unix_nano));
    }
    request(resource, "sensors", "0.3.1", scope, records)
}

fn sample_gps(time: i64) -> (r: LogRecord)
    ensures
        r.view() == record_with(
            "gps"@,
            time as u64,
            0,
            Some(
                AnyView::List(
                    seq![
                        attribute("lat"@, AnyView::Double(SAMPLE_LAT)),
                        attribute("lon"@, AnyView::Double(SAMPLE_LON)),
                        attribute("alt_m"@, AnyView::Double(SAMPLE_ALT)),
                    ],
                ),
            ),
            seq![attribute("unit"@, AnyView::Text("wgs84"@)), attribute("sensor.index"@, AnyView::Int(0))],
        ),
{
    let mut body: Vec<KeyValue> = Vec::new();
    push_attribute(&mut body, kv_double("lat", SAMPLE_LAT));
    push_attribute(&mut body, kv_double("lon", SAMPLE_LON));
    push_attribute(&mut body, kv_double("alt_m", SAMPLE_ALT));
    let mut attributes: Vec<KeyValue> = Vec::new();
    push_attribute(&mut attributes, kv_str("unit", "wgs84"));
    push_attribute(&mut attributes, kv_int("sensor.index", 0));
    proof {
        assert(attr_views(body@) =~= seq![
            attribute("lat"@, AnyView::Double(SAMPLE_LAT)),
            attribute("lon"@, AnyView::Double(SAMPLE_LON)),
            attribute("alt_m"@, AnyView::Double(SAMPLE_ALT)),
        ]);
        assert(attr_views(attributes@) =~= seq![
            attribute("unit"@, AnyView::Text("wgs84"@)),
            attribute("sensor.index"@, AnyView::Int(0)),
        ]);
    }
    record("gps", time, 0, Some(body_map(body)), attributes)
}

fn sample_cpu(time: i64) -> (r: LogRecord)
    ensures
        r.view() == record_with(
            "cpu"@,
            time as u64,
            0,
            Some(
                AnyView::List(
                    seq![
                        attribute("usage"@, AnyView::Double(SAMPLE_USAGE)),
                        attribute("temp_c"@, AnyView::Double(SAMPLE_TEMP)),
                    ],
                ),
            ),
            seq![attribute("unit"@, AnyView::Text("ratio"@)), attribute("cpu.core"@, AnyView::Int(0))],
        ),
{
    let mut body: Vec<KeyValue> = Vec::new();
    push_attribute(&mut body, kv_double("usage", SAMPLE_USAGE));
    push_attribute(&mut body, kv_double("temp_c", SAMPLE_TEMP));
    let mut attributes: Vec<KeyValue> = Vec::new();
    push_attribute(&mut attributes, kv_str("unit", "ratio"));
    push_attribute(&mut attributes, kv_int("cpu.core", 0));
    proof {
        assert(attr_views(body@) =~= seq![
            attribute("usage"@, AnyView::Double(SAMPLE_USAGE)),
            attribute("temp_c"@, AnyView::Double(SAMPLE_TEMP)),
        ]);
        assert(attr_views(attributes@) =~= seq![
            attribute("unit"@, AnyView::Text("ratio"@)),
            attribute("cpu.core"@, AnyView::Int(0)),
        ]);
    }
    record("cpu", time, 0, Some(body_map(body)), attributes)
}

fn sample_heart_rate(time: i64) -> (r: LogRecord)
    ensures
        r.view() == record_with(
            "heart_rate"@,
            time as u64,
            0,
            Some(AnyView::Int(72)),
            seq![
                attribute("unit"@, AnyView::Text("bpm"@)),
                attribute("sensor.model"@, AnyView::Text("polar-h10"@)),
            ],
        ),
{
    let mut attributes: Vec<KeyValue> = Vec::new();
    push_attribute(&mut attributes, kv_str("unit", "bpm"));
    push_attribute(&mut attributes, kv_str("sensor.model", "polar-h10"));
    proof {
        assert(attr_views(attributes@) =~= seq![
            attribute("unit"@, AnyView::Text("bpm"@)),
            attribute("sensor.model"@, AnyView::Text("polar-h10"@)),
        ]);
    }
    record("heart_rate", time, 0, Some(AnyValue { value: Some(Value::IntValue(72)) }), attributes)
}

} // verus!
