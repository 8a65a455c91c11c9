//! A request's records as measurements.

use vstd::prelude::*;

use crate::json::{Json, Object, Value};
use crate::model::{Measurement, MeasurementView, Rejections};
use crate::otlp::anyvalue::{
    any_value_to_json, json_of, json_of_attr, opt_any_value_to_json,
};
use crate::otlp::proto::{
    all_records, attr_views, record_views, resource_logs_views, scope_logs_views, scope_records,
    AttrView, LogsRequest, InstrumentationScope, KeyValue, LogRecord, RecordView,
    ResourceLogs, ResourceLogsView, ScopeLogs, ScopeLogsView, ScopeView,
};
use crate::text::{begins_with, joined};

verus! {

pub const RESOURCE_PREFIX: &'static str = "resource.attributes.";

pub const SCOPE_PREFIX: &'static str = "scope.attributes.";

pub const RECORD_PREFIX: &'static str = "record.attributes.";

pub const SCOPE_NAME: &'static str = "scope.name";

pub const SCOPE_VERSION: &'static str = "scope.version";

/// Why a record does not become a measurement.
#[derive(Debug, Clone, Copy, PartialEq, Eq, Structural)]
pub enum Reason {
    MissingEventName,
    MissingTimestamp,
}

impl Reason {
    pub fn as_str(&self) -> (r: &'static str)
        ensures
            r@ == match self {
                Reason::MissingEventName => "event_name is empty; only OTLP Events are accepted"@,
                Reason::MissingTimestamp => "time_unix_nano and observed_time_unix_nano are both zero"@,
            },
    {
        match self {
            Reason::MissingEventName => "event_name is empty; only OTLP Events are accepted",
            Reason::MissingTimestamp => "time_unix_nano and observed_time_unix_nano are both zero",
        }
    }
}

/// `into` with each of the attributes under its prefixed key; where a key comes twice, the last one
/// stays.
pub open spec fn with_prefixed(into: Map<Seq<char>, Value>, prefix: Seq<char>, attrs: Seq<AttrView>) -> Map<
    Seq<char>,
    Value,
>
    decreases attrs.len(),
{
    if attrs.len() == 0 {
        into
    } else {
        with_prefixed(into, prefix, attrs.drop_last()).insert(
            prefix + attrs.last().key,
            json_of_attr(attrs.last()),
        )
    }
}

/// Inserts each of the attributes under its prefixed key.
fn insert_prefixed(into: &mut Object, prefix: &str, attrs: &Vec<KeyValue>)
    ensures
        final(into).view() == with_prefixed(old(into).view(), prefix@, attr_views(attrs@)),
{
    let mut i: usize = 0;
    assert(attrs@.take(0) =~= Seq::<KeyValue>::empty());
    while i < attrs.len()
        invariant
            i <= attrs@.len(),
            into.view() == with_prefixed(old(into).view(), prefix@, attr_views(attrs@.take(i as int))),
        decreases attrs.len() - i,
    {
        let key = joined(prefix, attrs[i].key.as_str());
        let value = match &attrs[i].value {
            None => opt_any_value_to_json(None),
            Some(v) => opt_any_value_to_json(Some(v)),
        };
        into.insert(key, value);
        proof {
            let front = attrs@.take(i as int);
            let all = attrs@.take(i + 1);
            assert(all.drop_last() =~= front);
            assert(attr_views(all).drop_last() =~= attr_views(front));
            assert(json_of_attr(attrs@[i as int].view()) == value.view());
        }
        i += 1;
    }
    assert(attrs@.take(i as int) =~= attrs@);
}

/// The attributes every record of a resource shares.
pub open spec fn resource_attributes(logs: ResourceLogsView) -> Map<Seq<char>, Value> {
    match logs.resource {
        None => Map::empty(),
        Some(resource) => with_prefixed(Map::empty(), RESOURCE_PREFIX@, resource.attributes),
    }
}

/// The attributes with those of a scope: its name and its version where they are not empty, and its
/// own.
pub open spec fn scope_attributes(base: Map<Seq<char>, Value>, scope: Option<ScopeView>) -> Map<Seq<char>, Value> {
    match scope {
        None => base,
        Some(scope) => {
            let named = if scope.name.len() > 0 {
                base.insert(SCOPE_NAME@, Value::Str(scope.name))
            } else {
                base
            };
            let versioned = if scope.version.len() > 0 {
                named.insert(SCOPE_VERSION@, Value::Str(scope.version))
            } else {
                named
            };
            with_prefixed(versioned, SCOPE_PREFIX@, scope.attributes)
        },
    }
}

/// The time of a record: when it happened, else when it was observed, and nothing else.
pub open spec fn event_time_of(record: RecordView) -> Option<i64> {
    if record.time_unix_nano != 0 {
        Some(record.time_unix_nano as i64)
    } else if record.observed_time_unix_nano != 0 {
        Some(record.observed_time_unix_nano as i64)
    } else {
        None
    }
}

fn event_time(record: &LogRecord) -> (r: Option<i64>)
    ensures
        r == event_time_of(record.view()),
{
    if record.time_unix_nano != 0 {
        Some(record.time_unix_nano as i64)
    } else if record.observed_time_unix_nano != 0 {
        Some(record.observed_time_unix_nano as i64)
    } else {
        None
    }
}

/// Why a record is skipped; the name is asked for first.
pub open spec fn reason_of(record: RecordView) -> Option<Reason> {
    if record.event_name.len() == 0 {
        Some(Reason::MissingEventName)
    } else if event_time_of(record) is None {
        Some(Reason::MissingTimestamp)
    } else {
        None
    }
}

/// The measurement that a record with a name and a time is.
pub open spec fn measurement_of(
    record: RecordView,
    base: Map<Seq<char>, Value>,
    processed_time: i64,
) -> MeasurementView {
    MeasurementView {
        event_time: event_time_of(record)->0,
        processed_time,
        kind: record.event_name,
        body: match record.body {
            None => None,
            Some(v) => Some(json_of(v)),
        },
        attributes: with_prefixed(base, RECORD_PREFIX@, record.attributes),
    }
}

fn convert_record(record: &LogRecord, base: &Object, processed_time: i64) -> (r: Result<Measurement, Reason>)
    ensures
        match reason_of(record.view()) {
            Some(reason) => r == Err::<Measurement, Reason>(reason),
            None => r matches Ok(m) && m.view() == measurement_of(record.view(), base.view(), processed_time),
        },
{
    if record.event_name.as_str().unicode_len() == 0 {
        return Err(Reason::MissingEventName);
    }
    match event_time(record) {
        None => Err(Reason::MissingTimestamp),
        Some(time) => {
            let mut attributes = base.duplicate();
            insert_prefixed(&mut attributes, RECORD_PREFIX, &record.attributes);
            let body = match &record.body {
                None => None,
                Some(v) => Some(any_value_to_json(v)),
            };
            Ok(Measurement { event_time: time, processed_time, kind: record.event_name.clone(), body, attributes })
        },
    }
}

/// The measurements of some records that share their attributes.
pub open spec fn record_measurements(
    records: Seq<RecordView>,
    base: Map<Seq<char>, Value>,
    processed_time: i64,
) -> Seq<MeasurementView>
    decreases records.len(),
{
    if records.len() == 0 {
        Seq::empty()
    } else {
        let front = record_measurements(records.drop_last(), base, processed_time);
        if reason_of(records.last()) is None {
            front.push(measurement_of(records.last(), base, processed_time))
        } else {
            front
        }
    }
}

/// The measurements of the scopes of one resource, in order.
pub open spec fn scope_measurements(
    scopes: Seq<ScopeLogsView>,
    base: Map<Seq<char>, Value>,
    processed_time: i64,
) -> Seq<MeasurementView>
    decreases scopes.len(),
{
    if scopes.len() == 0 {
        Seq::empty()
    } else {
        let last = scopes.last();
        scope_measurements(scopes.drop_last(), base, processed_time) + record_measurements(
            last.log_records,
            scope_attributes(base, last.scope),
            processed_time,
        )
    }
}

/// The measurements of a request, in order.
pub open spec fn request_measurements(request: Seq<ResourceLogsView>, processed_time: i64) -> Seq<MeasurementView>
    decreases request.len(),
{
    if request.len() == 0 {
        Seq::empty()
    } else {
        let last = request.last();
        request_measurements(request.drop_last(), processed_time) + scope_measurements(
            last.scope_logs,
            resource_attributes(last),
            processed_time,
        )
    }
}

/// How many of the records are skipped for this reason.
pub open spec fn skipped(records: Seq<RecordView>, reason: Reason) -> nat
    decreases records.len(),
{
    if records.len() == 0 {
        0
    } else {
        skipped(records.drop_last(), reason) + if reason_of(records.last()) == Some(reason) {
            1nat
        } else {
            0nat
        }
    }
}

proof fn lemma_skipped(a: Seq<RecordView>, b: Seq<RecordView>, reason: Reason)
    ensures
        skipped(a + b, reason) == skipped(a, reason) + skipped(b, reason),
        skipped(b, reason) <= b.len(),
    decreases b.len(),
{
    if b.len() == 0 {
        assert(a + b =~= a);
    } else {
        lemma_skipped(a, b.drop_last(), reason);
        assert((a + b).drop_last() =~= a + b.drop_last());
        assert((a + b).last() == b.last());
    }
}

/// Whether these are the counts of what is skipped.
pub open spec fn counts(rejections: Rejections, records: Seq<RecordView>) -> bool {
    &&& rejections.missing_event_name == skipped(records, Reason::MissingEventName)
    &&& rejections.missing_timestamp == skipped(records, Reason::MissingTimestamp)
}

/// What measurements say.
pub open spec fn measurement_views(s: Seq<Measurement>) -> Seq<MeasurementView> {
    s.map_values(|m: Measurement| m.view())
}

proof fn lemma_records_bound(s: Seq<ResourceLogsView>, i: int)
    requires
        0 <= i <= s.len(),
    ensures
        all_records(s.take(i)).len() <= all_records(s).len(),
        i < s.len() ==> all_records(s.take(i)).len() + scope_records(s[i].scope_logs).len() <= all_records(s).len(),
    decreases s.len() - i,
{
    if i == s.len() {
        assert(s.take(i) =~= s);
    } else {
        lemma_records_bound(s, i + 1);
        assert(s.take(i + 1).drop_last() =~= s.take(i));
    }
}

proof fn lemma_scope_records_bound(s: Seq<ScopeLogsView>, i: int)
    requires
        0 <= i <= s.len(),
    ensures
        scope_records(s.take(i)).len() <= scope_records(s).len(),
        i < s.len() ==> scope_records(s.take(i)).len() + s[i].log_records.len() <= scope_records(s).len(),
    decreases s.len() - i,
{
    if i == s.len() {
        assert(s.take(i) =~= s);
    } else {
        lemma_scope_records_bound(s, i + 1);
        assert(s.take(i + 1).drop_last() =~= s.take(i));
    }
}

/// Converts the records of one scope, behind what is already there.
fn convert_records(
    records: &Vec<LogRecord>,
    base: &Object,
    processed_time: i64,
    out: &mut Vec<Measurement>,
    rejections: &mut Rejections,
    seen: Ghost<Seq<RecordView>>,
)
    requires
        counts(*old(rejections), seen@),
        seen@.len() + records@.len() <= i64::MAX,
    ensures
        measurement_views(final(out)@) == measurement_views(old(out)@) + record_measurements(
            record_views(records@),
            base.view(),
            processed_time,
        ),
        counts(*final(rejections), seen@ + record_views(records@)),
{
    let mut i: usize = 0;
    let ghost before = measurement_views(out@);
    proof {
        assert(record_views(records@.take(0)) =~= Seq::<RecordView>::empty());
        assert(seen@ + Seq::<RecordView>::empty() =~= seen@);
        assert(before + Seq::<MeasurementView>::empty() =~= before);
    }
    while i < records.len()
        invariant
            i <= records@.len(),
            seen@.len() + records@.len() <= i64::MAX,
            before == measurement_views(old(out)@),
            measurement_views(out@) == before + record_measurements(
                record_views(records@.take(i as int)),
                base.view(),
                processed_time,
            ),
            counts(*rejections, seen@ + record_views(records@.take(i as int))),
        decreases records.len() - i,
    {
        let ghost front = record_views(records@.take(i as int));
        let ghost all = record_views(records@.take(i + 1));
        let ghost now = measurement_views(out@);
        proof {
            assert(all.drop_last() =~= front);
            assert(all.last() == records@[i as int].view());
            assert((seen@ + all).drop_last() =~= seen@ + front);
            assert((seen@ + all).last() == records@[i as int].view());
            lemma_skipped(Seq::empty(), seen@ + front, Reason::MissingEventName);
            lemma_skipped(Seq::empty(), seen@ + front, Reason::MissingTimestamp);
        }
        match convert_record(&records[i], base, processed_time) {
            Ok(m) => {
                out.push(m);
                proof {
                    assert(measurement_views(out@) =~= now.push(m.view()));
                    assert(measurement_views(out@) =~= before + record_measurements(
                        all,
                        base.view(),
                        processed_time,
                    ));
                }
            },
            Err(reason) => match reason {
                Reason::MissingEventName => {
                    rejections.missing_event_name = rejections.missing_event_name + 1;
                },
                Reason::MissingTimestamp => {
                    rejections.missing_timestamp = rejections.missing_timestamp + 1;
                },
            },
        }
        i += 1;
    }
    assert(records@.take(i as int) =~= records@);
}

fn with_scope(base: &Object, scope: &Option<InstrumentationScope>) -> (r: Object)
    ensures
        r.view() == scope_attributes(
            base.view(),
            match scope {
                None => None,
                Some(s) => Some(s.view()),
            },
        ),
{
    let mut attributes = base.duplicate();
    match scope {
        None => {},
        Some(scope) => {
            if scope.name.as_str().unicode_len() > 0 {
                attributes.insert(SCOPE_NAME.to_owned(), Json::Str(scope.name.clone()));
            }
            if scope.version.as_str().unicode_len() > 0 {
                attributes.insert(SCOPE_VERSION.to_owned(), Json::Str(scope.version.clone()));
            }
            insert_prefixed(&mut attributes, SCOPE_PREFIX, &scope.attributes);
        },
    }
    attributes
}

/// Converts the scopes of one resource, behind what is already there.
fn convert_scopes(
    scopes: &Vec<ScopeLogs>,
    base: &Object,
    processed_time: i64,
    out: &mut Vec<Measurement>,
    rejections: &mut Rejections,
    seen: Ghost<Seq<RecordView>>,
)
    requires
        counts(*old(rejections), seen@),
        seen@.len() + scope_records(scope_logs_views(scopes@)).len() <= i64::MAX,
    ensures
        measurement_views(final(out)@) == measurement_views(old(out)@) + scope_measurements(
            scope_logs_views(scopes@),
            base.view(),
            processed_time,
        ),
        counts(*final(rejections), seen@ + scope_records(scope_logs_views(scopes@))),
{
    let mut i: usize = 0;
    let ghost before = measurement_views(out@);
    let ghost views = scope_logs_views(scopes@);
    proof {
        assert(views.take(0) =~= Seq::<ScopeLogsView>::empty());
        assert(seen@ + Seq::<RecordView>::empty() =~= seen@);
        assert(before + Seq::<MeasurementView>::empty() =~= before);
    }
    while i < scopes.len()
        invariant
            i <= scopes@.len(),
            views == scope_logs_views(scopes@),
            seen@.len() + scope_records(views).len() <= i64::MAX,
            before == measurement_views(old(out)@),
            measurement_views(out@) == before + scope_measurements(views.take(i as int), base.view(), processed_time),
            counts(*rejections, seen@ + scope_records(views.take(i as int))),
        decreases scopes.len() - i,
    {
        let ghost front = views.take(i as int);
        let ghost all = views.take(i + 1);
        let ghost so_far = seen@ + scope_records(front);
        proof {
            assert(all.drop_last() =~= front);
            assert(all.last() == scopes@[i as int].view());
            assert(views[i as int] == scopes@[i as int].view());
            lemma_scope_records_bound(views, i as int);
        }
        let attributes = with_scope(base, &scopes[i].scope);
        convert_records(&scopes[i].log_records, &attributes, processed_time, out, rejections, Ghost(so_far));
        proof {
            let added = record_views(scopes@[i as int].log_records@);
            assert(so_far + added =~= seen@ + scope_records(all));
            let m = record_measurements(added, attributes.view(), processed_time);
            let earlier = scope_measurements(front, base.view(), processed_time);
            assert(before + earlier + m =~= before + (earlier + m));
        }
        i += 1;
    }
    assert(views.take(i as int) =~= views);
}

fn shared_attributes(logs: &ResourceLogs) -> (r: Object)
    ensures
        r.view() == resource_attributes(logs.view()),
{
    let mut attributes = Object::new();
    match &logs.resource {
        None => {},
        Some(resource) => insert_prefixed(&mut attributes, RESOURCE_PREFIX, &resource.attributes),
    }
    attributes
}

/// Converts every record that has a name and a time, in order, and counts the others. All of them
/// get the same processed time, so that a delivery can be told by it.
pub fn to_measurements(request: &LogsRequest, processed_time: i64) -> (r: (Vec<Measurement>, Rejections))
    requires
        all_records(request.view()).len() <= i64::MAX,
    ensures
        measurement_views(r.0@) == request_measurements(request.view(), processed_time),
        counts(r.1, all_records(request.view())),
{
    let mut out: Vec<Measurement> = Vec::new();
    let mut rejections = Rejections::default();
    let mut i: usize = 0;
    let ghost views = resource_logs_views(request.resource_logs@);
    proof {
        assert(views.take(0) =~= Seq::<ResourceLogsView>::empty());
        assert(measurement_views(out@) =~= Seq::<MeasurementView>::empty());
    }
    while i < request.resource_logs.len()
        invariant
            i <= request.resource_logs@.len(),
            views == resource_logs_views(request.resource_logs@),
            all_records(views).len() <= i64::MAX,
            measurement_views(out@) == request_measurements(views.take(i as int), processed_time),
            counts(rejections, all_records(views.take(i as int))),
        decreases request.resource_logs.len() - i,
    {
        let logs = &request.resource_logs[i];
        let ghost front = views.take(i as int);
        proof {
            assert(views.take(i + 1).drop_last() =~= front);
            assert(views.take(i + 1).last() == logs.view());
            assert(views[i as int] == logs.view());
            lemma_records_bound(views, i as int);
        }
        let attributes = shared_attributes(logs);
        convert_scopes(
            &logs.scope_logs,
            &attributes,
            processed_time,
            &mut out,
            &mut rejections,
            Ghost(all_records(front)),
        );
        i += 1;
    }
    assert(views.take(i as int) =~= views);
    (out, rejections)
}

proof fn lemma_records_accounted(records: Seq<RecordView>, base: Map<Seq<char>, Value>, processed_time: i64)
    ensures
        record_measurements(records, base, processed_time).len() + skipped(records, Reason::MissingEventName)
            + skipped(records, Reason::MissingTimestamp) == records.len(),
    decreases records.len(),
{
    if records.len() > 0 {
        lemma_records_accounted(records.drop_last(), base, processed_time);
    }
}

proof fn lemma_scopes_accounted(scopes: Seq<ScopeLogsView>, base: Map<Seq<char>, Value>, processed_time: i64)
    ensures
        scope_measurements(scopes, base, processed_time).len() + skipped(
            scope_records(scopes),
            Reason::MissingEventName,
        ) + skipped(scope_records(scopes), Reason::MissingTimestamp) == scope_records(scopes).len(),
    decreases scopes.len(),
{
    if scopes.len() > 0 {
        let last = scopes.last();
        let front = scope_records(scopes.drop_last());
        lemma_scopes_accounted(scopes.drop_last(), base, processed_time);
        lemma_records_accounted(last.log_records, scope_attributes(base, last.scope), processed_time);
        lemma_skipped(front, last.log_records, Reason::MissingEventName);
        lemma_skipped(front, last.log_records, Reason::MissingTimestamp);
    }
}

/// Every record of a request becomes one measurement or is counted once: none is lost and none is
/// counted twice.
pub proof fn law_every_record_is_accounted_for(request: Seq<ResourceLogsView>, processed_time: i64)
    ensures
        request_measurements(request, processed_time).len() + skipped(
            all_records(request),
            Reason::MissingEventName,
        ) + skipped(all_records(request), Reason::MissingTimestamp) == all_records(request).len(),
    decreases request.len(),
{
    if request.len() > 0 {
        let last = request.last();
        let front = all_records(request.drop_last());
        law_every_record_is_accounted_for(request.drop_last(), processed_time);
        lemma_scopes_accounted(last.scope_logs, resource_attributes(last), processed_time);
        lemma_skipped(front, scope_records(last.scope_logs), Reason::MissingEventName);
        lemma_skipped(front, scope_records(last.scope_logs), Reason::MissingTimestamp);
    }
}

/// The member of a map under a key, if there is one.
pub open spec fn member(m: Map<Seq<char>, Value>, key: Seq<char>) -> Option<Value> {
    if m.contains_key(key) {
        Some(m[key])
    } else {
        None
    }
}

/// The value of the last attribute with this key, if there is one.
pub open spec fn last_value(attrs: Seq<AttrView>, key: Seq<char>) -> Option<Value>
    decreases attrs.len(),
{
    if attrs.len() == 0 {
        None
    } else if attrs.last().key == key {
        Some(json_of_attr(attrs.last()))
    } else {
        last_value(attrs.drop_last(), key)
    }
}

/// Attributes go under their prefix, each to its own key, and touch nothing else.
proof fn lemma_with_prefixed(into: Map<Seq<char>, Value>, prefix: Seq<char>, attrs: Seq<AttrView>, key: Seq<char>)
    ensures
        member(with_prefixed(into, prefix, attrs), prefix + key) == match last_value(attrs, key) {
            Some(v) => Some(v),
            None => member(into, prefix + key),
        },
        !begins_with(key, prefix) ==> member(with_prefixed(into, prefix, attrs), key) == member(into, key),
    decreases attrs.len(),
{
    if attrs.len() > 0 {
        let front = with_prefixed(into, prefix, attrs.drop_last());
        let own = prefix + attrs.last().key;
        lemma_with_prefixed(into, prefix, attrs.drop_last(), key);
        assert(own.take(prefix.len() as int) =~= prefix);
        assert((prefix + key).skip(prefix.len() as int) =~= key);
        assert(own.skip(prefix.len() as int) =~= attrs.last().key);
        assert(begins_with(own, prefix));
    }
}

/// The attributes of a record under a resource and a scope.
pub open spec fn merged_attributes(resource: Seq<AttrView>, scope: ScopeView, record: Seq<AttrView>) -> Map<
    Seq<char>,
    Value,
> {
    with_prefixed(
        scope_attributes(with_prefixed(Map::empty(), RESOURCE_PREFIX@, resource), Some(scope)),
        RECORD_PREFIX@,
        record,
    )
}

/// The prefixes tell the origins apart, whatever a device calls its attributes.
proof fn lemma_prefixes_differ(key: Seq<char>)
    ensures
        !begins_with(RESOURCE_PREFIX@ + key, SCOPE_PREFIX@),
        !begins_with(RESOURCE_PREFIX@ + key, RECORD_PREFIX@),
        !begins_with(SCOPE_PREFIX@ + key, RESOURCE_PREFIX@),
        !begins_with(SCOPE_PREFIX@ + key, RECORD_PREFIX@),
        !begins_with(RECORD_PREFIX@ + key, RESOURCE_PREFIX@),
        !begins_with(RECORD_PREFIX@ + key, SCOPE_PREFIX@),
        !begins_with(SCOPE_NAME@, RESOURCE_PREFIX@),
        !begins_with(SCOPE_NAME@, SCOPE_PREFIX@),
        !begins_with(SCOPE_NAME@, RECORD_PREFIX@),
        !begins_with(SCOPE_VERSION@, RESOURCE_PREFIX@),
        !begins_with(SCOPE_VERSION@, SCOPE_PREFIX@),
        !begins_with(SCOPE_VERSION@, RECORD_PREFIX@),
        SCOPE_NAME@ != SCOPE_VERSION@,
        RESOURCE_PREFIX@ + key != SCOPE_NAME@,
        RESOURCE_PREFIX@ + key != SCOPE_VERSION@,
        SCOPE_PREFIX@ + key != SCOPE_NAME@,
        SCOPE_PREFIX@ + key != SCOPE_VERSION@,
        RECORD_PREFIX@ + key != SCOPE_NAME@,
        RECORD_PREFIX@ + key != SCOPE_VERSION@,
{
    reveal_strlit("resource.attributes.");
    reveal_strlit("scope.attributes.");
    reveal_strlit("record.attributes.");
    reveal_strlit("scope.name");
    reveal_strlit("scope.version");
    let a = RESOURCE_PREFIX@ + key;
    let b = SCOPE_PREFIX@ + key;
    let c = RECORD_PREFIX@ + key;
    assert(a[0] == 'r' && a[2] == 's' && b[0] == 's' && b[6] == 'a' && c[0] == 'r' && c[2] == 'c');
    assert(SCOPE_NAME@[6] == 'n' && SCOPE_VERSION@[6] == 'v');
    assert(begins_with(a, RECORD_PREFIX@) ==> a[2] == RECORD_PREFIX@[2]) by {
        assert(begins_with(a, RECORD_PREFIX@) ==> a.take(18)[2] == RECORD_PREFIX@[2]);
    }
    assert(begins_with(c, RESOURCE_PREFIX@) ==> c.take(20)[2] == RESOURCE_PREFIX@[2]);
    assert(begins_with(a, SCOPE_PREFIX@) ==> a.take(17)[0] == SCOPE_PREFIX@[0]);
    assert(begins_with(c, SCOPE_PREFIX@) ==> c.take(17)[0] == SCOPE_PREFIX@[0]);
    assert(begins_with(b, RESOURCE_PREFIX@) ==> b.take(20)[0] == RESOURCE_PREFIX@[0]);
    assert(begins_with(b, RECORD_PREFIX@) ==> b.take(18)[0] == RECORD_PREFIX@[0]);
}

/// Every attribute survives under its own key, whatever the others are called: what a device names
/// `name`, or `attributes`, never hides the name of a scope nor an attribute of another level.
pub proof fn law_attributes_never_collide(
    resource: Seq<AttrView>,
    scope: ScopeView,
    record: Seq<AttrView>,
    key: Seq<char>,
)
    ensures
        ({
            let merged = merged_attributes(resource, scope, record);
            &&& member(merged, RESOURCE_PREFIX@ + key) == last_value(resource, key)
            &&& member(merged, SCOPE_PREFIX@ + key) == last_value(scope.attributes, key)
            &&& member(merged, RECORD_PREFIX@ + key) == last_value(record, key)
            &&& member(merged, SCOPE_NAME@) == if scope.name.len() > 0 {
                Some(Value::Str(scope.name))
            } else {
                None
            }
            &&& member(merged, SCOPE_VERSION@) == if scope.version.len() > 0 {
                Some(Value::Str(scope.version))
            } else {
                None
            }
            &&& merged.contains_key(key) ==> begins_with(key, RESOURCE_PREFIX@) || begins_with(key, SCOPE_PREFIX@)
                || begins_with(key, RECORD_PREFIX@) || key == SCOPE_NAME@ || key == SCOPE_VERSION@
        }),
{
    let first = with_prefixed(Map::empty(), RESOURCE_PREFIX@, resource);
    let named = if scope.name.len() > 0 {
        first.insert(SCOPE_NAME@, Value::Str(scope.name))
    } else {
        first
    };
    let versioned = if scope.version.len() > 0 {
        named.insert(SCOPE_VERSION@, Value::Str(scope.version))
    } else {
        named
    };
    let second = with_prefixed(versioned, SCOPE_PREFIX@, scope.attributes);
    lemma_prefixes_differ(key);
    lemma_member_path(first, versioned, second, resource, scope, record, RESOURCE_PREFIX@ + key);
    lemma_member_path(first, versioned, second, resource, scope, record, SCOPE_PREFIX@ + key);
    lemma_member_path(first, versioned, second, resource, scope, record, RECORD_PREFIX@ + key);
    lemma_member_path(first, versioned, second, resource, scope, record, SCOPE_NAME@);
    lemma_member_path(first, versioned, second, resource, scope, record, SCOPE_VERSION@);
    lemma_member_path(first, versioned, second, resource, scope, record, key);
    lemma_with_prefixed(Map::empty(), RESOURCE_PREFIX@, resource, key);
    lemma_with_prefixed(versioned, SCOPE_PREFIX@, scope.attributes, key);
    lemma_with_prefixed(second, RECORD_PREFIX@, record, key);
}

/// What each step of merging leaves alone.
proof fn lemma_member_path(
    first: Map<Seq<char>, Value>,
    versioned: Map<Seq<char>, Value>,
    second: Map<Seq<char>, Value>,
    resource: Seq<AttrView>,
    scope: ScopeView,
    record: Seq<AttrView>,
    key: Seq<char>,
)
    requires
        first == with_prefixed(Map::empty(), RESOURCE_PREFIX@, resource),
        second == with_prefixed(versioned, SCOPE_PREFIX@, scope.attributes),
    ensures
        !begins_with(key, RESOURCE_PREFIX@) ==> member(first, key) is None,
        !begins_with(key, SCOPE_PREFIX@) ==> member(second, key) == member(versioned, key),
        !begins_with(key, RECORD_PREFIX@) ==> member(with_prefixed(second, RECORD_PREFIX@, record), key) == member(
            second,
            key,
        ),
{
    lemma_with_prefixed(Map::empty(), RESOURCE_PREFIX@, resource, key);
    lemma_with_prefixed(versioned, SCOPE_PREFIX@, scope.attributes, key);
    lemma_with_prefixed(second, RECORD_PREFIX@, record, key);
}

} // verus!
