//! OTLP log messages as plain data, field for field as the protocol defines them, with a view of
//! each: strings as sequences of characters, vectors as sequences.
//!
//! A double is held as its bit pattern.

use vstd::prelude::*;

verus! {

#[derive(Debug, PartialEq, Eq, Default)]
pub struct AnyValue {
    pub value: Option<Value>,
}

#[derive(Debug, PartialEq, Eq)]
pub enum Value {
    StringValue(String),
    BoolValue(bool),
    IntValue(i64),
    /// The bits of an IEEE 754 double.
    DoubleValue(u64),
    ArrayValue(ArrayValue),
    KvlistValue(KeyValueList),
    BytesValue(Vec<u8>),
    /// An index into a string table; of no meaning in a logs request.
    StringValueStrindex(i32),
}

#[derive(Debug, PartialEq, Eq, Default)]
pub struct ArrayValue {
    pub values: Vec<AnyValue>,
}

#[derive(Debug, PartialEq, Eq, Default)]
pub struct KeyValueList {
    pub values: Vec<KeyValue>,
}

#[derive(Debug, PartialEq, Eq, Default)]
pub struct KeyValue {
    pub key: String,
    pub value: Option<AnyValue>,
    pub key_strindex: i32,
}

#[derive(Debug, PartialEq, Eq, Default)]
pub struct InstrumentationScope {
    pub name: String,
    pub version: String,
    pub attributes: Vec<KeyValue>,
    pub dropped_attributes_count: u32,
}

#[derive(Debug, PartialEq, Eq, Default)]
pub struct EntityRef {
    pub schema_url: String,
    pub kind: String,
    pub id_keys: Vec<String>,
    pub description_keys: Vec<String>,
}

#[derive(Debug, PartialEq, Eq, Default)]
pub struct Resource {
    pub attributes: Vec<KeyValue>,
    pub dropped_attributes_count: u32,
    pub entity_refs: Vec<EntityRef>,
}

#[derive(Debug, PartialEq, Eq, Default)]
pub struct LogRecord {
    pub time_unix_nano: u64,
    pub observed_time_unix_nano: u64,
    pub severity_number: i32,
    pub severity_text: String,
    pub body: Option<AnyValue>,
    pub attributes: Vec<KeyValue>,
    pub dropped_attributes_count: u32,
    pub flags: u32,
    pub trace_id: Vec<u8>,
    pub span_id: Vec<u8>,
    pub event_name: String,
}

#[derive(Debug, PartialEq, Eq, Default)]
pub struct ScopeLogs {
    pub scope: Option<InstrumentationScope>,
    pub log_records: Vec<LogRecord>,
    pub schema_url: String,
}

#[derive(Debug, PartialEq, Eq, Default)]
pub struct ResourceLogs {
    pub resource: Option<Resource>,
    pub scope_logs: Vec<ScopeLogs>,
    pub schema_url: String,
}

#[derive(Debug, PartialEq, Eq, Default)]
pub struct LogsRequest {
    pub resource_logs: Vec<ResourceLogs>,
}

/// What an [`AnyValue`] says.
pub enum AnyView {
    Unset,
    Text(Seq<char>),
    Bool(bool),
    Int(i64),
    Double(u64),
    Array(Seq<AnyView>),
    List(Seq<AttrView>),
    Bytes(Seq<u8>),
    Strindex(i32),
}

/// What a [`KeyValue`] says.
pub struct AttrView {
    pub key: Seq<char>,
    pub value: Option<AnyView>,
    pub key_strindex: i32,
}

impl AnyValue {
    pub open spec fn view(self) -> AnyView
        decreases self,
    {
        match self.value {
            None => AnyView::Unset,
            Some(value) => value.view(),
        }
    }
}

impl Value {
    pub open spec fn view(self) -> AnyView
        decreases self,
    {
        match self {
            Value::StringValue(s) => AnyView::Text(s@),
            Value::BoolValue(b) => AnyView::Bool(b),
            Value::IntValue(i) => AnyView::Int(i),
            Value::DoubleValue(bits) => AnyView::Double(bits),
            Value::ArrayValue(a) => AnyView::Array(any_views(a.values@)),
            Value::KvlistValue(l) => AnyView::List(attr_views(l.values@)),
            Value::BytesValue(b) => AnyView::Bytes(b@),
            Value::StringValueStrindex(i) => AnyView::Strindex(i),
        }
    }
}

impl KeyValue {
    pub open spec fn view(self) -> AttrView
        decreases self,
    {
        AttrView {
            key: self.key@,
            value: match self.value {
                None => None,
                Some(v) => Some(v.view()),
            },
            key_strindex: self.key_strindex,
        }
    }
}

pub open spec fn any_views(s: Seq<AnyValue>) -> Seq<AnyView>
    decreases s,
{
    if s.len() == 0 {
        Seq::empty()
    } else {
        any_views(s.drop_last()).push(s.last().view())
    }
}

pub open spec fn attr_views(s: Seq<KeyValue>) -> Seq<AttrView>
    decreases s,
{
    if s.len() == 0 {
        Seq::empty()
    } else {
        attr_views(s.drop_last()).push(s.last().view())
    }
}

pub proof fn lemma_attr_views(s: Seq<KeyValue>)
    ensures
        attr_views(s).len() == s.len(),
        forall|i: int| 0 <= i < s.len() ==> #[trigger] attr_views(s)[i] == s[i].view(),
    decreases s.len(),
{
    if s.len() > 0 {
        lemma_attr_views(s.drop_last());
    }
}

/// What an [`InstrumentationScope`] says.
pub struct ScopeView {
    pub name: Seq<char>,
    pub version: Seq<char>,
    pub attributes: Seq<AttrView>,
    pub dropped_attributes_count: u32,
}

impl InstrumentationScope {
    pub open spec fn view(self) -> ScopeView {
        ScopeView {
            name: self.name@,
            version: self.version@,
            attributes: attr_views(self.attributes@),
            dropped_attributes_count: self.dropped_attributes_count,
        }
    }
}

/// What a [`Resource`] says.
pub struct ResourceView {
    pub attributes: Seq<AttrView>,
    pub dropped_attributes_count: u32,
    pub entity_refs: Seq<EntityRef>,
}

impl Resource {
    pub open spec fn view(self) -> ResourceView {
        ResourceView {
            attributes: attr_views(self.attributes@),
            dropped_attributes_count: self.dropped_attributes_count,
            entity_refs: self.entity_refs@,
        }
    }
}

/// What a [`LogRecord`] says.
pub struct RecordView {
    pub time_unix_nano: u64,
    pub observed_time_unix_nano: u64,
    pub severity_number: i32,
    pub severity_text: Seq<char>,
    pub body: Option<AnyView>,
    pub attributes: Seq<AttrView>,
    pub dropped_attributes_count: u32,
    pub flags: u32,
    pub trace_id: Seq<u8>,
    pub span_id: Seq<u8>,
    pub event_name: Seq<char>,
}

impl LogRecord {
    pub open spec fn view(self) -> RecordView {
        RecordView {
            time_unix_nano: self.time_unix_nano,
            observed_time_unix_nano: self.observed_time_unix_nano,
            severity_number: self.severity_number,
            severity_text: self.severity_text@,
            body: match self.body {
                None => None,
                Some(v) => Some(v.view()),
            },
            attributes: attr_views(self.attributes@),
            dropped_attributes_count: self.dropped_attributes_count,
            flags: self.flags,
            trace_id: self.trace_id@,
            span_id: self.span_id@,
            event_name: self.event_name@,
        }
    }
}

/// What a [`ScopeLogs`] says.
pub struct ScopeLogsView {
    pub scope: Option<ScopeView>,
    pub log_records: Seq<RecordView>,
    pub schema_url: Seq<char>,
}

pub open spec fn record_views(s: Seq<LogRecord>) -> Seq<RecordView> {
    s.map_values(|r: LogRecord| r.view())
}

impl ScopeLogs {
    pub open spec fn view(self) -> ScopeLogsView {
        ScopeLogsView {
            scope: match self.scope {
                None => None,
                Some(scope) => Some(scope.view()),
            },
            log_records: record_views(self.log_records@),
            schema_url: self.schema_url@,
        }
    }
}

/// What a [`ResourceLogs`] says.
pub struct ResourceLogsView {
    pub resource: Option<ResourceView>,
    pub scope_logs: Seq<ScopeLogsView>,
    pub schema_url: Seq<char>,
}

pub open spec fn scope_logs_views(s: Seq<ScopeLogs>) -> Seq<ScopeLogsView> {
    s.map_values(|x: ScopeLogs| x.view())
}

impl ResourceLogs {
    pub open spec fn view(self) -> ResourceLogsView {
        ResourceLogsView {
            resource: match self.resource {
                None => None,
                Some(resource) => Some(resource.view()),
            },
            scope_logs: scope_logs_views(self.scope_logs@),
            schema_url: self.schema_url@,
        }
    }
}

pub open spec fn resource_logs_views(s: Seq<ResourceLogs>) -> Seq<ResourceLogsView> {
    s.map_values(|x: ResourceLogs| x.view())
}

impl LogsRequest {
    /// What the request says: its parts in order.
    pub open spec fn view(self) -> Seq<ResourceLogsView> {
        resource_logs_views(self.resource_logs@)
    }
}

/// The records of one resource's scopes, in order.
pub open spec fn scope_records(s: Seq<ScopeLogsView>) -> Seq<RecordView>
    decreases s.len(),
{
    if s.len() == 0 {
        Seq::empty()
    } else {
        scope_records(s.drop_last()) + s.last().log_records
    }
}

/// Every record of a request, in order.
pub open spec fn all_records(s: Seq<ResourceLogsView>) -> Seq<RecordView>
    decreases s.len(),
{
    if s.len() == 0 {
        Seq::empty()
    } else {
        all_records(s.drop_last()) + scope_records(s.last().scope_logs)
    }
}

/// A number, where a `u64` can say it.
pub open spec fn countable(n: nat) -> Option<u64> {
    if n <= u64::MAX {
        Some(n as u64)
    } else {
        None
    }
}

/// How many records the scopes hold, where a `u64` can say it.
fn scope_record_count(scopes: &Vec<ScopeLogs>) -> (r: Option<u64>)
    ensures
        r == countable(scope_records(scope_logs_views(scopes@)).len()),
{
    let ghost views = scope_logs_views(scopes@);
    let mut count: Option<u64> = Some(0);
    let mut i: usize = 0;
    assert(views.take(0) =~= Seq::<ScopeLogsView>::empty());
    while i < scopes.len()
        invariant
            i <= scopes@.len(),
            views == scope_logs_views(scopes@),
            count == countable(scope_records(views.take(i as int)).len()),
        decreases scopes.len() - i,
    {
        proof {
            assert(views.take(i + 1).drop_last() =~= views.take(i as int));
            assert(views.take(i + 1).last() == scopes@[i as int].view());
            assert(record_views(scopes@[i as int].log_records@).len() == scopes@[i as int].log_records@.len());
        }
        count = match count {
            Some(n) => n.checked_add(scopes[i].log_records.len() as u64),
            None => None,
        };
        i += 1;
    }
    assert(views.take(i as int) =~= views);
    count
}

impl LogsRequest {
    /// How many records the request holds, where a `u64` can say it.
    pub fn record_count(&self) -> (r: Option<u64>)
        ensures
            r == countable(all_records(self.view()).len()),
    {
        let ghost views = self.view();
        let mut count: Option<u64> = Some(0);
        let mut i: usize = 0;
        assert(views.take(0) =~= Seq::<ResourceLogsView>::empty());
        while i < self.resource_logs.len()
            invariant
                i <= self.resource_logs@.len(),
                views == self.view(),
                count == countable(all_records(views.take(i as int)).len()),
            decreases self.resource_logs.len() - i,
        {
            proof {
                assert(views.take(i + 1).drop_last() =~= views.take(i as int));
                assert(views.take(i + 1).last() == self.resource_logs@[i as int].view());
            }
            count = match (count, scope_record_count(&self.resource_logs[i].scope_logs)) {
                (Some(n), Some(more)) => n.checked_add(more),
                _ => None,
            };
            i += 1;
        }
        assert(views.take(i as int) =~= views);
        count
    }
}

} // verus!
