//! Rewriting timestamps, in two passes.
//!
//! [`resolve_request`] runs at receipt: it works out which boot time each wall-clock stamp denotes
//! and writes that down on the record. [`apply_correction`] runs at flush: it projects those boot
//! times back into wall-clock time with one offset. In between the record carries its original
//! stamps, so that a buffered record is always one that could be shipped as it is.

use vstd::prelude::*;

use crate::collector::epoch::{resolved, window_fits, Epoch, EpochTable, Query, Resolution};
use crate::collector::sync::SyncSource;
use crate::otlp::proto::{
    all_records, attr_views, lemma_attr_views, record_views, resource_logs_views, scope_logs_views,
    scope_records, AnyValue, AnyView, AttrView, LogsRequest, KeyValue, LogRecord,
    RecordView, ResourceLogs, ResourceLogsView, ScopeLogs, ScopeLogsView, Value,
};
use crate::text::same_text;

verus! {

/// The namespace of every attribute here.
pub const NS: &'static str = "mp.clock.";

/// The sender's own boot-time reading for the record.
pub const ATTR_BOOTTIME: &'static str = "mp.clock.boottime_ns";

/// The sender asserts that the timestamp is already right, or not from this host's clock.
pub const ATTR_AUTHORITATIVE: &'static str = "mp.clock.authoritative";

/// Internal: the resolved event boot time, carried from receipt to flush.
pub const ATTR_EVENT_BOOTTIME: &'static str = "mp.clock.internal.event_boottime_ns";

/// Internal: the collector's boot time at receipt.
pub const ATTR_RECEIPT_BOOTTIME: &'static str = "mp.clock.internal.receipt_boottime_ns";

pub const ATTR_CORRECTED: &'static str = "mp.clock.corrected";

pub const ATTR_CORRECTION_NS: &'static str = "mp.clock.correction_ns";

pub const ATTR_RESOLUTION: &'static str = "mp.clock.resolution";

pub const ATTR_SPREAD_NS: &'static str = "mp.clock.ambiguity_spread_ns";

pub const ATTR_UNCERTAIN: &'static str = "mp.clock.uncertain";

pub const ATTR_SYNC_SOURCE: &'static str = "mp.clock.sync_source";

/// What the collector decided about one record.
#[derive(Debug, Clone, Copy, PartialEq, Eq, Structural)]
pub enum Disposition {
    /// The epoch table had an answer, good or otherwise.
    Resolved(Resolution),
    /// The application vouches for the timestamp. Never touched.
    Authoritative,
}

impl Disposition {
    pub open spec fn spec_label(self) -> Seq<char> {
        match self {
            Disposition::Resolved(r) => r.spec_label(),
            Disposition::Authoritative => "authoritative"@,
        }
    }

    pub fn label(self) -> (r: &'static str)
        ensures
            r@ == self.spec_label(),
    {
        match self {
            Disposition::Resolved(r) => r.label(),
            Disposition::Authoritative => "authoritative",
        }
    }

    pub open spec fn correctable(self) -> bool {
        self matches Disposition::Resolved(r) && r.boottime() is Some
    }

    /// Whether the record carries a boot time that the flush can project.
    pub fn is_correctable(self) -> (r: bool)
        ensures
            r == self.correctable(),
    {
        match self {
            Disposition::Resolved(r) => r.boottime().is_some(),
            Disposition::Authoritative => false,
        }
    }

    /// The disposition a label names, its numbers left at zero.
    pub open spec fn labelled(label: Seq<char>) -> Option<Disposition> {
        if label == "exact"@ {
            Some(Disposition::Resolved(Resolution::Exact { boottime: 0 }))
        } else if label == "ambiguous"@ {
            Some(Disposition::Resolved(Resolution::Ambiguous { boottime: 0, spread: 0 }))
        } else if label == "passthrough"@ {
            Some(Disposition::Resolved(Resolution::Passthrough))
        } else if label == "authoritative"@ {
            Some(Disposition::Authoritative)
        } else {
            None
        }
    }

    pub fn from_label(label: &str) -> (r: Option<Self>)
        ensures
            r == Disposition::labelled(label@),
    {
        if same_text(label, "exact") {
            Some(Disposition::Resolved(Resolution::Exact { boottime: 0 }))
        } else if same_text(label, "ambiguous") {
            Some(Disposition::Resolved(Resolution::Ambiguous { boottime: 0, spread: 0 }))
        } else if same_text(label, "passthrough") {
            Some(Disposition::Resolved(Resolution::Passthrough))
        } else if same_text(label, "authoritative") {
            Some(Disposition::Authoritative)
        } else {
            None
        }
    }
}

/// Hints an application may attach; all optional.
#[derive(Debug, Clone, Copy, PartialEq, Eq, Structural)]
pub struct Hints {
    pub boottime: Option<i64>,
    pub authoritative: bool,
}

impl Default for Hints {
    fn default() -> (r: Self)
        ensures
            r == (Hints { boottime: None, authoritative: false }),
    {
        Hints { boottime: None, authoritative: false }
    }
}

pub open spec fn int_of(a: AttrView) -> Option<i64> {
    match a.value {
        Some(AnyView::Int(i)) => Some(i),
        _ => None,
    }
}

pub open spec fn bool_of(a: AttrView) -> Option<bool> {
    match a.value {
        Some(AnyView::Bool(b)) => Some(b),
        _ => None,
    }
}

pub open spec fn text_of(a: AttrView) -> Option<Seq<char>> {
    match a.value {
        Some(AnyView::Text(s)) => Some(s),
        _ => None,
    }
}

fn as_int(kv: &KeyValue) -> (r: Option<i64>)
    ensures
        r == int_of(kv.view()),
{
    match &kv.value {
        Some(v) => match &v.value {
            Some(Value::IntValue(i)) => Some(*i),
            _ => None,
        },
        None => None,
    }
}

fn as_bool(kv: &KeyValue) -> (r: Option<bool>)
    ensures
        r == bool_of(kv.view()),
{
    match &kv.value {
        Some(v) => match &v.value {
            Some(Value::BoolValue(b)) => Some(*b),
            _ => None,
        },
        None => None,
    }
}

pub open spec fn is_hint(key: Seq<char>) -> bool {
    key == ATTR_BOOTTIME@ || key == ATTR_AUTHORITATIVE@
}

/// What the hint attributes in `s` say. The last one of a key counts, and one of the wrong type
/// counts as none.
pub open spec fn hints_in(s: Seq<AttrView>) -> Hints
    decreases s.len(),
{
    if s.len() == 0 {
        Hints { boottime: None, authoritative: false }
    } else {
        let before = hints_in(s.drop_last());
        let a = s.last();
        if a.key == ATTR_BOOTTIME@ {
            Hints { boottime: int_of(a), authoritative: before.authoritative }
        } else if a.key == ATTR_AUTHORITATIVE@ {
            Hints { boottime: before.boottime, authoritative: bool_of(a) == Some(true) }
        } else {
            before
        }
    }
}

/// `s` without its hints.
pub open spec fn without_hints(s: Seq<AttrView>) -> Seq<AttrView> {
    s.filter(|a: AttrView| !is_hint(a.key))
}

proof fn lemma_without_hints_push(s: Seq<AttrView>, a: AttrView)
    ensures
        without_hints(s.push(a)) == if is_hint(a.key) {
            without_hints(s)
        } else {
            without_hints(s).push(a)
        },
{
    reveal(Seq::filter);
    assert(s.push(a).drop_last() =~= s);
}

proof fn lemma_attr_views_push(s: Seq<KeyValue>, kv: KeyValue)
    ensures
        attr_views(s.push(kv)) == attr_views(s).push(kv.view()),
{
    assert(s.push(kv).drop_last() =~= s);
}

/// Reads the hints out of an attribute list, and removes them.
pub fn split_hints(attributes: Vec<KeyValue>) -> (r: (Hints, Vec<KeyValue>))
    ensures
        r.0 == hints_in(attr_views(attributes@)),
        attr_views(r.1@) == without_hints(attr_views(attributes@)),
{
    let ghost all = attributes@;
    let mut hints = Hints::default();
    let mut kept: Vec<KeyValue> = Vec::new();
    proof {
        reveal(Seq::filter);
        assert(all.take(0) =~= Seq::<KeyValue>::empty());
    }
    for kv in it: attributes.into_iter()
        invariant
            it.seq() == all,
            hints == hints_in(attr_views(all.take(it.index()))),
            attr_views(kept@) == without_hints(attr_views(all.take(it.index()))),
    {
        proof {
            let n = it.index();
            assert(all.take(n + 1) =~= all.take(n).push(kv));
            lemma_attr_views_push(all.take(n), kv);
            lemma_without_hints_push(attr_views(all.take(n)), kv.view());
            assert(attr_views(all.take(n)).push(kv.view()).drop_last() =~= attr_views(all.take(n)));
            lemma_attr_views_push(kept@, kv);
        }
        if same_text(kv.key.as_str(), ATTR_BOOTTIME) {
            hints.boottime = as_int(&kv);
        } else if same_text(kv.key.as_str(), ATTR_AUTHORITATIVE) {
            hints.authoritative = match as_bool(&kv) {
                Some(b) => b,
                None => false,
            };
        } else {
            kept.push(kv);
        }
    }
    proof {
        assert(all.take(all.len() as int) =~= all);
    }
    (hints, kept)
}

/// What the receipt pass knows about the delivery.
#[derive(Debug, Clone, Copy, PartialEq, Eq, Structural)]
pub struct Receipt {
    /// The boot time at which the sending process started.
    pub sender_started: i64,
    /// The boot time at which the collector took the batch in.
    pub received: i64,
    /// Slack for epoch boundaries.
    pub tolerance: i64,
}

/// What becomes of a record stamped `time`, else `observed`, under the history `es`.
pub open spec fn disposition(time: u64, observed: u64, hints: Hints, es: Seq<Epoch>, receipt: Receipt) -> Disposition {
    let stamped = if time != 0 { time } else { observed };
    if hints.authoritative {
        Disposition::Authoritative
    } else if hints.boottime is Some {
        Disposition::Resolved(Resolution::Exact { boottime: hints.boottime->0 })
    } else if stamped == 0 || stamped > i64::MAX {
        Disposition::Resolved(Resolution::Passthrough)
    } else {
        Disposition::Resolved(resolved(
            es,
            Query { stamped: stamped as i64, sender_started: receipt.sender_started, received: receipt.received },
            receipt.tolerance,
        ))
    }
}

fn decide(record: &LogRecord, hints: Hints, table: &EpochTable, receipt: Receipt) -> (r: Disposition)
    requires
        window_fits(receipt.sender_started, receipt.received, receipt.tolerance),
    ensures
        r == disposition(record.time_unix_nano, record.observed_time_unix_nano, hints, table@, receipt),
{
    if hints.authoritative {
        return Disposition::Authoritative;
    }
    if let Some(boottime) = hints.boottime {
        return Disposition::Resolved(Resolution::Exact { boottime });
    }
    let stamped: u64 = if record.time_unix_nano != 0 {
        record.time_unix_nano
    } else {
        record.observed_time_unix_nano
    };
    if stamped == 0 || stamped > i64::MAX as u64 {
        return Disposition::Resolved(Resolution::Passthrough);
    }
    let query = Query {
        stamped: stamped as i64,
        sender_started: receipt.sender_started,
        received: receipt.received,
    };
    Disposition::Resolved(table.resolve(query, receipt.tolerance))
}

pub open spec fn int_mark(key: Seq<char>, i: i64) -> AttrView {
    AttrView { key, value: Some(AnyView::Int(i)), key_strindex: 0 }
}

pub open spec fn text_mark(key: Seq<char>, text: Seq<char>) -> AttrView {
    AttrView { key, value: Some(AnyView::Text(text)), key_strindex: 0 }
}

pub open spec fn bool_mark(key: Seq<char>, b: bool) -> AttrView {
    AttrView { key, value: Some(AnyView::Bool(b)), key_strindex: 0 }
}

fn attr(key: &str, value: Value) -> (r: KeyValue)
    ensures
        r.view() == (AttrView { key: key@, value: Some(value.view()), key_strindex: 0 }),
{
    KeyValue { key: key.to_owned(), value: Some(AnyValue { value: Some(value) }), key_strindex: 0 }
}

fn string_attr(key: &str, value: &str) -> (r: KeyValue)
    ensures
        r.view() == text_mark(key@, value@),
{
    attr(key, Value::StringValue(value.to_owned()))
}

fn int_attr(key: &str, value: i64) -> (r: KeyValue)
    ensures
        r.view() == int_mark(key@, value),
{
    attr(key, Value::IntValue(value))
}

fn bool_attr(key: &str, value: bool) -> (r: KeyValue)
    ensures
        r.view() == bool_mark(key@, value),
{
    attr(key, Value::BoolValue(value))
}

/// What the receipt pass writes on a record.
pub open spec fn receipt_marks(d: Disposition, received: i64) -> Seq<AttrView> {
    let carried = match d {
        Disposition::Resolved(Resolution::Exact { boottime }) => seq![
            int_mark(ATTR_EVENT_BOOTTIME@, boottime),
            int_mark(ATTR_RECEIPT_BOOTTIME@, received),
        ],
        Disposition::Resolved(Resolution::Ambiguous { boottime, spread }) => seq![
            int_mark(ATTR_EVENT_BOOTTIME@, boottime),
            int_mark(ATTR_RECEIPT_BOOTTIME@, received),
            int_mark(ATTR_SPREAD_NS@, spread),
        ],
        _ => Seq::empty(),
    };
    carried.push(text_mark(ATTR_RESOLUTION@, d.spec_label()))
}

/// What becomes of a record at receipt.
pub open spec fn record_disposition(record: RecordView, es: Seq<Epoch>, receipt: Receipt) -> Disposition {
    disposition(
        record.time_unix_nano,
        record.observed_time_unix_nano,
        hints_in(record.attributes),
        es,
        receipt,
    )
}

/// The record after the receipt pass: its hints gone, the conclusion written down, all else as it
/// was.
pub open spec fn resolved_record(record: RecordView, es: Seq<Epoch>, receipt: Receipt) -> RecordView {
    RecordView {
        attributes: without_hints(record.attributes) + receipt_marks(
            record_disposition(record, es, receipt),
            receipt.received,
        ),
        ..record
    }
}

fn resolve_record(record: &mut LogRecord, table: &EpochTable, receipt: Receipt) -> (r: Disposition)
    requires
        window_fits(receipt.sender_started, receipt.received, receipt.tolerance),
    ensures
        r == record_disposition(old(record).view(), table@, receipt),
        final(record).view() == resolved_record(old(record).view(), table@, receipt),
{
    let mut taken: Vec<KeyValue> = Vec::new();
    std::mem::swap(&mut taken, &mut record.attributes);
    let (hints, kept) = split_hints(taken);
    let ghost base = attr_views(kept@);
    let mut attributes = kept;
    let d = decide(record, hints, table, receipt);
    if let Disposition::Resolved(resolution) = d {
        if let Some(boottime) = resolution.boottime() {
            let event = int_attr(ATTR_EVENT_BOOTTIME, boottime);
            proof {
                lemma_attr_views_push(attributes@, event);
            }
            attributes.push(event);
            let received = int_attr(ATTR_RECEIPT_BOOTTIME, receipt.received);
            proof {
                lemma_attr_views_push(attributes@, received);
            }
            attributes.push(received);
            if let Resolution::Ambiguous { spread, .. } = resolution {
                let width = int_attr(ATTR_SPREAD_NS, spread);
                proof {
                    lemma_attr_views_push(attributes@, width);
                }
                attributes.push(width);
            }
        }
    }
    let label = string_attr(ATTR_RESOLUTION, d.label());
    proof {
        lemma_attr_views_push(attributes@, label);
    }
    attributes.push(label);
    assert(attr_views(attributes@) =~= base + receipt_marks(d, receipt.received));
    record.attributes = attributes;
    d
}

/// The four ways a record can go.
pub enum Class {
    Exact,
    Ambiguous,
    Passthrough,
    Authoritative,
}

pub open spec fn class_of(d: Disposition) -> Class {
    match d {
        Disposition::Resolved(Resolution::Exact { .. }) => Class::Exact,
        Disposition::Resolved(Resolution::Ambiguous { .. }) => Class::Ambiguous,
        Disposition::Resolved(Resolution::Passthrough) => Class::Passthrough,
        Disposition::Authoritative => Class::Authoritative,
    }
}

/// How many of `ds` went the way `c`.
pub open spec fn occurrences(ds: Seq<Disposition>, c: Class) -> nat
    decreases ds.len(),
{
    if ds.len() == 0 {
        0
    } else {
        occurrences(ds.drop_last(), c) + if class_of(ds.last()) == c { 1nat } else { 0nat }
    }
}

proof fn lemma_occurrences_add(a: Seq<Disposition>, b: Seq<Disposition>, c: Class)
    ensures
        occurrences(a + b, c) == occurrences(a, c) + occurrences(b, c),
    decreases b.len(),
{
    if b.len() == 0 {
        assert(a + b =~= a);
    } else {
        lemma_occurrences_add(a, b.drop_last(), c);
        assert((a + b).drop_last() =~= a + b.drop_last());
    }
}

/// Every record goes exactly one way.
pub proof fn law_classes_partition(ds: Seq<Disposition>)
    ensures
        occurrences(ds, Class::Exact) + occurrences(ds, Class::Ambiguous) + occurrences(
            ds,
            Class::Passthrough,
        ) + occurrences(ds, Class::Authoritative) == ds.len(),
    decreases ds.len(),
{
    if ds.len() > 0 {
        law_classes_partition(ds.drop_last());
    }
}

/// How many records went each way.
#[derive(Debug, Clone, Copy, PartialEq, Eq, Structural)]
pub struct Tally {
    pub exact: u64,
    pub ambiguous: u64,
    pub passthrough: u64,
    pub authoritative: u64,
}

impl Default for Tally {
    fn default() -> (r: Self)
        ensures
            r == (Tally { exact: 0, ambiguous: 0, passthrough: 0, authoritative: 0 }),
    {
        Tally { exact: 0, ambiguous: 0, passthrough: 0, authoritative: 0 }
    }
}

impl Tally {
    /// The sum of the four counts.
    pub open spec fn sum(self) -> nat {
        (self.exact + self.ambiguous + self.passthrough + self.authoritative) as nat
    }

    /// Whether this is `before` with the records `ds` counted in.
    pub open spec fn counts(self, before: Tally, ds: Seq<Disposition>) -> bool {
        &&& self.exact == before.exact + occurrences(ds, Class::Exact)
        &&& self.ambiguous == before.ambiguous + occurrences(ds, Class::Ambiguous)
        &&& self.passthrough == before.passthrough + occurrences(ds, Class::Passthrough)
        &&& self.authoritative == before.authoritative + occurrences(ds, Class::Authoritative)
    }

    pub fn total(self) -> (r: u64)
        requires
            self.sum() <= u64::MAX,
        ensures
            r == self.sum(),
    {
        self.exact + self.ambiguous + self.passthrough + self.authoritative
    }

    /// Records that hold a boot time, which a flush will rewrite.
    pub fn correctable(self) -> (r: u64)
        requires
            self.exact + self.ambiguous <= u64::MAX,
        ensures
            r == self.exact + self.ambiguous,
    {
        self.exact + self.ambiguous
    }

    fn count(&mut self, d: Disposition)
        requires
            old(self).sum() < u64::MAX,
        ensures
            final(self).counts(*old(self), seq![d]),
            final(self).sum() == old(self).sum() + 1,
    {
        proof {
            let one = seq![d];
            assert(one.drop_last() =~= Seq::<Disposition>::empty());
            assert(one.last() == d);
            reveal_with_fuel(occurrences, 2);
        }
        match d {
            Disposition::Resolved(Resolution::Exact { .. }) => {
                self.exact += 1;
            },
            Disposition::Resolved(Resolution::Ambiguous { .. }) => {
                self.ambiguous += 1;
            },
            Disposition::Resolved(Resolution::Passthrough) => {
                self.passthrough += 1;
            },
            Disposition::Authoritative => {
                self.authoritative += 1;
            },
        }
    }
}

/// Each record of `s` rewritten by `f`.
pub open spec fn rewritten_records(s: Seq<RecordView>, f: spec_fn(RecordView) -> RecordView) -> Seq<RecordView> {
    Seq::new(s.len(), |i: int| f(s[i]))
}

pub open spec fn rewritten_scope(s: ScopeLogsView, f: spec_fn(RecordView) -> RecordView) -> ScopeLogsView {
    ScopeLogsView { log_records: rewritten_records(s.log_records, f), ..s }
}

pub open spec fn rewritten_resource(s: ResourceLogsView, f: spec_fn(RecordView) -> RecordView) -> ResourceLogsView {
    ResourceLogsView {
        scope_logs: Seq::new(s.scope_logs.len(), |i: int| rewritten_scope(s.scope_logs[i], f)),
        ..s
    }
}

/// The request with each of its records rewritten by `f`, and nothing else changed.
pub open spec fn rewritten(s: Seq<ResourceLogsView>, f: spec_fn(RecordView) -> RecordView) -> Seq<ResourceLogsView> {
    Seq::new(s.len(), |i: int| rewritten_resource(s[i], f))
}

/// The receipt pass on one record.
pub open spec fn receipt_pass(es: Seq<Epoch>, receipt: Receipt) -> spec_fn(RecordView) -> RecordView {
    |r: RecordView| resolved_record(r, es, receipt)
}

/// What becomes of each of the records `s`.
pub open spec fn dispositions(s: Seq<RecordView>, es: Seq<Epoch>, receipt: Receipt) -> Seq<Disposition> {
    Seq::new(s.len(), |i: int| record_disposition(s[i], es, receipt))
}

proof fn lemma_counts_chain(a: Tally, b: Tally, c: Tally, x: Seq<Disposition>, y: Seq<Disposition>)
    requires
        b.counts(a, x),
        c.counts(b, y),
    ensures
        c.counts(a, x + y),
{
    lemma_occurrences_add(x, y, Class::Exact);
    lemma_occurrences_add(x, y, Class::Ambiguous);
    lemma_occurrences_add(x, y, Class::Passthrough);
    lemma_occurrences_add(x, y, Class::Authoritative);
}

fn resolve_scope(scope: &mut ScopeLogs, table: &EpochTable, receipt: Receipt, tally: &mut Tally)
    requires
        window_fits(receipt.sender_started, receipt.received, receipt.tolerance),
        old(tally).sum() + old(scope).log_records@.len() <= u64::MAX,
    ensures
        final(scope).view() == rewritten_scope(old(scope).view(), receipt_pass(table@, receipt)),
        final(tally).counts(*old(tally), dispositions(old(scope).view().log_records, table@, receipt)),
        final(tally).sum() == old(tally).sum() + old(scope).log_records@.len(),
{
    let ghost f = receipt_pass(table@, receipt);
    let ghost before = scope.log_records@;
    let ghost ds = dispositions(record_views(before), table@, receipt);
    let mut i: usize = 0;
    assert(ds.take(0) =~= Seq::<Disposition>::empty());
    while i < scope.log_records.len()
        invariant
            window_fits(receipt.sender_started, receipt.received, receipt.tolerance),
            i <= before.len(),
            scope.log_records@.len() == before.len(),
            scope.scope == old(scope).scope,
            scope.schema_url == old(scope).schema_url,
            f == receipt_pass(table@, receipt),
            ds == dispositions(record_views(before), table@, receipt),
            forall|j: int| 0 <= j < i ==> (#[trigger] scope.log_records@[j]).view() == f(before[j].view()),
            forall|j: int| i <= j < before.len() ==> #[trigger] scope.log_records@[j] == before[j],
            tally.counts(*old(tally), ds.take(i as int)),
            tally.sum() == old(tally).sum() + i,
            old(tally).sum() + before.len() <= u64::MAX,
        decreases before.len() - i,
    {
        let ghost tally_before = *tally;
        let d = resolve_record(&mut scope.log_records[i], table, receipt);
        tally.count(d);
        proof {
            assert(ds[i as int] == d);
            assert(ds.take(i + 1) =~= ds.take(i as int) + seq![d]);
            lemma_counts_chain(*old(tally), tally_before, *tally, ds.take(i as int), seq![d]);
        }
        i += 1;
    }
    proof {
        assert(ds.take(i as int) =~= ds);
        assert(scope.view().log_records =~= rewritten_records(record_views(before), f));
    }
}

fn resolve_resource(resource: &mut ResourceLogs, table: &EpochTable, receipt: Receipt, tally: &mut Tally)
    requires
        window_fits(receipt.sender_started, receipt.received, receipt.tolerance),
        old(tally).sum() + scope_records(old(resource).view().scope_logs).len() <= u64::MAX,
    ensures
        final(resource).view() == rewritten_resource(old(resource).view(), receipt_pass(table@, receipt)),
        final(tally).counts(
            *old(tally),
            dispositions(scope_records(old(resource).view().scope_logs), table@, receipt),
        ),
        final(tally).sum() == old(tally).sum() + scope_records(old(resource).view().scope_logs).len(),
{
    let ghost f = receipt_pass(table@, receipt);
    let ghost before = resource.scope_logs@;
    let ghost views = scope_logs_views(before);
    let mut i: usize = 0;
    assert(views.take(0) =~= Seq::<ScopeLogsView>::empty());
    assert(dispositions(scope_records(views.take(0)), table@, receipt) =~= Seq::<Disposition>::empty());
    while i < resource.scope_logs.len()
        invariant
            window_fits(receipt.sender_started, receipt.received, receipt.tolerance),
            i <= before.len(),
            resource.scope_logs@.len() == before.len(),
            resource.resource == old(resource).resource,
            resource.schema_url == old(resource).schema_url,
            f == receipt_pass(table@, receipt),
            views == scope_logs_views(before),
            forall|j: int| 0 <= j < i ==> (#[trigger] resource.scope_logs@[j]).view() == rewritten_scope(before[j].view(), f),
            forall|j: int| i <= j < before.len() ==> #[trigger] resource.scope_logs@[j] == before[j],
            tally.counts(*old(tally), dispositions(scope_records(views.take(i as int)), table@, receipt)),
            tally.sum() == old(tally).sum() + scope_records(views.take(i as int)).len(),
            old(tally).sum() + scope_records(views).len() <= u64::MAX,
        decreases before.len() - i,
    {
        let ghost tally_before = *tally;
        let ghost prefix = scope_records(views.take(i as int));
        let ghost here = views[i as int].log_records;
        proof {
            assert(views.take(i + 1).drop_last() =~= views.take(i as int));
            lemma_scope_records_prefix(views, i + 1);
            assert(views[i as int] == before[i as int].view());
        }
        resolve_scope(&mut resource.scope_logs[i], table, receipt, tally);
        proof {
            lemma_counts_chain(
                *old(tally),
                tally_before,
                *tally,
                dispositions(prefix, table@, receipt),
                dispositions(here, table@, receipt),
            );
            assert(dispositions(prefix + here, table@, receipt) =~= dispositions(prefix, table@, receipt)
                + dispositions(here, table@, receipt));
        }
        i += 1;
    }
    proof {
        assert(views.take(i as int) =~= views);
        assert(resource.view().scope_logs =~= rewritten_resource(old(resource).view(), f).scope_logs);
    }
}

proof fn lemma_scope_records_prefix(s: Seq<ScopeLogsView>, k: int)
    requires
        0 <= k <= s.len(),
    ensures
        scope_records(s.take(k)).len() <= scope_records(s).len(),
    decreases s.len() - k,
{
    if k < s.len() {
        lemma_scope_records_prefix(s, k + 1);
        assert(s.take(k + 1).drop_last() =~= s.take(k));
    } else {
        assert(s.take(k) =~= s);
    }
}

proof fn lemma_all_records_prefix(s: Seq<ResourceLogsView>, k: int)
    requires
        0 <= k <= s.len(),
    ensures
        all_records(s.take(k)).len() <= all_records(s).len(),
    decreases s.len() - k,
{
    if k < s.len() {
        lemma_all_records_prefix(s, k + 1);
        assert(s.take(k + 1).drop_last() =~= s.take(k));
    } else {
        assert(s.take(k) =~= s);
    }
}

/// Receipt pass: works out each record's boot time and writes the conclusion down, or marks the
/// record as one not to touch.
pub fn resolve_request(request: &mut LogsRequest, table: &EpochTable, receipt: Receipt) -> (r: Tally)
    requires
        window_fits(receipt.sender_started, receipt.received, receipt.tolerance),
        all_records(old(request).view()).len() <= u64::MAX,
    ensures
        final(request).view() == rewritten(old(request).view(), receipt_pass(table@, receipt)),
        r.counts(
            Tally { exact: 0, ambiguous: 0, passthrough: 0, authoritative: 0 },
            dispositions(all_records(old(request).view()), table@, receipt),
        ),
        r.sum() == all_records(old(request).view()).len(),
{
    let ghost f = receipt_pass(table@, receipt);
    let ghost before = request.resource_logs@;
    let ghost views = resource_logs_views(before);
    let mut tally = Tally::default();
    let ghost none = tally;
    let mut i: usize = 0;
    assert(views.take(0) =~= Seq::<ResourceLogsView>::empty());
    assert(dispositions(all_records(views.take(0)), table@, receipt) =~= Seq::<Disposition>::empty());
    while i < request.resource_logs.len()
        invariant
            window_fits(receipt.sender_started, receipt.received, receipt.tolerance),
            i <= before.len(),
            request.resource_logs@.len() == before.len(),
            f == receipt_pass(table@, receipt),
            views == resource_logs_views(before),
            none == (Tally { exact: 0, ambiguous: 0, passthrough: 0, authoritative: 0 }),
            forall|j: int| 0 <= j < i ==> (#[trigger] request.resource_logs@[j]).view() == rewritten_resource(before[j].view(), f),
            forall|j: int| i <= j < before.len() ==> #[trigger] request.resource_logs@[j] == before[j],
            tally.counts(none, dispositions(all_records(views.take(i as int)), table@, receipt)),
            tally.sum() == all_records(views.take(i as int)).len(),
            all_records(views).len() <= u64::MAX,
        decreases before.len() - i,
    {
        let ghost tally_before = tally;
        let ghost prefix = all_records(views.take(i as int));
        let ghost here = scope_records(views[i as int].scope_logs);
        proof {
            assert(views.take(i + 1).drop_last() =~= views.take(i as int));
            lemma_all_records_prefix(views, i + 1);
            assert(views[i as int] == before[i as int].view());
        }
        resolve_resource(&mut request.resource_logs[i], table, receipt, &mut tally);
        proof {
            lemma_counts_chain(
                none,
                tally_before,
                tally,
                dispositions(prefix, table@, receipt),
                dispositions(here, table@, receipt),
            );
            assert(dispositions(prefix + here, table@, receipt) =~= dispositions(prefix, table@, receipt)
                + dispositions(here, table@, receipt));
        }
        i += 1;
    }
    proof {
        assert(views.take(i as int) =~= views);
        assert(request.view() =~= rewritten(old(request).view(), f));
    }
    tally
}

/// The offset to project carried boot times with: that of the epoch in force, not a fresh reading,
/// so that two deliveries of one batch come out the same.
#[derive(Debug, Clone, Copy, PartialEq, Eq, Structural)]
pub struct Correction {
    /// `realtime − boottime`.
    pub offset: i64,
}

/// The circumstances of a flush.
#[derive(Debug, Clone, Copy, PartialEq, Eq, Structural)]
pub struct Flush {
    /// Whether the wait ended without the clock ever having been set.
    pub uncertain: bool,
    /// Which condition said the clock was good, if any did.
    pub sync_source: Option<SyncSource>,
}

/// Boot time plus offset where that is a time since 1970 below `2^63`; zero otherwise, which a
/// receiver refuses rather than stores.
pub open spec fn projected(boottime: i64, offset: i64) -> u64 {
    if 0 <= boottime + offset <= i64::MAX {
        (boottime + offset) as u64
    } else {
        0
    }
}

pub fn project(boottime: i64, offset: i64) -> (r: u64)
    ensures
        r == projected(boottime, offset),
{
    match boottime.checked_add(offset) {
        Some(v) => if v >= 0 { v as u64 } else { 0 },
        None => 0,
    }
}

/// Whether an attribute with this key is there.
pub open spec fn has_key(s: Seq<AttrView>, key: Seq<char>) -> bool {
    exists|i: int| 0 <= i < s.len() && (#[trigger] s[i]).key == key
}

/// The position of the first attribute with this key, or the length of `s`.
pub open spec fn key_index(s: Seq<AttrView>, key: Seq<char>) -> int
    decreases s.len(),
{
    if s.len() == 0 || s[0].key == key {
        0
    } else {
        1 + key_index(s.drop_first(), key)
    }
}

/// The text of the first attribute with this key.
pub open spec fn first_text(s: Seq<AttrView>, key: Seq<char>) -> Option<Seq<char>> {
    if has_key(s, key) {
        text_of(s[key_index(s, key)])
    } else {
        None
    }
}

/// `s` without the first attribute with this key.
pub open spec fn without_first(s: Seq<AttrView>, key: Seq<char>) -> Seq<AttrView> {
    if has_key(s, key) {
        s.remove(key_index(s, key))
    } else {
        s
    }
}

/// The integer of the last attribute with this key.
pub open spec fn last_int(s: Seq<AttrView>, key: Seq<char>) -> Option<i64>
    decreases s.len(),
{
    if s.len() == 0 {
        None
    } else if s.last().key == key {
        int_of(s.last())
    } else {
        last_int(s.drop_last(), key)
    }
}

/// `s` without any attribute with this key.
pub open spec fn without_key(s: Seq<AttrView>, key: Seq<char>) -> Seq<AttrView> {
    s.filter(|a: AttrView| a.key != key)
}

pub proof fn lemma_without_key_push(s: Seq<AttrView>, a: AttrView, key: Seq<char>)
    ensures
        without_key(s.push(a), key) == if a.key == key {
            without_key(s, key)
        } else {
            without_key(s, key).push(a)
        },
{
    reveal(Seq::filter);
    assert(s.push(a).drop_last() =~= s);
}

proof fn lemma_key_index(s: Seq<AttrView>, key: Seq<char>, k: int)
    requires
        0 <= k <= s.len(),
        k < s.len() ==> s[k].key == key,
        forall|i: int| 0 <= i < k ==> (#[trigger] s[i]).key != key,
    ensures
        key_index(s, key) == k,
        has_key(s, key) <==> k < s.len(),
    decreases s.len(),
{
    if k > 0 {
        let rest = s.drop_first();
        assert forall|i: int| 0 <= i < k - 1 implies (#[trigger] rest[i]).key != key by {
            assert(rest[i] == s[i + 1]);
        }
        lemma_key_index(rest, key, k - 1);
    }
    if k < s.len() {
        assert(s[k].key == key);
    }
}

proof fn lemma_attr_views_remove(s: Seq<KeyValue>, k: int)
    requires
        0 <= k < s.len(),
    ensures
        attr_views(s.remove(k)) == attr_views(s).remove(k),
{
    lemma_attr_views(s);
    lemma_attr_views(s.remove(k));
    assert(attr_views(s.remove(k)) =~= attr_views(s).remove(k));
}

/// The first position that holds this key, or the length.
fn find_key(attributes: &Vec<KeyValue>, key: &str) -> (r: usize)
    ensures
        r <= attributes@.len(),
        r == key_index(attr_views(attributes@), key@),
        r < attributes@.len() <==> has_key(attr_views(attributes@), key@),
{
    proof {
        lemma_attr_views(attributes@);
    }
    let mut i: usize = 0;
    while i < attributes.len()
        invariant
            i <= attributes@.len(),
            attr_views(attributes@).len() == attributes@.len(),
            forall|j: int| 0 <= j < attributes@.len() ==> #[trigger] attr_views(attributes@)[j] == attributes@[j].view(),
            forall|j: int| 0 <= j < i ==> (#[trigger] attr_views(attributes@)[j]).key != key@,
        decreases attributes.len() - i,
    {
        if same_text(attributes[i].key.as_str(), key) {
            assert(attr_views(attributes@)[i as int].key == key@);
            proof {
                lemma_key_index(attr_views(attributes@), key@, i as int);
            }
            return i;
        }
        i += 1;
    }
    proof {
        lemma_key_index(attr_views(attributes@), key@, i as int);
    }
    i
}

/// Reads the first attribute with this key as text, and removes it.
fn take_string_attr(attributes: &mut Vec<KeyValue>, key: &str) -> (r: Option<String>)
    ensures
        attr_views(final(attributes)@) == without_first(attr_views(old(attributes)@), key@),
        match first_text(attr_views(old(attributes)@), key@) {
            Some(text) => r matches Some(s) && s@ == text,
            None => r is None,
        },
{
    let at: usize = find_key(attributes, key);
    if at >= attributes.len() {
        return None;
    }
    proof {
        lemma_attr_views(attributes@);
        lemma_attr_views_remove(attributes@, at as int);
    }
    let removed = attributes.remove(at);
    match removed.value {
        Some(v) => match v.value {
            Some(Value::StringValue(s)) => Some(s),
            _ => None,
        },
        None => None,
    }
}

/// Reads the last attribute with this key as an integer, and removes all of that key.
fn take_int_attr(attributes: &mut Vec<KeyValue>, key: &str) -> (r: Option<i64>)
    ensures
        r == last_int(attr_views(old(attributes)@), key@),
        attr_views(final(attributes)@) == without_key(attr_views(old(attributes)@), key@),
{
    let ghost all = attributes@;
    let mut taken: Vec<KeyValue> = Vec::new();
    std::mem::swap(&mut taken, attributes);
    let mut found: Option<i64> = None;
    let mut kept: Vec<KeyValue> = Vec::new();
    proof {
        reveal(Seq::filter);
        assert(all.take(0) =~= Seq::<KeyValue>::empty());
    }
    for kv in it: taken.into_iter()
        invariant
            it.seq() == all,
            found == last_int(attr_views(all.take(it.index())), key@),
            attr_views(kept@) == without_key(attr_views(all.take(it.index())), key@),
    {
        proof {
            let n = it.index();
            assert(all.take(n + 1) =~= all.take(n).push(kv));
            lemma_attr_views_push(all.take(n), kv);
            lemma_without_key_push(attr_views(all.take(n)), kv.view(), key@);
            assert(attr_views(all.take(n)).push(kv.view()).drop_last() =~= attr_views(all.take(n)));
            lemma_attr_views_push(kept@, kv);
        }
        if same_text(kv.key.as_str(), key) {
            found = as_int(&kv);
        } else {
            kept.push(kv);
        }
    }
    proof {
        assert(all.take(all.len() as int) =~= all);
    }
    *attributes = kept;
    found
}

/// The attributes that a record goes through the flush with: the label and the internal values
/// taken off.
pub open spec fn flush_base(record: RecordView) -> Seq<AttrView> {
    without_key(
        without_key(without_first(record.attributes, ATTR_RESOLUTION@), ATTR_EVENT_BOOTTIME@),
        ATTR_RECEIPT_BOOTTIME@,
    )
}

/// The label the receipt pass left.
pub open spec fn carried_label(record: RecordView) -> Option<Seq<char>> {
    first_text(record.attributes, ATTR_RESOLUTION@)
}

/// The event boot time the receipt pass left.
pub open spec fn carried_event(record: RecordView) -> Option<i64> {
    last_int(without_first(record.attributes, ATTR_RESOLUTION@), ATTR_EVENT_BOOTTIME@)
}

/// The receipt boot time the receipt pass left.
pub open spec fn carried_receipt(record: RecordView) -> Option<i64> {
    last_int(
        without_key(without_first(record.attributes, ATTR_RESOLUTION@), ATTR_EVENT_BOOTTIME@),
        ATTR_RECEIPT_BOOTTIME@,
    )
}

/// Whether the receipt pass left the record with several explanations.
pub open spec fn is_ambiguous(record: RecordView) -> bool {
    has_key(without_first(record.attributes, ATTR_RESOLUTION@), ATTR_SPREAD_NS@)
}

/// Whether a flush rewrites the record: it carries a boot time, its label says so, and there is an
/// offset to project with.
pub open spec fn is_corrected(record: RecordView, correction: Option<Correction>) -> bool {
    &&& correction is Some
    &&& carried_event(record) is Some
    &&& carried_label(record) matches Some(label) && (Disposition::labelled(label) matches Some(d) && d.correctable())
}

/// The label that stays on a record. An ordinary record, corrected from a clock that was set and
/// with one explanation, keeps none: only an exceptional one does.
pub open spec fn kept_label(record: RecordView, correction: Option<Correction>, flush: Flush) -> Option<Seq<char>> {
    if !is_corrected(record, correction) || flush.uncertain || is_ambiguous(record) {
        carried_label(record)
    } else {
        None
    }
}

/// `s` with the marks of a flush behind it: the label, and that the clock was never set.
pub open spec fn marked(s: Seq<AttrView>, label: Option<Seq<char>>, uncertain: bool) -> Seq<AttrView> {
    let labelled = match label {
        Some(label) => s.push(text_mark(ATTR_RESOLUTION@, label)),
        None => s,
    };
    if uncertain {
        labelled.push(bool_mark(ATTR_UNCERTAIN@, true))
    } else {
        labelled
    }
}

/// The record after the flush.
#[verifier::opaque]
pub open spec fn corrected_record(record: RecordView, correction: Option<Correction>, flush: Flush) -> RecordView {
    let attributes = marked(flush_base(record), kept_label(record, correction, flush), flush.uncertain);
    if !is_corrected(record, correction) {
        RecordView { attributes, ..record }
    } else {
        let offset = correction->0.offset;
        let event = projected(carried_event(record)->0, offset);
        if record.time_unix_nano != 0 {
            RecordView {
                attributes,
                time_unix_nano: event,
                observed_time_unix_nano: match carried_receipt(record) {
                    Some(receipt) => projected(receipt, offset),
                    None => record.observed_time_unix_nano,
                },
                ..record
            }
        } else {
            RecordView { attributes, observed_time_unix_nano: event, ..record }
        }
    }
}

fn correct_record(record: &mut LogRecord, correction: Option<Correction>, flush: Flush) -> (r: bool)
    ensures
        r == is_corrected(old(record).view(), correction),
        final(record).view() == corrected_record(old(record).view(), correction, flush),
{
    proof {
        reveal(corrected_record);
    }
    let label = take_string_attr(&mut record.attributes, ATTR_RESOLUTION);
    let correctable = match &label {
        Some(text) => match Disposition::from_label(text.as_str()) {
            Some(d) => d.is_correctable(),
            None => false,
        },
        None => false,
    };
    let ambiguous = find_key(&record.attributes, ATTR_SPREAD_NS) < record.attributes.len();
    let event = take_int_attr(&mut record.attributes, ATTR_EVENT_BOOTTIME);
    let receipt = take_int_attr(&mut record.attributes, ATTR_RECEIPT_BOOTTIME);
    let ghost base = attr_views(record.attributes@);
    let mut applied = false;
    if correctable {
        if let Some(Correction { offset }) = correction {
            if let Some(event) = event {
                if record.time_unix_nano != 0 {
                    record.time_unix_nano = project(event, offset);
                    if let Some(receipt) = receipt {
                        record.observed_time_unix_nano = project(receipt, offset);
                    }
                } else {
                    record.observed_time_unix_nano = project(event, offset);
                }
                applied = true;
            }
        }
    }
    let exceptional = !applied || flush.uncertain || ambiguous;
    if exceptional {
        if let Some(text) = label {
            let mark = string_attr(ATTR_RESOLUTION, text.as_str());
            proof {
                lemma_attr_views_push(record.attributes@, mark);
            }
            record.attributes.push(mark);
        }
    }
    if flush.uncertain {
        let mark = bool_attr(ATTR_UNCERTAIN, true);
        proof {
            lemma_attr_views_push(record.attributes@, mark);
        }
        record.attributes.push(mark);
    }
    assert(attr_views(record.attributes@) == marked(
        base,
        kept_label(old(record).view(), correction, flush),
        flush.uncertain,
    ));
    applied
}

/// The flush on one record.
pub open spec fn flush_pass(correction: Option<Correction>, flush: Flush) -> spec_fn(RecordView) -> RecordView {
    |r: RecordView| corrected_record(r, correction, flush)
}

/// How many of the records a flush rewrites.
pub open spec fn corrected_count(s: Seq<RecordView>, correction: Option<Correction>) -> nat
    decreases s.len(),
{
    if s.len() == 0 {
        0
    } else {
        corrected_count(s.drop_last(), correction) + if is_corrected(s.last(), correction) { 1nat } else { 0nat }
    }
}

proof fn lemma_corrected_count_add(a: Seq<RecordView>, b: Seq<RecordView>, correction: Option<Correction>)
    ensures
        corrected_count(a + b, correction) == corrected_count(a, correction) + corrected_count(b, correction),
        corrected_count(b, correction) <= b.len(),
    decreases b.len(),
{
    if b.len() == 0 {
        assert(a + b =~= a);
    } else {
        lemma_corrected_count_add(a, b.drop_last(), correction);
        assert((a + b).drop_last() =~= a + b.drop_last());
    }
}

fn correct_scope(scope: &mut ScopeLogs, correction: Option<Correction>, flush: Flush) -> (r: u64)
    requires
        old(scope).log_records@.len() <= u64::MAX,
    ensures
        final(scope).view() == rewritten_scope(old(scope).view(), flush_pass(correction, flush)),
        r == corrected_count(old(scope).view().log_records, correction),
        r <= old(scope).log_records@.len(),
{
    let ghost f = flush_pass(correction, flush);
    let ghost before = scope.log_records@;
    let ghost views = record_views(before);
    let mut corrected: u64 = 0;
    let mut i: usize = 0;
    assert(views.take(0) =~= Seq::<RecordView>::empty());
    while i < scope.log_records.len()
        invariant
            i <= before.len(),
            before.len() <= u64::MAX,
            scope.log_records@.len() == before.len(),
            scope.scope == old(scope).scope,
            scope.schema_url == old(scope).schema_url,
            f == flush_pass(correction, flush),
            views == record_views(before),
            forall|j: int| 0 <= j < i ==> (#[trigger] scope.log_records@[j]).view() == f(before[j].view()),
            forall|j: int| i <= j < before.len() ==> #[trigger] scope.log_records@[j] == before[j],
            corrected == corrected_count(views.take(i as int), correction),
            corrected <= i,
        decreases before.len() - i,
    {
        proof {
            assert(views.take(i + 1).drop_last() =~= views.take(i as int));
            assert(views[i as int] == before[i as int].view());
        }
        if correct_record(&mut scope.log_records[i], correction, flush) {
            corrected += 1;
        }
        i += 1;
    }
    proof {
        assert(views.take(i as int) =~= views);
        assert(scope.view().log_records =~= rewritten_records(views, f));
    }
    corrected
}

fn correct_resource(resource: &mut ResourceLogs, correction: Option<Correction>, flush: Flush) -> (r: u64)
    requires
        scope_records(old(resource).view().scope_logs).len() <= u64::MAX,
    ensures
        final(resource).view() == rewritten_resource(old(resource).view(), flush_pass(correction, flush)),
        r == corrected_count(scope_records(old(resource).view().scope_logs), correction),
        r <= scope_records(old(resource).view().scope_logs).len(),
{
    let ghost f = flush_pass(correction, flush);
    let ghost before = resource.scope_logs@;
    let ghost views = scope_logs_views(before);
    let mut corrected: u64 = 0;
    let mut i: usize = 0;
    assert(views.take(0) =~= Seq::<ScopeLogsView>::empty());
    while i < resource.scope_logs.len()
        invariant
            i <= before.len(),
            resource.scope_logs@.len() == before.len(),
            resource.resource == old(resource).resource,
            resource.schema_url == old(resource).schema_url,
            f == flush_pass(correction, flush),
            views == scope_logs_views(before),
            forall|j: int| 0 <= j < i ==> (#[trigger] resource.scope_logs@[j]).view() == rewritten_scope(before[j].view(), f),
            forall|j: int| i <= j < before.len() ==> #[trigger] resource.scope_logs@[j] == before[j],
            corrected == corrected_count(scope_records(views.take(i as int)), correction),
            corrected <= scope_records(views.take(i as int)).len(),
            scope_records(views).len() <= u64::MAX,
        decreases before.len() - i,
    {
        proof {
            assert(views.take(i + 1).drop_last() =~= views.take(i as int));
            lemma_scope_records_prefix(views, i + 1);
            assert(views[i as int] == before[i as int].view());
            lemma_corrected_count_add(
                scope_records(views.take(i as int)),
                views[i as int].log_records,
                correction,
            );
        }
        corrected += correct_scope(&mut resource.scope_logs[i], correction, flush);
        i += 1;
    }
    proof {
        assert(views.take(i as int) =~= views);
        assert(resource.view().scope_logs =~= rewritten_resource(old(resource).view(), f).scope_logs);
    }
    corrected
}

/// Flush pass: projects every carried boot time into wall-clock time with one offset, and takes
/// the internal attributes off. Without a correction there is nothing to project with, and the
/// records ship with their original stamps. Returns how many records it rewrote.
pub fn apply_correction(
    request: &mut LogsRequest,
    correction: Option<Correction>,
    flush: Flush,
) -> (r: u64)
    requires
        all_records(old(request).view()).len() <= u64::MAX,
    ensures
        final(request).view() == rewritten(old(request).view(), flush_pass(correction, flush)),
        r == corrected_count(all_records(old(request).view()), correction),
{
    let ghost f = flush_pass(correction, flush);
    let ghost before = request.resource_logs@;
    let ghost views = resource_logs_views(before);
    let mut corrected: u64 = 0;
    let mut i: usize = 0;
    assert(views.take(0) =~= Seq::<ResourceLogsView>::empty());
    while i < request.resource_logs.len()
        invariant
            i <= before.len(),
            request.resource_logs@.len() == before.len(),
            f == flush_pass(correction, flush),
            views == resource_logs_views(before),
            forall|j: int| 0 <= j < i ==> (#[trigger] request.resource_logs@[j]).view() == rewritten_resource(before[j].view(), f),
            forall|j: int| i <= j < before.len() ==> #[trigger] request.resource_logs@[j] == before[j],
            corrected == corrected_count(all_records(views.take(i as int)), correction),
            corrected <= all_records(views.take(i as int)).len(),
            all_records(views).len() <= u64::MAX,
        decreases before.len() - i,
    {
        proof {
            assert(views.take(i + 1).drop_last() =~= views.take(i as int));
            lemma_all_records_prefix(views, i + 1);
            assert(views[i as int] == before[i as int].view());
            lemma_corrected_count_add(
                all_records(views.take(i as int)),
                scope_records(views[i as int].scope_logs),
                correction,
            );
        }
        corrected += correct_resource(&mut request.resource_logs[i], correction, flush);
        i += 1;
    }
    proof {
        assert(views.take(i as int) =~= views);
        assert(request.view() =~= rewritten(old(request).view(), f));
    }
    corrected
}

} // verus!
