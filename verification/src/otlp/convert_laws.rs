//! What a request's measurements say, told by what its records say.

use vstd::prelude::*;

use crate::json::{Number, Value};
use crate::model::MeasurementView;
use crate::otlp::anyvalue::{base64_of, json_items, json_members, json_of, json_of_attr};
use crate::otlp::convert::{
    last_value, law_attributes_never_collide, member, merged_attributes, reason_of, record_measurements,
    request_measurements, resource_attributes, scope_attributes, scope_measurements, skipped, with_prefixed, Reason,
    RECORD_PREFIX, RESOURCE_PREFIX, SCOPE_NAME, SCOPE_PREFIX, SCOPE_VERSION,
};
use crate::otlp::proto::{
    all_records, scope_records, AnyView, AttrView, RecordView, ResourceLogsView, ScopeLogsView, ScopeView,
};
use crate::text::begins_with;

verus! {

/// Whether an attribute is the last with its key.
pub open spec fn is_last(attrs: Seq<AttrView>, i: int) -> bool {
    &&& 0 <= i < attrs.len()
    &&& forall|j: int| i < j < attrs.len() ==> (#[trigger] attrs[j]).key != attrs[i].key
}

/// Whether an attribute has this key.
pub open spec fn has_key(attrs: Seq<AttrView>, key: Seq<char>) -> bool {
    exists|i: int| 0 <= i < attrs.len() && (#[trigger] attrs[i]).key == key
}

/// Whether a JSON value says what a value says. Numbers are exact; a double that JSON has no number
/// for is named; a list of attributes is an object with one member for each key, which says what the
/// last value with the key says; bytes are base64; and what has no value is null.
pub open spec fn says(j: Value, v: AnyView) -> bool
    decreases v,
{
    match v {
        AnyView::Unset => j == Value::Null,
        AnyView::Text(s) => j == Value::Str(s),
        AnyView::Bool(b) => j == Value::Bool(b),
        AnyView::Int(i) => j == Value::Number(Number::Int(i)),
        AnyView::Double(bits) => {
            let exponent = (bits / 0x10_0000_0000_0000) % 0x800;
            let fraction = bits % 0x10_0000_0000_0000;
            if exponent < 0x7ff {
                j == Value::Number(Number::Float(bits))
            } else if fraction != 0 {
                j == Value::Str("NaN"@)
            } else if bits < 0x8000_0000_0000_0000 {
                j == Value::Str("Infinity"@)
            } else {
                j == Value::Str("-Infinity"@)
            }
        },
        AnyView::Array(items) => {
            &&& j is Array
            &&& j->Array_0.len() == items.len()
            &&& forall|i: int| 0 <= i < items.len() ==> says(#[trigger] j->Array_0[i], items[i])
        },
        AnyView::List(attrs) => {
            &&& j is Object
            &&& forall|key: Seq<char>| #[trigger] j->Object_0.contains_key(key) <==> has_key(attrs, key)
            &&& forall|i: int|
                0 <= i < attrs.len() && is_last(attrs, i) ==> match (#[trigger] attrs[i]).value {
                    None => j->Object_0[attrs[i].key] == Value::Null,
                    Some(inner) => says(j->Object_0[attrs[i].key], inner),
                }
        },
        AnyView::Bytes(b) => j == Value::Str(base64_of(b)),
        AnyView::Strindex(_) => j == Value::Null,
    }
}

/// Whether a JSON value says what an attribute says.
pub open spec fn says_attr(j: Value, attr: AttrView) -> bool {
    match attr.value {
        None => j == Value::Null,
        Some(v) => says(j, v),
    }
}

proof fn lemma_items(items: Seq<AnyView>)
    ensures
        json_items(items).len() == items.len(),
        forall|i: int| 0 <= i < items.len() ==> #[trigger] json_items(items)[i] == json_of(items[i]),
    decreases items.len(),
{
    if items.len() > 0 {
        lemma_items(items.drop_last());
    }
}

proof fn lemma_members(attrs: Seq<AttrView>)
    ensures
        forall|key: Seq<char>| #[trigger] json_members(attrs).contains_key(key) <==> has_key(attrs, key),
        forall|i: int| #[trigger]
            is_last(attrs, i) ==> json_members(attrs)[attrs[i].key] == json_of_attr(attrs[i]),
    decreases attrs.len(),
{
    if attrs.len() > 0 {
        let front = attrs.drop_last();
        lemma_members(front);
        assert forall|key: Seq<char>| #[trigger] json_members(attrs).contains_key(key) <==> has_key(attrs, key) by {
            assert(json_members(front).contains_key(key) <==> has_key(front, key));
            if has_key(attrs, key) {
                let i = choose|i: int| 0 <= i < attrs.len() && (#[trigger] attrs[i]).key == key;
                if i < front.len() {
                    assert(front[i].key == key);
                }
            }
            if has_key(front, key) {
                let i = choose|i: int| 0 <= i < front.len() && (#[trigger] front[i]).key == key;
                assert(attrs[i].key == key);
            }
            if attrs.last().key == key {
                assert(attrs[attrs.len() - 1].key == key);
            }
        }
        assert forall|i: int| #[trigger] is_last(attrs, i) implies json_members(attrs)[attrs[i].key] == json_of_attr(
            attrs[i],
        ) by {
            if i < front.len() {
                assert(attrs[attrs.len() - 1].key != attrs[i].key);
                assert(is_last(front, i)) by {
                    assert forall|j: int| i < j < front.len() implies (#[trigger] front[j]).key != front[i].key by {
                        assert(attrs[j].key != attrs[i].key);
                    }
                }
            }
        }
    }
}

/// Every value is said in JSON as it is.
pub proof fn law_values_are_said_as_they_are(v: AnyView)
    ensures
        says(json_of(v), v),
    decreases v,
{
    match v {
        AnyView::Array(items) => {
            lemma_items(items);
            assert forall|i: int| 0 <= i < items.len() implies says(#[trigger] json_of(v)->Array_0[i], items[i]) by {
                law_values_are_said_as_they_are(items[i]);
            }
        },
        AnyView::List(attrs) => {
            lemma_members(attrs);
            assert forall|i: int| 0 <= i < attrs.len() && is_last(attrs, i) implies match (#[trigger] attrs[i]).value {
                None => json_of(v)->Object_0[attrs[i].key] == Value::Null,
                Some(inner) => says(json_of(v)->Object_0[attrs[i].key], inner),
            } by {
                if let Some(inner) = attrs[i].value {
                    law_values_are_said_as_they_are(inner);
                }
            }
        },
        _ => {},
    }
}

/// A record, and what it stands under.
pub struct Placed {
    pub resource: Seq<AttrView>,
    pub scope: Option<ScopeView>,
    pub record: RecordView,
}

/// The attributes of a resource, if there is one.
pub open spec fn resource_of(logs: ResourceLogsView) -> Seq<AttrView> {
    match logs.resource {
        None => Seq::empty(),
        Some(resource) => resource.attributes,
    }
}

/// The records of some scopes under a resource, in order.
pub open spec fn placed_in_scopes(resource: Seq<AttrView>, scopes: Seq<ScopeLogsView>) -> Seq<Placed>
    decreases scopes.len(),
{
    if scopes.len() == 0 {
        Seq::empty()
    } else {
        let last = scopes.last();
        placed_in_scopes(resource, scopes.drop_last()) + last.log_records.map_values(
            |record: RecordView| Placed { resource, scope: last.scope, record },
        )
    }
}

/// The records of a request, in order, each with what it stands under.
pub open spec fn placed(request: Seq<ResourceLogsView>) -> Seq<Placed>
    decreases request.len(),
{
    if request.len() == 0 {
        Seq::empty()
    } else {
        placed(request.drop_last()) + placed_in_scopes(resource_of(request.last()), request.last().scope_logs)
    }
}

/// Whether a record has a name and a time.
pub open spec fn is_complete(record: RecordView) -> bool {
    record.event_name.len() > 0 && (record.time_unix_nano != 0 || record.observed_time_unix_nano != 0)
}

/// Those with a name and a time.
pub open spec fn complete_ones(s: Seq<Placed>) -> Seq<Placed> {
    s.filter(|p: Placed| is_complete(p.record))
}

/// Those without a name.
pub open spec fn nameless_ones(s: Seq<Placed>) -> Seq<Placed> {
    s.filter(|p: Placed| p.record.event_name.len() == 0)
}

/// Those with a name and without a time.
pub open spec fn timeless_ones(s: Seq<Placed>) -> Seq<Placed> {
    s.filter(
        |p: Placed|
            p.record.event_name.len() > 0 && p.record.time_unix_nano == 0 && p.record.observed_time_unix_nano == 0,
    )
}

/// What a scope says, where there is one.
pub open spec fn scope_said(scope: Option<ScopeView>) -> ScopeView {
    match scope {
        Some(scope) => scope,
        None => ScopeView {
            name: Seq::empty(),
            version: Seq::empty(),
            attributes: Seq::empty(),
            dropped_attributes_count: 0,
        },
    }
}

/// Whether a key is one that a record has an attribute under, or its resource, or its scope.
pub open spec fn is_given(p: Placed, key: Seq<char>) -> bool {
    let scope = scope_said(p.scope);
    ||| exists|k: Seq<char>| key == "resource.attributes."@ + k && #[trigger] has_key(p.resource, k)
    ||| exists|k: Seq<char>| key == "scope.attributes."@ + k && #[trigger] has_key(scope.attributes, k)
    ||| exists|k: Seq<char>| key == "record.attributes."@ + k && #[trigger] has_key(p.record.attributes, k)
    ||| key == "scope.name"@ && scope.name.len() > 0
    ||| key == "scope.version"@ && scope.version.len() > 0
}

/// Whether the members under a prefix say what the attributes say, the last with each key.
pub open spec fn carries(m: Map<Seq<char>, Value>, prefix: Seq<char>, attrs: Seq<AttrView>) -> bool {
    forall|i: int| #[trigger] is_last(attrs, i) ==> says_attr(m[prefix + attrs[i].key], attrs[i])
}

/// Whether a measurement says what a record says, and what stands above it.
pub open spec fn describes(m: MeasurementView, p: Placed, processed_time: i64) -> bool {
    let scope = scope_said(p.scope);
    &&& m.kind == p.record.event_name
    &&& m.event_time == if p.record.time_unix_nano != 0 {
        p.record.time_unix_nano as i64
    } else {
        p.record.observed_time_unix_nano as i64
    }
    &&& m.processed_time == processed_time
    &&& match (p.record.body, m.body) {
        (None, None) => true,
        (Some(v), Some(j)) => says(j, v),
        _ => false,
    }
    &&& forall|key: Seq<char>| #[trigger] m.attributes.contains_key(key) <==> is_given(p, key)
    &&& carries(m.attributes, "resource.attributes."@, p.resource)
    &&& carries(m.attributes, "scope.attributes."@, scope.attributes)
    &&& carries(m.attributes, "record.attributes."@, p.record.attributes)
    &&& scope.name.len() > 0 ==> m.attributes["scope.name"@] == Value::Str(scope.name)
    &&& scope.version.len() > 0 ==> m.attributes["scope.version"@] == Value::Str(scope.version)
}

/// The measurements of a request are its records with a name and a time, each of them once and in
/// order; each has the record's name and time, a body exactly where the record has one, which says what
/// that says, and the attributes of the record and of what it stands under, and no others. The records
/// that are left out are counted, each under the first reason there is.
pub proof fn law_measurements_say_what_records_say(request: Seq<ResourceLogsView>, processed_time: i64)
    ensures
        ({
            let ms = request_measurements(request, processed_time);
            let ps = complete_ones(placed(request));
            &&& ms.len() == ps.len()
            &&& forall|i: int| 0 <= i < ms.len() ==> describes(#[trigger] ms[i], ps[i], processed_time)
        }),
        skipped(all_records(request), Reason::MissingEventName) == nameless_ones(placed(request)).len(),
        skipped(all_records(request), Reason::MissingTimestamp) == timeless_ones(placed(request)).len(),
    decreases request.len(),
{
    reveal(Seq::filter);
    if request.len() > 0 {
        let front = request.drop_last();
        let last = request.last();
        law_measurements_say_what_records_say(front, processed_time);
        lemma_scopes(resource_of(last), last.scope_logs, processed_time);
        let a = placed(front);
        let b = placed_in_scopes(resource_of(last), last.scope_logs);
        assert(resource_attributes(last) == with_prefixed(Map::empty(), RESOURCE_PREFIX@, resource_of(last)));
        lemma_kinds_of_two(a, b);
        lemma_skipped_of_two(all_records(front), scope_records(last.scope_logs));
        let ms = request_measurements(request, processed_time);
        let m1 = request_measurements(front, processed_time);
        let m2 = scope_measurements(last.scope_logs, resource_attributes(last), processed_time);
        let ps = complete_ones(placed(request));
        assert forall|i: int| 0 <= i < ms.len() implies describes(#[trigger] ms[i], ps[i], processed_time) by {
            if i < m1.len() {
                assert(ms[i] == m1[i] && ps[i] == complete_ones(a)[i]);
            } else {
                assert(ms[i] == m2[i - m1.len()] && ps[i] == complete_ones(b)[i - m1.len()]);
            }
        }
    }
}

proof fn lemma_kinds_of_two(a: Seq<Placed>, b: Seq<Placed>)
    ensures
        complete_ones(a + b) == complete_ones(a) + complete_ones(b),
        nameless_ones(a + b) == nameless_ones(a) + nameless_ones(b),
        timeless_ones(a + b) == timeless_ones(a) + timeless_ones(b),
{
    broadcast use Seq::filter_distributes_over_add;

}

proof fn lemma_skipped_of_two(a: Seq<RecordView>, b: Seq<RecordView>)
    ensures
        forall|reason: Reason| #[trigger] skipped(a + b, reason) == skipped(a, reason) + skipped(b, reason),
    decreases b.len(),
{
    if b.len() == 0 {
        assert(a + b =~= a);
    } else {
        lemma_skipped_of_two(a, b.drop_last());
        assert((a + b).drop_last() =~= a + b.drop_last());
        assert((a + b).last() == b.last());
        assert forall|reason: Reason| #[trigger] skipped(a + b, reason) == skipped(a, reason) + skipped(b, reason) by {
            assert(skipped(a + b.drop_last(), reason) == skipped(a, reason) + skipped(b.drop_last(), reason));
        }
    }
}

proof fn lemma_scopes(resource: Seq<AttrView>, scopes: Seq<ScopeLogsView>, processed_time: i64)
    ensures
        ({
            let base = with_prefixed(Map::empty(), RESOURCE_PREFIX@, resource);
            let ms = scope_measurements(scopes, base, processed_time);
            let ps = complete_ones(placed_in_scopes(resource, scopes));
            &&& ms.len() == ps.len()
            &&& forall|i: int| 0 <= i < ms.len() ==> describes(#[trigger] ms[i], ps[i], processed_time)
        }),
        skipped(scope_records(scopes), Reason::MissingEventName) == nameless_ones(
            placed_in_scopes(resource, scopes),
        ).len(),
        skipped(scope_records(scopes), Reason::MissingTimestamp) == timeless_ones(
            placed_in_scopes(resource, scopes),
        ).len(),
    decreases scopes.len(),
{
    reveal(Seq::filter);
    if scopes.len() > 0 {
        let front = scopes.drop_last();
        let last = scopes.last();
        let base = with_prefixed(Map::empty(), RESOURCE_PREFIX@, resource);
        lemma_scopes(resource, front, processed_time);
        lemma_records(resource, last.scope, last.log_records, processed_time);
        let a = placed_in_scopes(resource, front);
        let b = last.log_records.map_values(|record: RecordView| Placed { resource, scope: last.scope, record });
        lemma_kinds_of_two(a, b);
        lemma_skipped_of_two(scope_records(front), last.log_records);
        let ms = scope_measurements(scopes, base, processed_time);
        let m1 = scope_measurements(front, base, processed_time);
        let m2 = record_measurements(last.log_records, scope_attributes(base, last.scope), processed_time);
        let ps = complete_ones(placed_in_scopes(resource, scopes));
        assert forall|i: int| 0 <= i < ms.len() implies describes(#[trigger] ms[i], ps[i], processed_time) by {
            if i < m1.len() {
                assert(ms[i] == m1[i] && ps[i] == complete_ones(a)[i]);
            } else {
                assert(ms[i] == m2[i - m1.len()] && ps[i] == complete_ones(b)[i - m1.len()]);
            }
        }
    }
}

proof fn lemma_records(resource: Seq<AttrView>, scope: Option<ScopeView>, records: Seq<RecordView>, processed_time: i64)
    ensures
        ({
            let base = scope_attributes(with_prefixed(Map::empty(), RESOURCE_PREFIX@, resource), scope);
            let all = records.map_values(|record: RecordView| Placed { resource, scope, record });
            let ms = record_measurements(records, base, processed_time);
            let ps = complete_ones(all);
            &&& ms.len() == ps.len()
            &&& forall|i: int| 0 <= i < ms.len() ==> describes(#[trigger] ms[i], ps[i], processed_time)
            &&& skipped(records, Reason::MissingEventName) == nameless_ones(all).len()
            &&& skipped(records, Reason::MissingTimestamp) == timeless_ones(all).len()
        }),
    decreases records.len(),
{
    reveal(Seq::filter);
    if records.len() > 0 {
        let front = records.drop_last();
        let record = records.last();
        let p = Placed { resource, scope, record };
        lemma_records(resource, scope, front, processed_time);
        let all = records.map_values(|record: RecordView| Placed { resource, scope, record });
        let some = front.map_values(|record: RecordView| Placed { resource, scope, record });
        assert(all.drop_last() =~= some);
        assert(all.last() == p);
        if is_complete(record) {
            lemma_describes(resource, scope, record, processed_time);
        }
    }
}

proof fn lemma_last_value(attrs: Seq<AttrView>, key: Seq<char>)
    ensures
        last_value(attrs, key) is Some <==> has_key(attrs, key),
        forall|i: int| #[trigger]
            is_last(attrs, i) && attrs[i].key == key ==> last_value(attrs, key) == Some(json_of_attr(attrs[i])),
    decreases attrs.len(),
{
    if attrs.len() > 0 {
        let front = attrs.drop_last();
        lemma_last_value(front, key);
        if has_key(front, key) {
            let i = choose|i: int| 0 <= i < front.len() && (#[trigger] front[i]).key == key;
            assert(attrs[i].key == key);
        }
        if has_key(attrs, key) {
            let i = choose|i: int| 0 <= i < attrs.len() && (#[trigger] attrs[i]).key == key;
            if i < front.len() {
                assert(front[i].key == key);
            }
        }
        if attrs.last().key == key {
            assert(attrs[attrs.len() - 1].key == key);
        }
        assert forall|i: int| #[trigger] is_last(attrs, i) && attrs[i].key == key implies last_value(attrs, key)
            == Some(json_of_attr(attrs[i])) by {
            if i < front.len() {
                assert(attrs[attrs.len() - 1].key != attrs[i].key);
                assert(is_last(front, i)) by {
                    assert forall|j: int| i < j < front.len() implies (#[trigger] front[j]).key != front[i].key by {
                        assert(attrs[j].key != attrs[i].key);
                    }
                }
            }
        }
    }
}

proof fn lemma_says_attr(attr: AttrView)
    ensures
        says_attr(json_of_attr(attr), attr),
{
    if let Some(v) = attr.value {
        law_values_are_said_as_they_are(v);
    }
}

proof fn lemma_carries(m: Map<Seq<char>, Value>, prefix: Seq<char>, attrs: Seq<AttrView>)
    requires
        forall|key: Seq<char>| member(m, #[trigger] (prefix + key)) == last_value(attrs, key),
    ensures
        carries(m, prefix, attrs),
{
    assert forall|i: int| #[trigger] is_last(attrs, i) implies says_attr(m[prefix + attrs[i].key], attrs[i]) by {
        let key = attrs[i].key;
        lemma_last_value(attrs, key);
        assert(member(m, prefix + key) == last_value(attrs, key));
        lemma_says_attr(attrs[i]);
    }
}

proof fn lemma_describes(resource: Seq<AttrView>, scope: Option<ScopeView>, record: RecordView, processed_time: i64)
    requires
        is_complete(record),
    ensures
        ({
            let base = scope_attributes(with_prefixed(Map::empty(), RESOURCE_PREFIX@, resource), scope);
            describes(
                crate::otlp::convert::measurement_of(record, base, processed_time),
                Placed { resource, scope, record },
                processed_time,
            )
        }),
{
    let first = with_prefixed(Map::<Seq<char>, Value>::empty(), RESOURCE_PREFIX@, resource);
    let base = scope_attributes(first, scope);
    let said = scope_said(scope);
    assert(base == scope_attributes(first, Some(said)));
    let m = crate::otlp::convert::measurement_of(record, base, processed_time);
    let p = Placed { resource, scope, record };
    let merged = merged_attributes(resource, said, record.attributes);
    assert(m.attributes == merged);
    if let Some(v) = record.body {
        law_values_are_said_as_they_are(v);
    }
    assert forall|key: Seq<char>| member(merged, #[trigger] ("resource.attributes."@ + key)) == last_value(
        resource,
        key,
    ) by {
        law_attributes_never_collide(resource, said, record.attributes, key);
    }
    assert forall|key: Seq<char>| member(merged, #[trigger] ("scope.attributes."@ + key)) == last_value(
        said.attributes,
        key,
    ) by {
        law_attributes_never_collide(resource, said, record.attributes, key);
    }
    assert forall|key: Seq<char>| member(merged, #[trigger] ("record.attributes."@ + key)) == last_value(
        record.attributes,
        key,
    ) by {
        law_attributes_never_collide(resource, said, record.attributes, key);
    }
    lemma_carries(merged, "resource.attributes."@, resource);
    lemma_carries(merged, "scope.attributes."@, said.attributes);
    lemma_carries(merged, "record.attributes."@, record.attributes);
    law_attributes_never_collide(resource, said, record.attributes, Seq::empty());
    assert forall|key: Seq<char>| #[trigger] merged.contains_key(key) <==> is_given(p, key) by {
        lemma_given(p, key);
    }
}

proof fn lemma_given(p: Placed, key: Seq<char>)
    ensures
        merged_attributes(p.resource, scope_said(p.scope), p.record.attributes).contains_key(key) <==> is_given(p, key),
{
    let said = scope_said(p.scope);
    let record = p.record.attributes;
    let merged = merged_attributes(p.resource, said, record);
    law_attributes_never_collide(p.resource, said, record, key);
    if merged.contains_key(key) {
        if begins_with(key, RESOURCE_PREFIX@) {
            let k = key.skip(RESOURCE_PREFIX@.len() as int);
            assert(key =~= "resource.attributes."@ + k);
            law_attributes_never_collide(p.resource, said, record, k);
            lemma_last_value(p.resource, k);
            assert(has_key(p.resource, k));
        } else if begins_with(key, SCOPE_PREFIX@) {
            let k = key.skip(SCOPE_PREFIX@.len() as int);
            assert(key =~= "scope.attributes."@ + k);
            law_attributes_never_collide(p.resource, said, record, k);
            lemma_last_value(said.attributes, k);
            assert(has_key(said.attributes, k));
        } else if begins_with(key, RECORD_PREFIX@) {
            let k = key.skip(RECORD_PREFIX@.len() as int);
            assert(key =~= "record.attributes."@ + k);
            law_attributes_never_collide(p.resource, said, record, k);
            lemma_last_value(record, k);
            assert(has_key(record, k));
        }
    }
    if is_given(p, key) {
        if exists|k: Seq<char>| key == "resource.attributes."@ + k && #[trigger] has_key(p.resource, k) {
            let k = choose|k: Seq<char>| key == "resource.attributes."@ + k && #[trigger] has_key(p.resource, k);
            law_attributes_never_collide(p.resource, said, record, k);
            lemma_last_value(p.resource, k);
        } else if exists|k: Seq<char>| key == "scope.attributes."@ + k && #[trigger] has_key(said.attributes, k) {
            let k = choose|k: Seq<char>| key == "scope.attributes."@ + k && #[trigger] has_key(said.attributes, k);
            law_attributes_never_collide(p.resource, said, record, k);
            lemma_last_value(said.attributes, k);
        } else if exists|k: Seq<char>| key == "record.attributes."@ + k && #[trigger] has_key(record, k) {
            let k = choose|k: Seq<char>| key == "record.attributes."@ + k && #[trigger] has_key(record, k);
            law_attributes_never_collide(p.resource, said, record, k);
            lemma_last_value(record, k);
        }
    }
}

} // verus!
