use monitoring_platform::json::{Json, Object};
use monitoring_platform::otlp::compose::{kv_absent, kv_str, record, request};
use monitoring_platform::otlp::convert::{to_measurements, Reason};
use monitoring_platform::otlp::proto::AnyValue;

const T: i64 = 1_785_489_242_123_456_789;
const P: i64 = 1_785_489_242_170_000_000;

fn at<'a>(object: &'a Object, key: &str) -> &'a Json {
    object.get(key).unwrap()
}

#[test]
fn maps_a_minimal_record() {
    let req = request(vec![], "", "", vec![], vec![record("gps", T, 0, None, vec![])]);
    let (ms, rej) = to_measurements(&req, P);
    assert!(rej.is_empty());
    assert_eq!(ms.len(), 1);
    assert_eq!(ms[0].kind, "gps");
    assert_eq!(ms[0].event_time, T);
    assert_eq!(ms[0].processed_time, P);
    assert_eq!(ms[0].body, None);
    assert!(ms[0].attributes.len() == 0);
}

#[test]
fn attributes_get_structural_prefixes() {
    let req = request(
        vec![kv_str("device.id", "dev-7")],
        "sensors",
        "0.3.1",
        vec![kv_str("lib", "s")],
        vec![record("cpu", T, 0, None, vec![kv_str("unit", "ratio")])],
    );
    let (ms, _) = to_measurements(&req, P);
    let a = &ms[0].attributes;
    assert_eq!(*at(a, "resource.attributes.device.id"), Json::Str("dev-7".to_owned()));
    assert_eq!(*at(a, "scope.name"), Json::Str("sensors".to_owned()));
    assert_eq!(*at(a, "scope.version"), Json::Str("0.3.1".to_owned()));
    assert_eq!(*at(a, "scope.attributes.lib"), Json::Str("s".to_owned()));
    assert_eq!(*at(a, "record.attributes.unit"), Json::Str("ratio".to_owned()));
}

#[test]
fn empty_scope_name_and_version_are_omitted() {
    let req = request(vec![], "", "", vec![], vec![record("cpu", T, 0, None, vec![])]);
    let (ms, _) = to_measurements(&req, P);
    assert!(!ms[0].attributes.get("scope.name").is_some());
    assert!(!ms[0].attributes.get("scope.version").is_some());
}

#[test]
fn collisions_are_structurally_impossible() {
    let req = request(
        vec![kv_str("attributes", "r-attrs")],
        "real-scope",
        "1.0",
        vec![kv_str("name", "not-the-scope-name"), kv_str("version", "not-the-version")],
        vec![record("t", T, 0, None, vec![kv_str("attributes", "rec-attrs")])],
    );
    let (ms, _) = to_measurements(&req, P);
    let a = &ms[0].attributes;
    assert_eq!(*at(a, "scope.name"), Json::Str("real-scope".to_owned()));
    assert_eq!(*at(a, "scope.version"), Json::Str("1.0".to_owned()));
    assert_eq!(*at(a, "scope.attributes.name"), Json::Str("not-the-scope-name".to_owned()));
    assert_eq!(*at(a, "scope.attributes.version"), Json::Str("not-the-version".to_owned()));
    assert_eq!(*at(a, "resource.attributes.attributes"), Json::Str("r-attrs".to_owned()));
    assert_eq!(*at(a, "record.attributes.attributes"), Json::Str("rec-attrs".to_owned()));
    assert_eq!(a.len(), 6, "an input was lost or merged: {a:?}");
}

#[test]
fn absent_attribute_value_becomes_null_and_keeps_the_key() {
    let req = request(
        vec![],
        "",
        "",
        vec![],
        vec![record("t", T, 0, None, vec![kv_absent("k")])],
    );
    let (ms, _) = to_measurements(&req, P);
    assert_eq!(*at(&ms[0].attributes, "record.attributes.k"), Json::Null);
}

#[test]
fn event_time_falls_back_to_observed_then_rejects() {
    let (ms, _) = to_measurements(
        &request(vec![], "", "", vec![], vec![record("t", T, 999, None, vec![])]),
        P,
    );
    assert_eq!(ms[0].event_time, T, "time_unix_nano must win when set");

    let (ms, _) = to_measurements(
        &request(vec![], "", "", vec![], vec![record("t", 0, 999, None, vec![])]),
        P,
    );
    assert_eq!(ms[0].event_time, 999, "must fall back to observed_time_unix_nano");

    let (ms, rej) = to_measurements(
        &request(vec![], "", "", vec![], vec![record("t", 0, 0, None, vec![])]),
        P,
    );
    assert!(ms.is_empty());
    assert_eq!(rej.missing_timestamp, 1);
    assert_ne!(ms.first().map(|m| m.event_time), Some(P), "must not fabricate from arrival time");
}

#[test]
fn mixed_batch_rejects_selectively_and_counts_once() {
    let req = request(
        vec![],
        "",
        "",
        vec![],
        vec![
            record("ok", T, 0, None, vec![]),
            record("", T, 0, None, vec![]),   // no event_name
            record("t", 0, 0, None, vec![]),  // no timestamp
            record("", 0, 0, None, vec![]),   // both: counted once, as missing event_name
        ],
    );
    let (ms, rej) = to_measurements(&req, P);
    assert_eq!(ms.len(), 1);
    assert_eq!(ms[0].kind, "ok");
    assert_eq!(rej.missing_event_name, 2);
    assert_eq!(rej.missing_timestamp, 1);
    assert_eq!(rej.total(), 3, "a record failing both checks must count once");
}

#[test]
fn absent_body_and_unset_body_are_distinguishable() {
    let unset = AnyValue { value: None };
    let req = request(
        vec![],
        "",
        "",
        vec![],
        vec![
            record("a", T, 0, None, vec![]),
            record("b", T, 0, Some(unset), vec![]),
        ],
    );
    let (ms, _) = to_measurements(&req, P);
    assert_eq!(ms[0].body, None, "no body message at all");
    assert_eq!(ms[1].body, Some(Json::Null), "body message present, value unset");
}

#[test]
fn walks_multiple_resources_and_scopes() {
    let mut req = request(
        vec![kv_str("a", "1")],
        "s1",
        "",
        vec![],
        vec![record("x", T, 0, None, vec![])],
    );
    let second = request(
        vec![kv_str("a", "2")],
        "s2",
        "",
        vec![],
        vec![record("y", T, 0, None, vec![])],
    );
    req.resource_logs.extend(second.resource_logs);

    let (ms, _) = to_measurements(&req, P);
    assert_eq!(ms.len(), 2);
    assert_eq!(*at(&ms[0].attributes, "resource.attributes.a"), Json::Str("1".to_owned()));
    assert_eq!(*at(&ms[0].attributes, "scope.name"), Json::Str("s1".to_owned()));
    assert_eq!(*at(&ms[1].attributes, "resource.attributes.a"), Json::Str("2".to_owned()));
    assert_eq!(*at(&ms[1].attributes, "scope.name"), Json::Str("s2".to_owned()));
}

#[test]
fn each_reason_is_worded() {
    assert_ne!(Reason::MissingEventName.as_str(), Reason::MissingTimestamp.as_str());
}
