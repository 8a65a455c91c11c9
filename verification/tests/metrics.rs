use monitoring_platform::collector::metrics::{to_request, Health, EVENT_NAME, SERVICE_NAME};
use monitoring_platform::otlp::proto::{LogsRequest, Value};
use monitoring_platform::time::Duration;

fn body_of(request: &LogsRequest) -> Vec<(String, &Value)> {
    let record = &request.resource_logs[0].scope_logs[0].log_records[0];
    match record.body.as_ref().unwrap().value.as_ref().unwrap() {
        Value::KvlistValue(list) => list
            .values
            .iter()
            .map(|kv| (kv.key.clone(), kv.value.as_ref().unwrap().value.as_ref().unwrap()))
            .collect(),
        other => panic!("expected a kvlist body, got {other:?}"),
    }
}

fn health() -> Health {
    Health {
        max_error_micros: 2_000,
        since_last_step: Some(Duration::from_secs(42)),
        steps: 1,
        disciplined: true,
        epochs: 2,
        resolved_exact: 100,
        resolved_ambiguous: 2,
        resolved_passthrough: 7,
        resolved_authoritative: 1,
        buffered_records: 0,
        oldest_buffered: Duration::zero(),
        forwarded_batches: 33,
        shed_batches: 0,
    }
}

#[test]
fn it_is_a_conforming_otlp_event() {
    let request = to_request(health(), 1_785_924_000_000_000_000, "boot-1");
    let record = &request.resource_logs[0].scope_logs[0].log_records[0];

    assert_eq!(record.event_name, EVENT_NAME);
    assert_ne!(record.time_unix_nano, 0, "a record with no timestamp is rejected");
    assert_ne!(record.observed_time_unix_nano, 0, "OTLP requires this to be set");
}

#[test]
fn the_resource_names_the_collector_and_the_boot() {
    let request = to_request(health(), 1, "boot-7");
    let attrs = &request.resource_logs[0].resource.as_ref().unwrap().attributes;
    let get = |k: &str| {
        attrs.iter().find(|kv| kv.key == k).and_then(|kv| kv.value.as_ref()?.value.as_ref())
    };
    assert_eq!(get("service.name"), Some(&Value::StringValue(SERVICE_NAME.into())));
    assert_eq!(get("boot.id"), Some(&Value::StringValue("boot-7".into())));
}

#[test]
fn every_value_section_nine_asks_for_is_present() {
    let request = to_request(health(), 1, "boot-1");
    let body = body_of(&request);
    let keys: Vec<&str> = body.iter().map(|(k, _)| k.as_str()).collect();
    for expected in [
        "clock.max_error_micros",
        "clock.seconds_since_last_step",
        "clock.steps",
        "clock.disciplined",
        "resolved.exact",
        "resolved.ambiguous",
        "resolved.passthrough",
        "buffer.records",
        "buffer.oldest_seconds",
    ] {
        assert!(keys.contains(&expected), "{expected} is missing: {keys:?}");
    }
}

#[test]
fn the_values_are_the_ones_it_was_given() {
    let request = to_request(health(), 1, "boot-1");
    let body = body_of(&request);
    let get = |k: &str| body.iter().find(|(key, _)| key == k).map(|(_, v)| *v);

    assert_eq!(get("clock.max_error_micros"), Some(&Value::IntValue(2_000)));
    assert_eq!(get("clock.disciplined"), Some(&Value::BoolValue(true)));
    assert_eq!(get("clock.seconds_since_last_step"), Some(&Value::IntValue(42)));
    assert_eq!(get("resolved.exact"), Some(&Value::IntValue(100)));
    assert_eq!(get("shed.batches"), Some(&Value::IntValue(0)));
}

#[test]
fn no_step_yet_is_null_rather_than_a_sentinel() {
    let request = to_request(Health { since_last_step: None, ..health() }, 1, "boot-1");
    let body = body_of(&request);
    let value = body
        .iter()
        .find(|(k, _)| k == "clock.seconds_since_last_step")
        .map(|(_, v)| *v)
        .unwrap();
    match value {
        Value::ArrayValue(a) => {
            assert_eq!(a.values.len(), 1);
            assert!(a.values[0].value.is_none(), "should be an unset AnyValue, i.e. JSON null");
        }
        other => panic!("expected a null-carrying value, got {other:?}"),
    }
}

#[test]
fn a_never_synchronized_device_still_reports() {
    let never = Health {
        max_error_micros: 16_000_000,
        disciplined: false,
        buffered_records: 4_000,
        oldest_buffered: Duration::from_secs(280),
        ..Health::default()
    };
    let request = to_request(never, 1, "boot-1");
    let body = body_of(&request);
    let get = |k: &str| body.iter().find(|(key, _)| key == k).map(|(_, v)| *v);

    assert_eq!(get("clock.disciplined"), Some(&Value::BoolValue(false)));
    assert_eq!(get("buffer.records"), Some(&Value::IntValue(4_000)));
    assert_eq!(get("buffer.oldest_seconds"), Some(&Value::IntValue(280)));
}
