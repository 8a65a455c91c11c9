use base64::engine::general_purpose::URL_SAFE_NO_PAD as B64;
use base64::Engine as _;
use monitoring_platform::api::query::{
    decode_cursor, encode_cursor, format_nanos, page, parse_query, parse_time, read_cursor, text_or_number, time_from, to_json,
};
use monitoring_platform::json::{Json, Object};
use monitoring_platform::model::StoredMeasurement;
use monitoring_platform::store::read::{DEFAULT_LIMIT, MAX_LIMIT};

fn pairs(kvs: &[(&str, &str)]) -> Vec<(String, String)> {
    kvs.iter().map(|(k, v)| ((*k).to_owned(), (*v).to_owned())).collect()
}

#[test]
fn formats_nanoseconds_with_fixed_precision() {
    assert_eq!(format_nanos(1_785_489_242_123_456_789), "2026-07-31T09:14:02.123456789Z");
    assert_eq!(format_nanos(1_785_489_242_170_000_000), "2026-07-31T09:14:02.170000000Z");
    assert_eq!(format_nanos(0), "1970-01-01T00:00:00.000000000Z");
}

#[test]
fn cursor_round_trips() {
    let encoded = encode_cursor(1_785_489_242_123_456_789, 41);
    assert_eq!(decode_cursor(&encoded).unwrap(), (1_785_489_242_123_456_789, 41));
}

#[test]
fn cursor_survives_a_query_string_without_escaping() {
    let encoded = encode_cursor(i64::MAX, i64::MAX);
    assert!(
        encoded.bytes().all(|b| b.is_ascii_alphanumeric() || b == b'-' || b == b'_'),
        "cursor must be query-string safe: {encoded}"
    );
}

#[test]
fn rejects_malformed_cursors() {
    assert!(decode_cursor("!!!not base64!!!").is_err());
    assert!(decode_cursor(&B64.encode("not json")).is_err());
    assert!(decode_cursor(&B64.encode(r#"{"t":1}"#)).is_err(), "missing 'i'");
}

#[test]
fn parses_times_in_both_accepted_forms() {
    assert_eq!(parse_time("1785489242123456789").unwrap(), 1_785_489_242_123_456_789);
    assert_eq!(
        parse_time("2026-07-31T09:14:02.123456789Z").unwrap(),
        1_785_489_242_123_456_789
    );
    assert!(parse_time("yesterday").is_err());
    assert!(parse_time("").is_err());
}

#[test]
fn collects_repeated_types_and_multiple_attrs() {
    let spec = parse_query(&pairs(&[
        ("type", "cpu"),
        ("type", "gps"),
        ("attr.record.attributes.unit", "celsius"),
        ("attr.resource.attributes.device.id", "dev-7"),
    ]))
    .unwrap();
    assert_eq!(spec.types, vec!["cpu", "gps"]);
    assert_eq!(
        spec.attrs,
        vec![
            ("record.attributes.unit".to_owned(), "celsius".to_owned()),
            ("resource.attributes.device.id".to_owned(), "dev-7".to_owned()),
        ]
    );
}

#[test]
fn attr_key_is_not_split_on_dots() {
    let spec = parse_query(&pairs(&[("attr.a.b.c", "v")])).unwrap();
    assert_eq!(spec.attrs, vec![("a.b.c".to_owned(), "v".to_owned())]);
}

#[test]
fn unknown_parameters_are_rejected() {
    let err = parse_query(&pairs(&[("typo", "cpu")])).unwrap_err();
    assert_eq!(err.status, 400);
    assert!(err.message.contains("typo"), "the offending name should be reported");
}

#[test]
fn empty_attr_key_is_rejected() {
    assert!(parse_query(&pairs(&[("attr.", "v")])).is_err());
}

#[test]
fn limit_defaults_and_clamps() {
    assert_eq!(parse_query(&[]).unwrap().limit, DEFAULT_LIMIT);
    assert_eq!(parse_query(&pairs(&[("limit", "99999")])).unwrap().limit, MAX_LIMIT);
    assert_eq!(parse_query(&pairs(&[("limit", "0")])).unwrap().limit, 1);
    assert!(parse_query(&pairs(&[("limit", "many")])).is_err());
}

fn stored(id: u8, event_time: i64) -> StoredMeasurement {
    StoredMeasurement {
        id: [id; 16],
        event_time,
        processed_time: event_time + 1,
        kind: "cpu".to_owned(),
        body: None,
        attributes: Json::Object(Object::new()),
    }
}

#[test]
fn a_full_page_points_to_the_next_one() {
    let full = page(vec![stored(1, 30), stored(2, 20)], 77, 2);
    assert_eq!(full.measurements.len(), 2);
    assert_eq!(decode_cursor(full.next_cursor.as_ref().unwrap()), Ok((20, 77)));
    assert_eq!(page(vec![stored(1, 30)], 77, 2).next_cursor, None);
    assert_eq!(page(vec![], 0, 2).next_cursor, None);
}

#[test]
fn a_measurement_is_shown_with_both_times() {
    let shown = to_json(stored(0xab, 0));
    assert_eq!(shown.id, "ab".repeat(16));
    assert_eq!(shown.event_time, "1970-01-01T00:00:00.000000000Z");
    assert_eq!(shown.event_time_unix_nano, "0");
    assert_eq!(shown.processed_time_unix_nano, "1");
    assert_eq!(shown.body, Json::Null);
}

#[test]
fn what_the_parsers_return_decides() {
    assert_eq!(text_or_number(5, None), "5");
    assert_eq!(text_or_number(5, Some("x".to_owned())), "x");
    assert_eq!(time_from("7", Some(9)), Ok(7), "an integer is taken before it is read as a date");
    assert_eq!(time_from("d", Some(9)), Ok(9));
    assert!(time_from("d", Some(i128::from(i64::MAX) + 1)).is_err());
    assert!(time_from("d", None).is_err());
    assert_eq!(read_cursor(true, Some(Some(1)), Some(Some(2))), Ok((1, 2)));
    assert!(read_cursor(false, None, None).is_err());
    assert!(read_cursor(true, Some(Some(1)), Some(None)).is_err());
}

#[test]
fn cursors_and_windows_are_read_from_the_query() {
    let cursor = encode_cursor(-5, 6);
    let spec = parse_query(&pairs(&[("from", "1"), ("to", "1970-01-01T00:00:00.000000002Z"), ("cursor", &cursor)])).unwrap();
    assert_eq!((spec.from, spec.to, spec.cursor), (Some(1), Some(2), Some((-5, 6))));
    assert!(parse_query(&pairs(&[("cursor", "!")])).is_err());
    assert!(parse_query(&pairs(&[("from", "then")])).is_err());
}
