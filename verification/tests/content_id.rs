use monitoring_platform::content_id::{
    canonical_bytes, content_id, from_bytes, from_hex, id_of_hash, series_id, to_hex, ID_LEN,
};
use monitoring_platform::json::{Json, Number, Object};
use monitoring_platform::model::Measurement;

type ContentId = [u8; ID_LEN];

fn of(value: &serde_json::Value) -> Json {
    match value {
        serde_json::Value::Null => Json::Null,
        serde_json::Value::Bool(b) => Json::Bool(*b),
        serde_json::Value::Number(n) => Json::Number(match (n.as_i64(), n.as_u64()) {
            (Some(i), _) => Number::Int(i),
            (None, Some(u)) => Number::UInt(u),
            (None, None) => Number::Float(n.as_f64().unwrap().to_bits()),
        }),
        serde_json::Value::String(s) => Json::Str(s.clone()),
        serde_json::Value::Array(items) => Json::Array(items.iter().map(of).collect()),
        serde_json::Value::Object(members) => {
            let mut object = Object::new();
            for (key, member) in members {
                object.insert(key.clone(), of(member));
            }
            Json::Object(object)
        }
    }
}

fn json(text: &str) -> Json {
    of(&serde_json::from_str(text).unwrap())
}

fn measurement(kind: &str, event_time: i64, body: Option<Json>, attrs: Json) -> Measurement {
    Measurement {
        event_time,
        processed_time: 999,
        kind: kind.to_owned(),
        body,
        attributes: match attrs {
            Json::Object(object) => object,
            _ => Object::new(),
        },
    }
}

fn base() -> Measurement {
    measurement(
        "gps",
        1_785_489_242_123_456_789,
        Some(json(r#"{"lat": 47.4979, "lon": 19.0402}"#)),
        json(r#"{"resource.attributes.device.id": "dev-7", "record.attributes.unit": "wgs84"}"#),
    )
}

#[test]
fn attribute_order_does_not_change_the_id() {
    let mut a = base();
    let mut b = base();
    a.attributes = Object::new();
    a.attributes.insert("z.last".into(), json(r#"1"#));
    a.attributes.insert("a.first".into(), json(r#"2"#));
    a.attributes.insert("m.middle".into(), json(r#"3"#));

    b.attributes = Object::new();
    b.attributes.insert("m.middle".into(), json(r#"3"#));
    b.attributes.insert("a.first".into(), json(r#"2"#));
    b.attributes.insert("z.last".into(), json(r#"1"#));

    assert_eq!(content_id(&a), content_id(&b));
}

#[test]
fn nested_object_order_does_not_change_the_id() {
    let a = measurement("t", 1, Some(json(r#"{"cfg": {"x": 1, "y": 2}}"#)), json(r#"{}"#));
    let b = measurement("t", 1, Some(json(r#"{"cfg": {"y": 2, "x": 1}}"#)), json(r#"{}"#));
    assert_eq!(content_id(&a), content_id(&b));
}

#[test]
fn array_order_does_change_the_id() {
    let a = measurement("t", 1, Some(json(r#"{"tags": [1, 2]}"#)), json(r#"{}"#));
    let b = measurement("t", 1, Some(json(r#"{"tags": [2, 1]}"#)), json(r#"{}"#));
    assert_ne!(content_id(&a), content_id(&b));
}

#[test]
fn processed_time_is_excluded() {
    let mut a = base();
    let mut b = base();
    a.processed_time = 1;
    b.processed_time = i64::MAX;
    assert_eq!(content_id(&a), content_id(&b));
}

#[test]
fn every_hashed_field_changes_the_id() {
    let original = content_id(&base());

    let mut t = base();
    t.kind = "cpu".into();
    assert_ne!(content_id(&t), original, "type must matter");

    let mut e = base();
    e.event_time += 1;
    assert_ne!(content_id(&e), original, "event_time must matter, even by 1 ns");

    let mut b = base();
    b.body = Some(json(r#"{"lat": 47.4979, "lon": 19.0403}"#));
    assert_ne!(content_id(&b), original, "body must matter");

    let mut a = base();
    a.attributes.insert("record.attributes.extra".into(), json(r#"1"#));
    assert_ne!(content_id(&a), original, "attributes must matter");
}

#[test]
fn absent_body_differs_from_null_body() {
    let absent = measurement("t", 1, None, json(r#"{}"#));
    let null = measurement("t", 1, Some(Json::Null), json(r#"{}"#));
    assert_ne!(content_id(&absent), content_id(&null));
}

#[test]
fn field_boundaries_are_unambiguous() {
    let a = measurement("ab", 1, Some(json(r#""c""#)), json(r#"{}"#));
    let b = measurement("a", 1, Some(json(r#""bc""#)), json(r#"{}"#));
    assert_ne!(content_id(&a), content_id(&b));
    let c = measurement("t", 1, None, json(r#"{"ab": "c"}"#));
    let d = measurement("t", 1, None, json(r#"{"a": "bc"}"#));
    assert_ne!(content_id(&c), content_id(&d));
}

#[test]
fn json_types_are_tagged_apart() {
    let ids: Vec<ContentId> = [json(r#"1"#), json(r#"1.0"#), json(r#""1""#), json(r#"[1]"#), json(r#"true"#), Json::Null]
        .into_iter()
        .map(|v| content_id(&measurement("t", 1, Some(v), json(r#"{}"#))))
        .collect();

    for (i, a) in ids.iter().enumerate() {
        for (j, b) in ids.iter().enumerate() {
            if i != j {
                assert_ne!(a, b, "values {i} and {j} hashed alike");
            }
        }
    }
}

#[test]
fn negative_zero_hashes_as_zero() {
    let neg = measurement("t", 1, Some(json(r#"-0.0"#)), json(r#"{}"#));
    let pos = measurement("t", 1, Some(json(r#"0.0"#)), json(r#"{}"#));
    assert_eq!(content_id(&neg), content_id(&pos));
}

#[test]
fn large_integers_are_distinguished() {
    let a = measurement("t", 1, Some(Json::Number(Number::Int(i64::MAX))), json(r#"{}"#));
    let b = measurement("t", 1, Some(Json::Number(Number::Int(i64::MAX - 1))), json(r#"{}"#));
    assert_ne!(content_id(&a), content_id(&b));
}

#[test]
fn ids_are_stable_across_runs() {
    let m = measurement("gps", 42, Some(json(r#"{"v": 1}"#)), json(r#"{"a": "b"}"#));
    assert_eq!(to_hex(&content_id(&m)), "039041fb15b6a5539cc42c9bd709363e");
}

#[test]
fn hex_round_trips() {
    let id = content_id(&base());
    assert_eq!(from_hex(&to_hex(&id)), Some(id));
    assert_eq!(to_hex(&id).len(), ID_LEN * 2);
    assert!(to_hex(&id).bytes().all(|b| b.is_ascii_hexdigit() && !b.is_ascii_uppercase()));
}

#[test]
fn hex_rejects_malformed_input() {
    assert_eq!(from_hex(""), None);
    assert_eq!(from_hex("zz"), None);
    assert_eq!(from_hex(&"a".repeat(ID_LEN * 2 - 1)), None, "too short");
    assert_eq!(from_hex(&"a".repeat(ID_LEN * 2 + 1)), None, "too long");
    assert_eq!(from_hex(&"gg".repeat(ID_LEN)), None, "not hex");
}

#[test]
fn from_bytes_rejects_wrong_lengths() {
    assert!(from_bytes(&[0u8; ID_LEN]).is_some());
    assert!(from_bytes(&[0u8; ID_LEN - 1]).is_none());
    assert!(from_bytes(&[0u8; ID_LEN + 1]).is_none());
}

#[test]
fn an_id_is_the_head_of_the_hash_of_the_canonical_bytes() {
    let m = base();
    let hash = blake3::hash(&canonical_bytes(&m));
    assert_eq!(content_id(&m), id_of_hash(hash.as_bytes()));
    assert_eq!(&content_id(&m)[..], &hash.as_bytes()[..ID_LEN]);
}

#[test]
fn a_series_is_named_by_its_type_and_attributes_alone() {
    let m = base();
    assert_eq!(series_id(&m.kind, &m.attributes), series_id("gps", &base().attributes));
    assert_ne!(series_id("gps", &m.attributes), series_id("cpu", &m.attributes));
    assert_ne!(series_id("gps", &m.attributes), series_id("gps", &Object::new()));
    assert_ne!(series_id(&m.kind, &m.attributes), content_id(&m));
}
