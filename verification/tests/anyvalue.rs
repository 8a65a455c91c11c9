use monitoring_platform::json::{Json, Number, Object};
use monitoring_platform::otlp::anyvalue::{any_value_to_json, double_to_json as double_bits_to_json, opt_any_value_to_json};
use monitoring_platform::otlp::proto::{AnyValue, ArrayValue, KeyValue, KeyValueList, Value as OtlpValue};

fn of(value: &serde_json::Value) -> Json {
    match value {
        serde_json::Value::Null => Json::Null,
        serde_json::Value::Bool(b) => Json::Bool(*b),
        serde_json::Value::Number(n) => Json::Number(match (n.as_i64(), n.as_u64()) {
            (Some(i), _) => Number::Int(i),
            (None, Some(u)) => Number::UInt(u),
            (None, None) => Number::Float(n.as_f64().unwrap().to_bits()),
        }),
        serde_json::Value::String(s) => Json::Str(s.clone()),
        serde_json::Value::Array(items) => Json::Array(items.iter().map(of).collect()),
        serde_json::Value::Object(members) => {
            let mut object = Object::new();
            for (key, member) in members {
                object.insert(key.clone(), of(member));
            }
            Json::Object(object)
        }
    }
}

fn json(text: &str) -> Json {
    of(&serde_json::from_str(text).unwrap())
}

fn av(v: OtlpValue) -> AnyValue {
    AnyValue { value: Some(v) }
}

fn double_to_json(x: f64) -> Json {
    double_bits_to_json(x.to_bits())
}

#[test]
fn scalars_map_directly() {
    assert_eq!(any_value_to_json(&av(OtlpValue::StringValue("x".into()))), json(r#""x""#));
    assert_eq!(any_value_to_json(&av(OtlpValue::BoolValue(true))), json(r#"true"#));
    assert_eq!(any_value_to_json(&av(OtlpValue::DoubleValue(1.5f64.to_bits()))), json(r#"1.5"#));
}

#[test]
fn unset_value_is_null() {
    assert_eq!(any_value_to_json(&AnyValue { value: None }), Json::Null);
    assert_eq!(opt_any_value_to_json(None), Json::Null);
}

#[test]
fn int_values_are_exact_over_the_full_i64_range() {
    for n in [i64::MIN, i64::MAX, 9_007_199_254_740_993, -9_007_199_254_740_993, 0] {
        let v = any_value_to_json(&av(OtlpValue::IntValue(n)));
        assert_eq!(v, Json::Number(Number::Int(n)), "{n} did not map to an integer variant");
    }
}

#[test]
fn non_finite_doubles_become_sentinel_strings_not_null() {
    assert_eq!(double_to_json(f64::NAN), json(r#""NaN""#));
    assert_eq!(double_to_json(f64::INFINITY), json(r#""Infinity""#));
    assert_eq!(double_to_json(f64::NEG_INFINITY), json(r#""-Infinity""#));
    assert_eq!(serde_json::to_value(f64::NAN).unwrap(), serde_json::Value::Null);
}

#[test]
fn finite_doubles_are_bit_exact() {
    for x in [0.1f64, 1e308, 5e-324, -0.0, f64::MAX, 0.333_333_333_333_333_3] {
        assert_eq!(double_to_json(x), Json::Number(Number::Float(x.to_bits())), "{x} changed bits");
    }
}

#[test]
fn bytes_become_padded_standard_base64() {
    assert_eq!(any_value_to_json(&av(OtlpValue::BytesValue(vec![0xff, 0x01]))), json(r#""/wE=""#));
}

#[test]
fn strindex_is_treated_as_absent() {
    assert_eq!(any_value_to_json(&av(OtlpValue::StringValueStrindex(3))), Json::Null);
}

#[test]
fn nested_arrays_and_kvlists_are_preserved() {
    let inner = av(OtlpValue::KvlistValue(KeyValueList {
        values: vec![
            KeyValue {
                key: "offset".into(),
                value: Some(av(OtlpValue::DoubleValue((-0.5f64).to_bits()))),
                ..Default::default()
            },
            KeyValue { key: "unset".into(), value: None, ..Default::default() },
        ],
    }));
    let nested = av(OtlpValue::ArrayValue(ArrayValue {
        values: vec![inner, av(OtlpValue::IntValue(7))],
    }));
    assert_eq!(any_value_to_json(&nested), json(r#"[{ "offset": -0.5, "unset": null }, 7]"#));
}

#[test]
fn base64_agrees_with_the_engine() {
    let bytes: Vec<u8> = (0..=255).collect();
    let expected = base64::Engine::encode(&base64::engine::general_purpose::STANDARD, &bytes);
    assert_eq!(any_value_to_json(&av(OtlpValue::BytesValue(bytes))), Json::Str(expected));
}
