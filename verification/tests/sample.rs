use monitoring_platform::json::{Json, Object};
use monitoring_platform::otlp::compose::{sample_request, SAMPLE_DEVICE_ID};
use monitoring_platform::otlp::convert::to_measurements;

const T: i64 = 1_785_489_242_123_456_789;
const P: i64 = 1_785_489_242_170_000_000;

fn at<'a>(object: &'a Object, key: &str) -> &'a Json {
    object.get(key).unwrap()
}

#[test]
fn the_sample_batch_is_stamped_with_the_sample_device_id() {
    let (ms, _) = to_measurements(&sample_request(SAMPLE_DEVICE_ID, T), P);
    assert_eq!(ms.len(), 3, "the harness asserts in multiples of 3");
    for m in &ms {
        assert_eq!(
            *at(&m.attributes, "resource.attributes.device.id"),
            Json::Str("dev-7".to_owned()),
            "the harness scopes its assertions on this exact key and value"
        );
    }
}

#[test]
fn the_device_id_is_overridable() {
    let (ms, _) = to_measurements(&sample_request("other-device", T), P);
    assert_eq!(ms.len(), 3);
    for m in &ms {
        assert_eq!(*at(&m.attributes, "resource.attributes.device.id"), Json::Str("other-device".to_owned()));
    }
}
