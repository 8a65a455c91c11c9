use flate2::write::GzEncoder;
use flate2::Compression;
use monitoring_platform::api::ingest::{ingest, partial_success, unavailable};
use monitoring_platform::model::Rejections;
use monitoring_platform::otlp::compose::{record, request};
use std::io::Write;
use monitoring_platform::wire::{
    body_encoding, decompress_gzip, gzip_requested, payload, require_protobuf_content_type, BAD_REQUEST, PAYLOAD_TOO_LARGE, PROTOBUF,
    UNSUPPORTED_MEDIA_TYPE,
};

fn gzip(data: &[u8]) -> Vec<u8> {
    let mut e = GzEncoder::new(Vec::new(), Compression::default());
    e.write_all(data).unwrap();
    e.finish().unwrap()
}

#[test]
fn ingest_content_type_accepts_parameters_but_not_other_types() {
    assert!(require_protobuf_content_type(Some(PROTOBUF.as_bytes())).is_ok());
    assert!(
        require_protobuf_content_type(Some(b"application/x-protobuf; charset=utf-8"))
        .is_ok()
    );
    let err = require_protobuf_content_type(Some(b"application/json"))
        .unwrap_err();
    assert_eq!(err.status, UNSUPPORTED_MEDIA_TYPE);

    let err = require_protobuf_content_type(None).unwrap_err();
    assert_eq!(err.status, UNSUPPORTED_MEDIA_TYPE);
}

#[test]
fn ingest_content_encoding_accepts_gzip_and_identity_only() {
    assert!(!gzip_requested(None).unwrap());
    assert!(!gzip_requested(Some(b"identity")).unwrap());
    assert!(gzip_requested(Some(b"gzip")).unwrap());

    let err = gzip_requested(Some(b"zstd")).unwrap_err();
    assert_eq!(err.status, UNSUPPORTED_MEDIA_TYPE);
    assert!(err.message.contains("zstd"), "the rejected encoding should be named");
}

#[test]
fn ingest_round_trips_gzip_within_the_limit() {
    let payload = b"hello measurements".repeat(100);
    assert_eq!(decompress_gzip(&gzip(&payload), 1 << 20).unwrap(), payload);
}

#[test]
fn ingest_invalid_gzip_is_a_bad_request_not_a_size_error() {
    let err = decompress_gzip(b"definitely not gzip", 1 << 20).unwrap_err();
    assert_eq!(err.status, BAD_REQUEST);
}

#[test]
fn ingest_gzip_bomb_is_refused_at_the_decompressed_limit() {
    let bomb = gzip(&vec![0u8; 64 << 20]); // 64 MiB of zeros
    assert!(bomb.len() < 200_000, "test bomb should be small on the wire: {}", bomb.len());

    let limit = 1 << 20;
    let err = decompress_gzip(&bomb, limit).unwrap_err();
    assert_eq!(err.status, PAYLOAD_TOO_LARGE);
}

#[test]
fn ingest_decompressed_limit_boundary_is_exact() {
    let exactly = vec![7u8; 1000];
    assert!(decompress_gzip(&gzip(&exactly), 1000).is_ok(), "at the limit must pass");
    assert_eq!(
        decompress_gzip(&gzip(&exactly), 999).unwrap_err().status,
        PAYLOAD_TOO_LARGE,
        "one byte over must fail"
    );
}

#[test]
fn a_batch_becomes_measurements_and_a_partial_success() {
    let batch = request(
        vec![],
        "",
        "",
        vec![],
        vec![record("ok", 7, 0, None, vec![]), record("", 7, 0, None, vec![]), record("t", 0, 0, None, vec![])],
    );
    let (measurements, partial) = ingest(&batch, 99);
    assert_eq!(measurements.len(), 1);
    assert_eq!(measurements[0].processed_time, 99);
    let partial = partial.unwrap();
    assert_eq!(partial.rejected_log_records, 2);
    assert_eq!(partial.error_message, Rejections { missing_event_name: 1, missing_timestamp: 1 }.message());
    assert_eq!(partial_success(&Rejections::default()), None);
    assert_eq!(unavailable("disk full").status, 503);
}

#[test]
fn a_body_is_checked_before_it_is_unpacked() {
    let plain = b"abc".to_vec();
    let wrapped = gzip(&plain);
    assert_eq!(body_encoding(Some(PROTOBUF.as_bytes()), Some(b"gzip")), Ok(true));
    assert_eq!(body_encoding(Some(b"text/plain"), Some(b"zstd")).unwrap_err().status, UNSUPPORTED_MEDIA_TYPE);
    assert_eq!(payload(wrapped.clone(), true, 100), Ok(plain.clone()));
    assert_eq!(payload(plain.clone(), false, 1), Ok(plain));
    assert_eq!(payload(wrapped, true, 2).unwrap_err().status, PAYLOAD_TOO_LARGE);
}
