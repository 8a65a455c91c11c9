use flate2::write::GzEncoder;
use flate2::Compression;
use monitoring_platform::collector::epoch::{Epoch, EpochTable, Source};
use monitoring_platform::collector::correct::Receipt;
use monitoring_platform::collector::receive::{cannot_accept, clock_unreadable, receive, sender_start, QUEUE_FULL};
use monitoring_platform::otlp::compose::{record, request};
use std::io::Write;
use monitoring_platform::wire::{
    collector_body_too_large, decompress_gzip, gzip_requested, payload, require_protobuf_content_type, BAD_REQUEST, PAYLOAD_TOO_LARGE, PROTOBUF,
    UNSUPPORTED_MEDIA_TYPE,
};

fn gzip(data: &[u8]) -> Vec<u8> {
    let mut e = GzEncoder::new(Vec::new(), Compression::default());
    e.write_all(data).unwrap();
    e.finish().unwrap()
}

#[test]
fn receive_content_type_accepts_parameters_but_not_other_types() {
    assert!(require_protobuf_content_type(Some(PROTOBUF.as_bytes())).is_ok());
    assert!(
        require_protobuf_content_type(Some(b"application/x-protobuf; charset=utf-8"))
        .is_ok()
    );
    assert_eq!(
        require_protobuf_content_type(Some(b"application/json"))
            .unwrap_err()
            .status,
        UNSUPPORTED_MEDIA_TYPE
    );
    assert_eq!(
        require_protobuf_content_type(None).unwrap_err().status,
        UNSUPPORTED_MEDIA_TYPE
    );
}

#[test]
fn receive_content_encoding_accepts_gzip_and_identity_only() {
    assert!(!gzip_requested(None).unwrap());
    assert!(!gzip_requested(Some(b"identity")).unwrap());
    assert!(gzip_requested(Some(b"gzip")).unwrap());

    let err = gzip_requested(Some(b"zstd")).unwrap_err();
    assert_eq!(err.status, UNSUPPORTED_MEDIA_TYPE);
    assert!(err.message.contains("zstd"), "the rejected encoding should be named");
}

#[test]
fn receive_round_trips_gzip_within_the_limit() {
    let payload = b"hello measurements".repeat(100);
    assert_eq!(decompress_gzip(&gzip(&payload), 1 << 20).unwrap(), payload);
}

#[test]
fn receive_invalid_gzip_is_a_bad_request_not_a_size_error() {
    assert_eq!(
        decompress_gzip(b"definitely not gzip", 1 << 20).unwrap_err().status,
        BAD_REQUEST
    );
}

#[test]
fn receive_gzip_bomb_is_refused_at_the_decompressed_limit() {
    let bomb = gzip(&vec![0u8; 64 << 20]);
    assert!(bomb.len() < 200_000, "test bomb should be small on the wire: {}", bomb.len());
    assert_eq!(
        decompress_gzip(&bomb, 1 << 20).unwrap_err().status,
        PAYLOAD_TOO_LARGE
    );
}

#[test]
fn receive_decompressed_limit_boundary_is_exact() {
    let exactly = vec![7u8; 1000];
    assert!(decompress_gzip(&gzip(&exactly), 1000).is_ok(), "at the limit must pass");
    assert_eq!(
        decompress_gzip(&gzip(&exactly), 999).unwrap_err().status,
        PAYLOAD_TOO_LARGE
    );
}

#[test]
fn a_received_batch_is_resolved_and_sized() {
    let table = EpochTable::new(Epoch { boot_start: 0, offset: 1_000, source: Source::Startup });
    let receipt = Receipt { sender_started: sender_start(None), received: 50, tolerance: 0 };
    let batch = request(vec![], "", "", vec![], vec![record("a", 1_020, 0, None, vec![])]);
    let pending = receive(batch, 12, &table, receipt);
    assert_eq!((pending.bytes, pending.queued_at, pending.tally.exact), (12, 50, 1));
    assert_eq!(sender_start(Some(7)), 7);
}

#[test]
fn each_refusal_has_its_status() {
    assert_eq!(collector_body_too_large(10).status, PAYLOAD_TOO_LARGE);
    assert_eq!(clock_unreadable("x").status, 500);
    let full = cannot_accept(QUEUE_FULL);
    assert_eq!(full.status, 503);
    assert!(full.message.contains(QUEUE_FULL), "{}", full.message);
    assert_eq!(payload(b"junk".to_vec(), true, 10).unwrap_err().status, BAD_REQUEST);
}
