use std::io::Write;

use flate2::write::GzEncoder;
use flate2::Compression;
use monitoring_platform::api::ingest::{answer, partial_success, PartialSuccess};
use monitoring_platform::model::Rejections;
use monitoring_platform::otlp::codec::{accept_decoded, decode_request, request_in};
use monitoring_platform::wire::{BAD_REQUEST, PAYLOAD_TOO_LARGE};
use opentelemetry_proto::tonic::collector::logs::v1::{
    ExportLogsPartialSuccess, ExportLogsServiceRequest, ExportLogsServiceResponse,
};
use opentelemetry_proto::tonic::logs::v1::{LogRecord, ResourceLogs, ScopeLogs};
use prost::Message;

fn message(event_name: &str) -> ExportLogsServiceRequest {
    let record = LogRecord { event_name: event_name.to_owned(), time_unix_nano: 7, ..Default::default() };
    ExportLogsServiceRequest {
        resource_logs: vec![ResourceLogs {
            scope_logs: vec![ScopeLogs { log_records: vec![record], ..Default::default() }],
            ..Default::default()
        }],
    }
}

fn gzip(data: &[u8]) -> Vec<u8> {
    let mut e = GzEncoder::new(Vec::new(), Compression::default());
    e.write_all(data).unwrap();
    e.finish().unwrap()
}

#[test]
fn a_message_is_read_back_from_its_bytes() {
    let sent = message("cpu");
    assert_eq!(decode_request(&sent.encode_to_vec()), Ok(sent));
    assert_eq!(decode_request(b""), Ok(ExportLogsServiceRequest { resource_logs: vec![] }));
}

#[test]
fn bytes_that_are_no_message_are_a_bad_request() {
    let refused = decode_request(b"\xff\xff\xff").unwrap_err();
    assert_eq!(refused.status, BAD_REQUEST);
    let words = ExportLogsServiceRequest::decode(b"\xff\xff\xff".as_slice()).unwrap_err().to_string();
    assert_eq!(refused.message, format!("malformed ExportLogsServiceRequest: {words}"));

    let whole = message("cpu").encode_to_vec();
    assert_eq!(decode_request(&whole[..whole.len() - 1]).unwrap_err().status, BAD_REQUEST);
}

#[test]
fn what_decoding_came_to_is_passed_on() {
    assert_eq!(accept_decoded(Ok(message("a"))), Ok(message("a")));
    let refused = accept_decoded(Err("why".to_owned())).unwrap_err();
    assert_eq!(refused.message, "malformed ExportLogsServiceRequest: why");
}

#[test]
fn a_body_is_unpacked_and_then_read() {
    let sent = message("cpu");
    let plain = sent.encode_to_vec();
    let size = plain.len();
    assert_eq!(request_in(gzip(&plain), true, 1_000), Ok((sent.clone(), size)));
    assert_eq!(request_in(plain.clone(), false, 1), Ok((sent, size)));
    assert_eq!(request_in(gzip(&plain), true, size - 1).unwrap_err().status, PAYLOAD_TOO_LARGE);
    assert_eq!(request_in(plain, true, 1_000).unwrap_err().status, BAD_REQUEST);
    let refused = request_in(gzip(b"\xff\xff\xff"), true, 1_000).unwrap_err();
    assert!(refused.message.starts_with("malformed ExportLogsServiceRequest: "), "{}", refused.message);
}

#[test]
fn the_answer_is_a_response_of_the_protocol() {
    assert_eq!(answer(None), Vec::<u8>::new());
    let partial = partial_success(&Rejections { missing_event_name: 2, missing_timestamp: 1 }).unwrap();
    let message = partial.error_message.clone();
    let back = ExportLogsServiceResponse::decode(answer(Some(partial)).as_slice()).unwrap();
    assert_eq!(
        back.partial_success,
        Some(ExportLogsPartialSuccess { rejected_log_records: 3, error_message: message })
    );
    let one = PartialSuccess { rejected_log_records: 1, error_message: "x".to_owned() };
    assert_eq!(answer(Some(one)), b"\x0a\x05\x08\x01\x12\x01x".to_vec());
}
