use monitoring_platform::collector::config::{parse_target, LOGS_PATH};
use monitoring_platform::collector::forward::{
    authorization, describe, destination, detail, is_success, rejection, reusable, LOCAL_AUTHORITY,
};

#[test]
fn a_socket_is_addressed_as_the_local_host() {
    let socket = parse_target("/run/x.sock").unwrap();
    assert_eq!(destination(&socket), (LOCAL_AUTHORITY, LOGS_PATH));
    let remote = parse_target("http://host:1234/otlp").unwrap();
    assert_eq!(destination(&remote), ("host:1234", "/otlp"));
    assert!(describe(&remote).contains("host:1234"));
    assert!(describe(&socket).contains("/run/x.sock"));
}

#[test]
fn a_key_is_presented_as_a_bearer_token() {
    assert_eq!(authorization(Some("mpk_a.b")), Some("Bearer mpk_a.b".to_owned()));
    assert_eq!(authorization(None), None);
}

#[test]
fn only_a_live_connection_is_used_again() {
    assert!(reusable(false, false));
    assert!(!reusable(true, false) && !reusable(false, true));
}

#[test]
fn any_two_hundred_is_a_delivery() {
    assert!(is_success(200) && is_success(204) && is_success(299));
    assert!(!is_success(199) && !is_success(300) && !is_success(503));
}

#[test]
fn a_refusal_carries_the_answer() {
    let target = parse_target("http://host:1234").unwrap();
    assert!(detail("503 Service Unavailable", b"queue full").contains("queue full"));
    let words = rejection(&target, "503 Service Unavailable", b"queue full");
    assert!(words.contains("503 Service Unavailable") && words.contains("queue full"), "{words}");
}

#[test]
fn a_binary_body_still_produces_a_readable_explanation() {
    assert_eq!(detail("400 Bad Request", b""), "400 Bad Request");
    assert_eq!(
        detail("400 Bad Request", b"\x08\x03\x12\x0bmalformed\x00\x00"),
        "400 Bad Request (malformed)",
        "protobuf framing bytes should collapse away, leaving the message"
    );
}
