use monitoring_platform::socket::{choose_listener, reclaim, Found, Listener, SOCKET_MODE};

#[test]
fn only_a_dead_socket_is_removed() {
    assert_eq!(SOCKET_MODE, 0o660);
    assert_eq!(reclaim("/run/s", Found::Nothing), Ok(false));
    assert_eq!(reclaim("/run/s", Found::Stale), Ok(true));
    assert!(reclaim("/run/s", Found::Live).unwrap_err().contains("already served"));
    assert!(reclaim("/run/s", Found::Other).unwrap_err().contains("is not a socket"));
}

#[test]
fn an_inherited_listener_is_adopted() {
    assert!(matches!(choose_listener(0), Ok(Listener::Bind)));
    assert!(matches!(choose_listener(1), Ok(Listener::Adopt)));
    assert!(choose_listener(2).is_err());
}
