use monitoring_platform::admin::{deletion_note, read_password, stored_key_note, EMPTY_PASSWORD};

#[test]
fn a_password_is_the_line_without_its_end() {
    assert_eq!(read_password("secret\n"), Ok("secret".to_owned()));
    assert_eq!(read_password("secret\r\n"), Ok("secret".to_owned()));
    assert_eq!(read_password(" a b "), Ok(" a b ".to_owned()));
    assert_eq!(read_password("\n"), Err(EMPTY_PASSWORD.to_owned()));
}

#[test]
fn notes_name_what_was_done() {
    let stored = stored_key_note("00ff", "laptop", "/tmp/a.db");
    assert!(stored.contains("00ff") && stored.contains("laptop") && stored.contains("/tmp/a.db"), "{stored}");
    assert_ne!(deletion_note("ann", "/tmp/a.db", true), deletion_note("ann", "/tmp/a.db", false));
}
