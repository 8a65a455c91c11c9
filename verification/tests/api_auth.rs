use monitoring_platform::api::auth::{
    conclude, evaluate, refuse, report, text_of_header, Evaluation, Level, Lookup, Outcome, Shape,
};
use monitoring_platform::auth::{hash_secret, Malformed, Token};

#[test]
fn only_a_verified_key_is_authorized() {
    assert!(Outcome::Valid { id: "0011223344556677".into() }.is_authorized());

    for denied in [
        Outcome::Absent,
        Outcome::Malformed(Malformed::MissingPrefix),
        Outcome::UnknownId,
        Outcome::WrongSecret,
        Outcome::Unavailable,
    ] {
        assert!(!denied.is_authorized(), "{denied:?} must not be authorized");
    }
}

fn token() -> Token {
    let mut bytes = [0u8; 40];
    bytes[3] = 9;
    bytes[30] = 7;
    Token::from_random(&bytes)
}

#[test]
fn a_presented_key_is_looked_up_and_then_judged() {
    let header = format!("Bearer {}", token().to_secret_string());
    let looked_up = match evaluate(Some(header.as_bytes())) {
        Evaluation::LookUp(token) => token,
        Evaluation::Concluded(outcome) => panic!("{outcome:?}"),
    };
    assert_eq!(looked_up.id(), token().id());
    let hash = token().secret_hash();
    assert_eq!(conclude(&looked_up, Lookup::Found(hash)), Outcome::Valid { id: token().id().to_owned() });
    assert_eq!(conclude(&looked_up, Lookup::Found(hash_secret(b"other"))), Outcome::WrongSecret);
    assert_eq!(conclude(&looked_up, Lookup::NotFound), Outcome::UnknownId);
    assert_eq!(conclude(&looked_up, Lookup::Failed), Outcome::Unavailable);
}

#[test]
fn a_header_that_holds_no_key_is_concluded_at_once() {
    let concluded = |presented: Option<&[u8]>| match evaluate(presented) {
        Evaluation::Concluded(outcome) => outcome,
        Evaluation::LookUp(_) => panic!("there is nothing to look up"),
    };
    assert_eq!(concluded(None), Outcome::Absent);
    assert_eq!(concluded(Some(b"Bearer nope")), Outcome::Malformed(Malformed::MissingPrefix));
    assert_eq!(concluded(Some(b"Basic x")), Outcome::Malformed(Malformed::NotBearer));
    assert_eq!(concluded(Some(b"Bearer \xff")), Outcome::Malformed(Malformed::NotText));
}

#[test]
fn header_text_is_visible_ascii_and_tabs() {
    assert_eq!(text_of_header(b"a\tb ~"), Some("a\tb ~".to_owned()));
    assert_eq!(text_of_header(b"a\nb"), None);
    assert_eq!(text_of_header(&[0x7f]), None);
    assert_eq!(text_of_header("\u{e9}".as_bytes()), None);
}

#[test]
fn every_wrong_key_gets_the_same_refusal() {
    let unknown = refuse(&Outcome::UnknownId, Shape::Json);
    assert_eq!(unknown, refuse(&Outcome::WrongSecret, Shape::Json));
    assert_eq!(unknown, refuse(&Outcome::Absent, Shape::Json));
    assert_eq!(unknown.status, 401);
    assert_eq!(unknown.challenge, Some("Bearer"));
    let unavailable = refuse(&Outcome::Unavailable, Shape::Otlp);
    assert_eq!((unavailable.status, unavailable.challenge, unavailable.shape), (503, None, Shape::Otlp));
    assert_eq!(report(&Outcome::Unavailable).0, Level::Error);
    assert_eq!(report(&Outcome::Absent).0, Level::Warn);
    assert_eq!(report(&Outcome::Valid { id: String::new() }).0, Level::Debug);
    assert_eq!(report(&Outcome::WrongSecret).0, Level::Warn);
}

#[test]
fn the_log_says_what_is_wrong_with_the_shape_of_a_key() {
    let (level, words, reason) = report(&Outcome::Malformed(Malformed::MissingPrefix));
    assert_eq!((level, words), (Level::Warn, "rejected: unusable API key"));
    assert_eq!(reason, Some("an API key starts with `mpk_`"));
    assert_eq!(report(&Outcome::UnknownId).2, None);
}
