use monitoring_platform::auth::{
    from_authorization, hash_password, hash_secret, parse, Malformed, Token, ID_BYTES, PREFIX, SECRET_BYTES, TOKEN_BYTES,
};

fn bytes() -> [u8; TOKEN_BYTES] {
    let mut bytes = [0u8; TOKEN_BYTES];
    for (i, slot) in bytes.iter_mut().enumerate() {
        *slot = if i < ID_BYTES { i as u8 } else { 0x80 + (i - ID_BYTES) as u8 };
    }
    bytes
}

fn token() -> Token {
    Token::from_random(&bytes())
}

#[test]
fn a_token_round_trips_through_its_string_form() {
    let printed = token().to_secret_string();
    let parsed = parse(&printed).expect("the printed form must parse");

    assert_eq!(parsed.id(), token().id());
    assert_eq!(parsed.secret_hash(), token().secret_hash());
}

#[test]
fn the_id_is_the_first_eight_bytes_in_lowercase_hex() {
    assert_eq!(token().id(), "0001020304050607");
    assert!(token().to_secret_string().starts_with("mpk_0001020304050607."));
}

#[test]
fn the_printed_form_has_the_documented_shape() {
    let printed = token().to_secret_string();
    let body = printed.strip_prefix(PREFIX).expect("prefix");
    let (id, secret) = body.split_once('.').expect("two parts");
    assert_eq!(id.len(), ID_BYTES * 2);
    assert_eq!(secret.len(), SECRET_BYTES * 2);
}

#[test]
fn debug_redacts_the_secret() {
    let rendered = token().describe();
    assert!(rendered.contains("0001020304050607"), "the id is not secret: {rendered}");
    assert!(rendered.contains("redacted"), "{rendered}");
    assert!(
        !rendered.contains("808182"),
        "the secret must never be printable by accident: {rendered}"
    );
}

#[test]
fn a_bearer_header_is_accepted_whatever_the_scheme_case() {
    let printed = token().to_secret_string();
    for header in [
        format!("Bearer {printed}"),
        format!("bearer {printed}"),
        format!("BEARER {printed}"),
    ] {
        assert_eq!(
            from_authorization(&header).expect(&header).id(),
            token().id(),
            "failed on {header:?}"
        );
    }
}

#[test]
fn a_non_bearer_header_is_refused() {
    let printed = token().to_secret_string();
    assert_eq!(from_authorization(&printed).err().unwrap(), Malformed::NotBearer, "no scheme");
    assert_eq!(
        from_authorization(&format!("Basic {printed}")).err().unwrap(),
        Malformed::NotBearer
    );
}

#[test]
fn each_way_a_token_can_be_malformed_is_named() {
    let cases = [
        ("0001020304050607.88", Malformed::MissingPrefix),
        ("mpk_0001020304050607", Malformed::NotTwoParts),
        ("mpk_00010203.0102", Malformed::BadId),
        ("mpk_00010203040506070809.0102", Malformed::BadId),
        ("mpk_0001020304050607.0102", Malformed::BadSecret),
    ];
    for (raw, expected) in cases {
        assert_eq!(parse(raw).err().unwrap(), expected, "on {raw:?}");
    }
}

#[test]
fn uppercase_hex_is_not_the_same_token() {
    let printed = token().to_secret_string();
    assert!(parse(&printed.to_uppercase()).is_err());
    assert_eq!(
        parse(&printed.replace("8b8c8d", "8B8C8D")).err().unwrap(),
        Malformed::BadSecret
    );
}

#[test]
fn signs_and_spaces_are_not_hex() {
    assert!(parse("mpk_+0010203040506 7.0102").is_err());
    assert!(parse("mpk_ 001020304050607.0102").is_err());
}

#[test]
fn the_hash_is_domain_separated_from_a_bare_blake3() {
    assert_ne!(hash_secret(b"secret"), *blake3::hash(b"secret").as_bytes());
    assert_eq!(hash_secret(b"secret"), hash_secret(b"secret"), "and it is deterministic");
    assert_ne!(hash_secret(b"secret"), hash_secret(b"secrez"));
}

#[test]
fn the_two_halves_come_from_disjoint_randomness() {
    let mut differing_id = bytes();
    differing_id[0] ^= 0xff;
    let differing_id = Token::from_random(&differing_id);

    let mut differing_secret = bytes();
    differing_secret[ID_BYTES] ^= 0xff;
    let differing_secret = Token::from_random(&differing_secret);

    assert_ne!(differing_id.id(), token().id(), "a new id must not collide");
    assert_eq!(
        differing_id.secret_hash(),
        token().secret_hash(),
        "the id must not feed the secret's hash"
    );

    assert_eq!(differing_secret.id(), token().id());
    assert_ne!(differing_secret.secret_hash(), token().secret_hash());
}

#[test]
fn every_reason_is_worded() {
    let reasons = [
        Malformed::NotText,
        Malformed::NotBearer,
        Malformed::MissingPrefix,
        Malformed::NotTwoParts,
        Malformed::BadId,
        Malformed::BadSecret,
    ];
    for (i, a) in reasons.iter().enumerate() {
        for b in &reasons[i + 1..] {
            assert_ne!(a.reason(), b.reason());
        }
    }
}

#[test]
fn passwords_are_hashed_behind_a_domain_of_their_own() {
    assert_eq!(hash_password("pw"), *blake3::hash(b"monitoring-platform/password/v1pw").as_bytes());
    assert_ne!(hash_password("pw"), hash_secret(b"pw"));
    assert_ne!(hash_password("pw"), hash_password("pW"));
}
