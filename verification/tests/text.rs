use monitoring_platform::bytes::{is_before, put, to_be64};
use monitoring_platform::environment::{join_path, systemd_dir};
use monitoring_platform::text::{
    decimal_i64, decimal_u64, has_prefix, has_suffix, join_with, lowered, pad_with_zeros, parse_i64, parse_u64,
    same_ignoring_ascii_case, split, split_once, split_words, tail_from, trim,
};

#[test]
fn numbers_are_written_and_read_as_std_does() {
    for n in [0, 1, -1, 10, -10, i64::MAX, i64::MIN] {
        assert_eq!(decimal_i64(n), n.to_string());
        assert_eq!(parse_i64(&n.to_string()), Some(n));
    }
    for text in ["", "+", "-", "+7", "007", "1 ", " 1", "1_0", "9223372036854775808", "-9223372036854775808", "\u{661}"] {
        assert_eq!(parse_i64(text), text.parse().ok(), "{text:?}");
        assert_eq!(parse_u64(text), text.parse().ok(), "{text:?}");
    }
    assert_eq!(decimal_u64(u64::MAX), u64::MAX.to_string());
    assert_eq!(parse_u64("18446744073709551616"), None);
    assert_eq!(pad_with_zeros(42, 5), "00042");
}

#[test]
fn texts_are_cut_as_std_cuts_them() {
    for text in ["", " a  b\u{3000}c ", "\u{e9}=\u{e8}=", "no", "a,b,,c", ",", "  "] {
        assert_eq!(trim(text), text.trim(), "{text:?}");
        assert_eq!(split_words(text), text.split_whitespace().collect::<Vec<_>>(), "{text:?}");
        assert_eq!(split(text, ','), text.split(',').collect::<Vec<_>>(), "{text:?}");
        let (head, tail) = split_once(text, '=');
        assert_eq!(tail.map(|t| (head, t)), text.split_once('='), "{text:?}");
    }
    assert_eq!(tail_from("\u{e9}ab", 1), "ab");
    assert!(has_prefix("abc", "ab") && !has_prefix("a", "ab"));
    assert!(has_suffix("abc", "bc") && !has_suffix("c", "bc"));
    assert_eq!(lowered("AbC\u{c9}"), "abc\u{c9}");
    assert!(same_ignoring_ascii_case("GZip", "gzip") && !same_ignoring_ascii_case("\u{c9}", "\u{e9}"));
    assert_eq!(join_with(&vec!["a".to_owned(), "b".to_owned()], ", "), "a, b");
}

#[test]
fn bytes_are_put_in_network_order() {
    assert_eq!(to_be64(0x0102030405060708), 0x0102030405060708u64.to_be_bytes());
    let mut out = vec![1];
    put(&mut out, &[2, 3]);
    assert_eq!(out, [1, 2, 3]);
    assert!(is_before(b"ab", b"b") && is_before(b"a", b"ab") && !is_before(b"a", b"a"));
}

#[test]
fn directories_come_from_the_environment() {
    let env = vec![("D".to_owned(), "/a:/b".to_owned()), ("E".to_owned(), ":/b".to_owned())];
    assert_eq!(systemd_dir(&env, "D"), Some("/a".to_owned()));
    assert_eq!(systemd_dir(&env, "E"), None);
    assert_eq!(systemd_dir(&env, "F"), None);
    assert_eq!(join_path("/a", "f"), "/a/f");
    assert_eq!(join_path("/a/", "f"), "/a/f");
}
