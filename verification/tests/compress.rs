use monitoring_platform::api::compress::{
    self, choose_encoding, encode, encode_body, may_compress, weight_allows, worth_compressing, Acceptance, Encoded,
    MAX_BUFFER_BYTES, MIN_COMPRESS_BYTES,
};
use std::io::Read as _;

fn accepts_gzip(header: Option<&str>) -> bool {
    match compress::accepts_gzip(header) {
        Acceptance::No => false,
        Acceptance::Yes => true,
        Acceptance::Weighted(text) => weight_allows(text.parse::<f32>().ok().map(f32::to_bits)),
    }
}

#[test]
fn a_plain_gzip_offer_is_accepted() {
    assert!(accepts_gzip(Some("gzip")));
    assert!(accepts_gzip(Some("gzip, deflate")));
    assert!(accepts_gzip(Some("deflate, gzip, br")));
    assert!(accepts_gzip(Some("gzip, deflate, br, zstd")));
}

#[test]
fn absence_means_no() {
    assert!(!accepts_gzip(None));
    assert!(!accepts_gzip(Some("")));
    assert!(!accepts_gzip(Some("deflate, br")));
}

#[test]
fn a_zero_q_value_is_a_refusal() {
    assert!(!accepts_gzip(Some("gzip;q=0")));
    assert!(!accepts_gzip(Some("gzip;q=0.0")));
    assert!(!accepts_gzip(Some("deflate, gzip;q=0")));
    assert!(!accepts_gzip(Some("gzip; q=0")));
    assert!(accepts_gzip(Some("gzip;q=0.001")));
    assert!(accepts_gzip(Some("gzip;q=1.0")));
}

#[test]
fn a_wildcard_stands_in_only_where_gzip_is_not_named() {
    assert!(accepts_gzip(Some("*")));
    assert!(accepts_gzip(Some("deflate, *")));
    assert!(!accepts_gzip(Some("*;q=0")));
    assert!(!accepts_gzip(Some("*, gzip;q=0")));
    assert!(!accepts_gzip(Some("gzip;q=0, *")));
}

#[test]
fn tokens_are_matched_loosely() {
    assert!(accepts_gzip(Some("GZIP")));
    assert!(accepts_gzip(Some("  gzip  ,  deflate ")));
    assert!(accepts_gzip(Some("Deflate, GZip")));
}

#[test]
fn a_malformed_q_value_does_not_reject_the_entry() {
    assert!(accepts_gzip(Some("gzip;q=banana")));
    assert!(accepts_gzip(Some("gzip;level=9")));
}

#[test]
fn only_text_types_above_the_threshold_are_compressed() {
    let big = MIN_COMPRESS_BYTES;
    assert!(worth_compressing(Some("text/html; charset=utf-8"), big));
    assert!(worth_compressing(Some("application/json"), big));
    assert!(worth_compressing(Some("text/plain; charset=utf-8"), big));
    assert!(worth_compressing(Some("application/problem+json"), big));
    assert!(worth_compressing(Some("TEXT/HTML"), big));
}

#[test]
fn small_bodies_and_binary_types_are_left_alone() {
    assert!(!worth_compressing(Some("text/html"), MIN_COMPRESS_BYTES - 1));
    assert!(!worth_compressing(Some("application/x-protobuf"), MIN_COMPRESS_BYTES));
    assert!(!worth_compressing(Some("image/png"), MIN_COMPRESS_BYTES));
    assert!(!worth_compressing(None, MIN_COMPRESS_BYTES));
}

#[test]
fn what_is_encoded_decodes_back_to_the_input() {
    let original = "<p>a repetitive little page</p>".repeat(200).into_bytes();
    let compressed = encode(&original).unwrap();
    assert!(compressed.len() < original.len(), "{} vs {}", compressed.len(), original.len());

    let mut decoded = Vec::new();
    flate2::read::GzDecoder::new(&compressed[..]).read_to_end(&mut decoded).unwrap();
    assert_eq!(decoded, original);
}

#[test]
fn a_weight_is_handed_back_as_it_stands() {
    assert_eq!(compress::accepts_gzip(Some("br, gzip ; q=0.5")), Acceptance::Weighted("0.5".to_owned()));
    assert!(weight_allows(None));
    assert!(!weight_allows(Some((-1.0f32).to_bits())));
    assert!(!weight_allows(Some((-0.0f32).to_bits())));
    assert!(!weight_allows(Some(f32::NAN.to_bits())));
    assert!(weight_allows(Some(f32::INFINITY.to_bits())));
}

#[test]
fn compression_that_does_not_pay_is_dropped() {
    assert_eq!(choose_encoding(Ok(vec![1, 2, 3]), 3), Encoded::Identity);
    assert_eq!(choose_encoding(Ok(vec![1, 2]), 3), Encoded::Gzip(vec![1, 2]));
    assert_eq!(choose_encoding(Err("full".to_owned()), 3), Encoded::Identity);
    assert!(may_compress(true, false) && !may_compress(true, true) && !may_compress(false, false));
    assert_eq!(MAX_BUFFER_BYTES, 64 << 20);
}

#[test]
fn a_page_is_compressed_and_a_picture_is_not() {
    let page = vec![b'a'; 4096];
    assert_eq!(encode_body(Some("image/png"), &page), Encoded::Identity);
    match encode_body(Some("text/html"), &page) {
        Encoded::Gzip(bytes) => {
            let mut decoded = Vec::new();
            flate2::read::GzDecoder::new(&bytes[..]).read_to_end(&mut decoded).unwrap();
            assert_eq!(decoded, page);
        }
        Encoded::Identity => panic!("a repetitive page should shrink"),
    }
}
