use monitoring_platform::hex::{hex, nibble, unhex};

#[test]
fn bytes_round_trip_through_hex() {
    let all: Vec<u8> = (0..=255).collect();
    assert_eq!(unhex(&hex(&all), 256), Some(all));
    assert_eq!(hex(&[0x00, 0x0f, 0xa5]), "000fa5");
}

#[test]
fn a_text_has_one_reading() {
    assert_eq!(unhex("A5", 1), None, "upper case is another spelling");
    assert_eq!(unhex("a5", 2), None);
    assert_eq!(unhex("+5", 1), None);
    assert_eq!(nibble(b'f'), Some(15));
    assert_eq!(nibble(b'g'), None);
}

#[test]
fn hex_sorts_as_the_bytes_do() {
    let pairs: [(&[u8], &[u8]); 3] = [(&[1, 2], &[1, 3]), (&[9], &[10]), (&[1], &[1, 0])];
    for (a, b) in pairs {
        assert!(a < b && hex(a) < hex(b));
    }
}
