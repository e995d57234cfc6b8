use dsc_exchange::digits::{digit_char, digit_value, read_number};
use dsc_exchange::envelope::{decode_envelope, encode_envelope};

#[test]
fn digits_cover_the_alphabet() {
    assert_eq!(digit_value(b'0'), Some(0));
    assert_eq!(digit_value(b'9'), Some(9));
    assert_eq!(digit_value(b'A'), Some(10));
    assert_eq!(digit_value(b'Z'), Some(35));
    assert_eq!(digit_value(b'a'), Some(36));
    assert_eq!(digit_value(b'z'), Some(61));
    assert_eq!(digit_value(b'-'), None);
    for d in 0u8..62 {
        assert_eq!(digit_value(digit_char(d)), Some(d));
    }
}

#[test]
fn numerals_read_most_significant_first() {
    assert_eq!(read_number(b"10", 0, 2), Some(62));
    assert_eq!(read_number(b"xzz", 1, 2), Some(3843));
    assert_eq!(read_number(b"1Z49l2", 0, 6), Some(0x557d_9c78));
    assert_eq!(read_number(b"1-", 0, 2), None);
}

#[test]
fn encode_small_envelope() {
    assert_eq!(encode_envelope(3, b"abc"), b"DSCY0RKOPP".to_vec());
    assert_eq!(encode_envelope(2013, &[1, 2, 3, 4, 5]), b"DSC22y04YPMP05U".to_vec());
}

#[test]
fn decode_small_envelope() {
    assert_eq!(decode_envelope(b"DSCY0RKOPP").ok(), Some((3, b"abc".to_vec())));
    assert_eq!(decode_envelope(b"DSC22y04YPMP05U").ok(), Some((2013, vec![1, 2, 3, 4, 5])));
}

#[test]
fn envelope_round_trip() {
    for len in 1usize..12 {
        let bytes: Vec<u8> = (0..len).map(|i| (i * 37 + 200) as u8).collect();
        let s = encode_envelope(1000, &bytes);
        assert_eq!(decode_envelope(&s).ok(), Some((1000, bytes)));
    }
}

#[test]
fn envelope_errors() {
    // wrong magic
    assert!(decode_envelope(b"DSDY0RKOPP").is_err());
    // checksum digit changed
    assert!(decode_envelope(b"DSCY0RKOPQ").is_err());
    // a byte outside the alphabet
    assert!(decode_envelope(b"DSCY0R-OPP").is_err());
    // a body of four digits is no chunk
    assert!(decode_envelope(b"DSCY0RKOP").is_err());
    // a length with a leading zero
    assert!(decode_envelope(b"DSC0Y0RKOPP").is_err());
    // no length
    assert!(decode_envelope(b"DSC").is_err());
    // empty body
    assert!(decode_envelope(b"DSCY0").is_err());
    // a chunk too large for its bytes
    assert!(decode_envelope(b"DSCYzzzzzz0").is_err());
}
