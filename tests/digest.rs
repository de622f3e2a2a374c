use sha3::Digest;
use sorted_checksums::digest::{digest_to_hex, parse_digest_line, DIGEST_LEN};
use sorted_checksums::hasher::digest_line;
use sorted_checksums::order::digest_le;

fn sha3_hex(data: &[u8]) -> String {
    hex::encode(sha3::Sha3_512::digest(data))
}

#[test]
fn digest_of_known_vector() {
    let d = digest_line("abc", None).unwrap();
    assert_eq!(d.len(), DIGEST_LEN);
    assert_eq!(
        hex::encode(&d),
        "b751850b1a57168a5693cd924b6b096e08f621827444f70d884f5d0240d2712e10e116e9192af3c91a7ec57647e3934057340b4cf408d5a56592f8274eec53f0"
    );
}

#[test]
fn digest_is_of_normalized_record() {
    let d = digest_line("  foo \n", None).unwrap();
    assert_eq!(hex::encode(&d), sha3_hex(b"foo"));
    let e = digest_line("10.0.0.1   foo", Some("10.0.0.1")).unwrap();
    assert_eq!(hex::encode(&e), sha3_hex(b"foo"));
    assert_eq!(digest_line("   ", None), None);
    assert_eq!(digest_line("other", Some("10.")), None);
}

#[test]
fn empty_record_is_hashed() {
    let d = digest_line("pfx", Some("pfx")).unwrap();
    assert_eq!(
        hex::encode(&d),
        "a69f73cca23a9ac5c8b567dc185a756e97c982164fe25859e0d1dcc1475c80a615b2123af1f5f94c11e3e9402c3ac558f500199d95b6d3e301758586281dcd26"
    );
}

#[test]
fn hex_text_of_digest() {
    assert_eq!(digest_to_hex(&[0x00, 0x0f, 0xa0, 0xff]), b"000fa0ff".to_vec());
    assert_eq!(digest_to_hex(&[]), Vec::<u8>::new());
}

#[test]
fn parse_round_trips_text_form() {
    let d: Vec<u8> = (0..64u8).collect();
    let text = digest_to_hex(&d);
    assert_eq!(text.len(), 128);
    assert_eq!(parse_digest_line(&text), Some(d));
}

#[test]
fn parse_accepts_upper_case() {
    let line = "AB".repeat(64);
    assert_eq!(parse_digest_line(line.as_bytes()), Some(vec![0xab; 64]));
}

#[test]
fn parse_rejects_bad_lines() {
    assert_eq!(parse_digest_line(b"abc"), None);
    assert_eq!(parse_digest_line("zz".repeat(64).as_bytes()), None);
    assert_eq!(parse_digest_line(b"abcd"), None);
    assert_eq!(parse_digest_line(b""), None);
}

#[test]
fn byte_order_is_lexicographic() {
    assert!(digest_le(&[1, 2], &[1, 3]));
    assert!(!digest_le(&[1, 3], &[1, 2]));
    assert!(digest_le(&[1, 2], &[1, 2]));
    assert!(digest_le(&[1], &[1, 0]));
    assert!(!digest_le(&[1, 0], &[1]));
    assert!(digest_le(&[], &[]));
    assert!(digest_le(&[0x7f], &[0x80]));
}
