//! The on-disk formats: payment records and the height record.

use txchecker::codec::{decode_payment, encode_payment};
use txchecker::height::{decode_height, encode_height, get_height, HeightError, HeightKey};
use txchecker::records::Payment;

#[test]
fn empty_signature_list_text() {
    let p = Payment::new("id".to_string(), 7, 1000);
    let text = encode_payment(&p);
    assert_eq!(text, "{\"id\":\"id\",\"tag\":7,\"amount\":1000,\"signatures\":[]}");
}

#[test]
fn signatures_in_order_text() {
    let mut p = Payment::new("pay-1".to_string(), 2, 600);
    p.signatures.push("s1".to_string());
    p.signatures.push("s2".to_string());
    let text = encode_payment(&p);
    assert_eq!(
        text,
        "{\"id\":\"pay-1\",\"tag\":2,\"amount\":600,\"signatures\":[\"s1\",\"s2\"]}"
    );
}

#[test]
fn escapes_in_id_text() {
    let p = Payment::new("a\"b\\c\nd".to_string(), 0, 1);
    let text = encode_payment(&p);
    assert_eq!(
        text,
        "{\"id\":\"a\\\"b\\\\c\\nd\",\"tag\":0,\"amount\":1,\"signatures\":[]}"
    );
}

#[test]
fn round_trip_plain() {
    let mut p = Payment::new("order-17".to_string(), 42, 123456789);
    p.signatures.push("sig-a".to_string());
    let text = encode_payment(&p);
    let q = decode_payment(&text).expect("a canonical record decodes");
    assert_eq!(q.id, "order-17");
    assert_eq!(q.tag, 42);
    assert_eq!(q.amount, 123456789);
    assert_eq!(q.signatures, vec!["sig-a".to_string()]);
}

#[test]
fn round_trip_escapes_and_unicode() {
    let mut p = Payment::new("a\"b\\c\u{1}d\te\u{7}ß→".to_string(), u64::MAX, u64::MAX);
    p.signatures.push(String::new());
    p.signatures.push("x\ny".to_string());
    let text = encode_payment(&p);
    let q = decode_payment(&text).expect("a canonical record decodes");
    assert_eq!(q.id, p.id);
    assert_eq!(q.tag, u64::MAX);
    assert_eq!(q.amount, u64::MAX);
    assert_eq!(q.signatures, p.signatures);
}

#[test]
fn rejects_non_canonical_text() {
    // not a record at all
    assert!(decode_payment("").is_none());
    assert!(decode_payment("{}").is_none());
    // leading zero in a numeral
    assert!(decode_payment("{\"id\":\"x\",\"tag\":01,\"amount\":1,\"signatures\":[]}").is_none());
    // a tag too large for u64
    assert!(decode_payment(
        "{\"id\":\"x\",\"tag\":99999999999999999999,\"amount\":1,\"signatures\":[]}"
    )
    .is_none());
    // a non-canonical escape for a plain letter
    assert!(decode_payment("{\"id\":\"\\u0041\",\"tag\":1,\"amount\":1,\"signatures\":[]}")
        .is_none());
    // trailing bytes after the record
    assert!(decode_payment("{\"id\":\"x\",\"tag\":1,\"amount\":1,\"signatures\":[]} ").is_none());
    // a raw control character in a string body
    assert!(decode_payment("{\"id\":\"a\u{1}b\",\"tag\":1,\"amount\":1,\"signatures\":[]}")
        .is_none());
}

#[test]
fn accepts_written_record() {
    let q = decode_payment("{\"id\":\"k\",\"tag\":3,\"amount\":250,\"signatures\":[\"s\"]}")
        .expect("decodes");
    assert_eq!(q.id, "k");
    assert_eq!(q.tag, 3);
    assert_eq!(q.amount, 250);
    assert_eq!(q.signatures, vec!["s".to_string()]);
}

#[test]
fn height_bytes_little_endian() {
    let b = encode_height(0x0102030405060708);
    assert_eq!(b, vec![0x08, 0x07, 0x06, 0x05, 0x04, 0x03, 0x02, 0x01]);
    let b = encode_height(150);
    assert_eq!(b, vec![150, 0, 0, 0, 0, 0, 0, 0]);
}

#[test]
fn height_round_trip() {
    for h in [0u64, 1, 150, u64::MAX] {
        let b = encode_height(h);
        assert_eq!(decode_height(&b), Ok(h));
    }
}

#[test]
fn height_wrong_length_is_fatal() {
    assert_eq!(decode_height(&[1, 2, 3]), Err(HeightError::WrongLength));
    assert_eq!(decode_height(&[]), Err(HeightError::WrongLength));
    assert_eq!(
        get_height(Some(vec![0, 0, 0, 0, 0, 0, 0])),
        Err(HeightError::WrongLength)
    );
}

#[test]
fn height_absent_is_no_seed() {
    assert_eq!(get_height(None), Ok(None));
    assert_eq!(get_height(Some(encode_height(100))), Ok(Some(100)));
}

#[test]
fn height_key_is_one_byte() {
    let k = HeightKey::default();
    assert_eq!(k.as_bytes(), vec![1u8]);
    let k = HeightKey::from_u8(&[5]);
    assert_eq!(k.as_bytes(), vec![5u8]);
    // anything but one byte falls back to the fixed key
    let k = HeightKey::from_u8(&[5, 6]);
    assert_eq!(k.as_bytes(), vec![1u8]);
}
