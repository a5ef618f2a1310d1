//! The wire texts of the chain requests, and address decoding.

use txchecker::domain::Pubkey;
use txchecker::parser::{to_pubkey, Parser, ParserPort};
use txchecker::rpc::{get_block_request, slot_subscribe_request, slot_unsubscribe_request};

#[test]
fn subscribe_request_text() {
    assert_eq!(
        slot_subscribe_request(),
        "{\"jsonrpc\":\"2.0\",\"id\":\"1\",\"method\":\"slotSubscribe\"}"
    );
}

#[test]
fn get_block_request_text() {
    assert_eq!(
        get_block_request(110),
        "{\"jsonrpc\":\"2.0\",\"id\":\"1\",\"method\":\"getBlock\",\"params\":[110,{\"commitment\":\"finalized\",\"encoding\":\"json\"}]}"
    );
    assert_eq!(
        get_block_request(0),
        "{\"jsonrpc\":\"2.0\",\"id\":\"1\",\"method\":\"getBlock\",\"params\":[0,{\"commitment\":\"finalized\",\"encoding\":\"json\"}]}"
    );
}

#[test]
fn unsubscribe_request_text() {
    assert_eq!(
        slot_unsubscribe_request(3),
        "{\"jsonrpc\":\"2.0\",\"id\":\"1\",\"method\":\"slotUnsubscribe\",\"params\":[3]}"
    );
}

#[test]
fn base58_decodes_into_key_front() {
    // "2" is the base58 numeral for the single byte 1; it lands at the
    // front of the key, zeros behind
    let pk = to_pubkey(&"2".to_string()).expect("decodes");
    match pk {
        Pubkey::Ed25519(b) => {
            assert_eq!(b[0], 1);
            assert!(b[1..].iter().all(|x| *x == 0));
        }
        other => panic!("expected an Ed25519 key, got {:?}", other),
    }
}

#[test]
fn base58_all_ones_is_zero_key() {
    let pk = to_pubkey(&"11111111111111111111111111111111".to_string()).expect("decodes");
    match pk {
        Pubkey::Ed25519(b) => assert_eq!(b, [0u8; 32]),
        other => panic!("expected an Ed25519 key, got {:?}", other),
    }
}

#[test]
fn base58_rejects_foreign_characters() {
    // '0', 'O', 'I' and 'l' are outside the alphabet
    assert!(to_pubkey(&"0".to_string()).is_err());
    assert!(to_pubkey(&"O".to_string()).is_err());
    assert!(to_pubkey(&"hello world".to_string()).is_err());
}

#[test]
fn base58_rejects_oversized_addresses() {
    // 44 'z's decode to more than 32 bytes
    let s = "z".repeat(44);
    assert!(to_pubkey(&s).is_err());
}

#[test]
fn parser_port_is_the_decoder() {
    let direct = to_pubkey(&"address".to_string()).expect("decodes");
    let via_port = Parser.to_pubkey(&"address".to_string()).expect("decodes");
    match (direct, via_port) {
        (Pubkey::Ed25519(a), Pubkey::Ed25519(b)) => assert_eq!(a, b),
        _ => panic!("expected Ed25519 keys"),
    }
}
