//! The payment book: insertion, credits, retirement and rebuilding.

use txchecker::codec::encode_payment;
use txchecker::domain::{IncomingPayment, IncomingTransferParsed, Pubkey, TransferDataParsed};
use txchecker::payments::{load_payments, LoadError, PaymentBook, StoreAction};
use txchecker::records::{Payment, PubkeyKey};

fn pk(tag: u8) -> Pubkey {
    let mut b = [0u8; 32];
    b[0] = tag;
    Pubkey::Ed25519(b)
}

fn key(tag: u8) -> PubkeyKey {
    PubkeyKey::from(pk(tag))
}

fn payment(id: &str, tag: u64, pubkey: Pubkey, amount: u64) -> IncomingPayment {
    IncomingPayment::new(id.to_string(), tag, TransferDataParsed::new(pubkey, amount))
}

fn transfer(pubkey: Pubkey, amount: u64, sigs: &[&str]) -> IncomingTransferParsed {
    IncomingTransferParsed::new(
        TransferDataParsed::new(pubkey, amount),
        sigs.iter().map(|s| s.to_string()).collect(),
    )
}

#[test]
fn insert_writes_record() {
    let mut book = PaymentBook::new();
    let actions = book.process_incoming_payment(payment("id", 9, pk(1), 1000));
    assert_eq!(actions.len(), 1);
    match &actions[0] {
        StoreAction::Put(k, v) => {
            let mut expect_key = vec![0u8; 32];
            expect_key[0] = 1;
            assert_eq!(k, &expect_key);
            let expect = encode_payment(&Payment::new("id".to_string(), 9, 1000));
            assert_eq!(v, &expect);
        }
        other => panic!("expected a put, got {:?}", other),
    }
    let stored = book.get(&key(1)).expect("inserted");
    assert_eq!(stored.amount, 1000);
    assert_eq!(stored.tag, 9);
    assert!(stored.signatures.is_empty());
}

#[test]
fn exact_credit_retires_entry() {
    let mut book = PaymentBook::new();
    book.process_incoming_payment(payment("id", 1, pk(1), 1000));
    let (actions, meta) = book.process_incoming_transfer(transfer(pk(1), 1000, &["s1"]));
    let meta = meta.expect("the exact credit retires the entry");
    assert!(meta.last());
    let mut p = meta.payment();
    assert_eq!(p.tag(), 1);
    assert_eq!(p.take_signatures(), Some(vec!["s1".to_string()]));
    assert_eq!(p.take_error(), None);
    assert_eq!(p.id(), "id");
    assert!(matches!(&actions[0], StoreAction::Delete(_)));
    assert!(book.is_empty());
}

#[test]
fn overpay_retires_entry_and_credits_no_other() {
    let mut book = PaymentBook::new();
    book.process_incoming_payment(payment("a", 1, pk(1), 1000));
    book.process_incoming_payment(payment("b", 2, pk(2), 500));
    let (actions, meta) = book.process_incoming_transfer(transfer(pk(1), 2500, &["s1"]));
    let meta = meta.expect("the overpay retires the entry");
    assert!(!meta.last());
    let mut p = meta.payment();
    assert_eq!(p.id(), "a");
    assert_eq!(actions.len(), 1);
    assert!(matches!(&actions[0], StoreAction::Delete(_)));
    // the excess is credited nowhere: the other entry is untouched
    let other = book.get(&key(2)).expect("other entry stays");
    assert_eq!(other.amount, 500);
    assert!(other.signatures.is_empty());
    assert!(book.get(&key(1)).is_none());
}

#[test]
fn unknown_pubkey_is_noop() {
    let mut book = PaymentBook::new();
    book.process_incoming_payment(payment("a", 1, pk(1), 1000));
    let (actions, meta) = book.process_incoming_transfer(transfer(pk(9), 700, &["sx"]));
    assert!(actions.is_empty());
    assert!(meta.is_none());
    assert_eq!(book.get(&key(1)).unwrap().amount, 1000);
}

#[test]
fn partial_then_completing_credit() {
    let mut book = PaymentBook::new();
    book.process_incoming_payment(payment("id", 3, pk(1), 1000));
    let (actions, meta) = book.process_incoming_transfer(transfer(pk(1), 400, &["s1"]));
    assert!(meta.is_none());
    match &actions[0] {
        StoreAction::Put(_, v) => {
            // the re-written record carries the reduced amount and the signature
            let mut expect = Payment::new("id".to_string(), 3, 600);
            expect.signatures.push("s1".to_string());
            assert_eq!(v, &encode_payment(&expect));
        }
        other => panic!("expected a put, got {:?}", other),
    }
    let (_, meta) = book.process_incoming_transfer(transfer(pk(1), 600, &["s2"]));
    let mut p = meta.expect("the second credit completes").payment();
    assert_eq!(p.take_signatures(), Some(vec!["s1".to_string(), "s2".to_string()]));
}

#[test]
fn drain_emits_last_exactly_once() {
    let mut book = PaymentBook::new();
    book.process_incoming_payment(payment("a", 1, pk(1), 500));
    book.process_incoming_payment(payment("b", 2, pk(2), 500));
    let (_, meta1) = book.process_incoming_transfer(transfer(pk(1), 500, &["s1"]));
    assert!(!meta1.unwrap().last());
    let (_, meta2) = book.process_incoming_transfer(transfer(pk(2), 500, &["s2"]));
    assert!(meta2.unwrap().last());
    assert!(book.is_empty());
}

#[test]
fn reinsert_replaces_expectation() {
    let mut book = PaymentBook::new();
    book.process_incoming_payment(payment("a", 1, pk(1), 1000));
    book.process_incoming_transfer(transfer(pk(1), 400, &["s1"]));
    // a re-submitted expectation replaces the entry; the accumulated
    // signatures of the prior one are discarded
    book.process_incoming_payment(payment("a", 5, pk(1), 800));
    let p = book.get(&key(1)).unwrap();
    assert_eq!(p.amount, 800);
    assert_eq!(p.tag, 5);
    assert!(p.signatures.is_empty());
}

#[test]
fn rebuild_restores_records() {
    let mut k1 = vec![0u8; 32];
    k1[0] = 1;
    let mut k2 = vec![0u8; 33];
    k2[0] = 2;
    let mut p1 = Payment::new("a".to_string(), 1, 600);
    p1.signatures.push("s1".to_string());
    let p2 = Payment::new("b".to_string(), 2, 500);
    let raw = vec![(k1, encode_payment(&p1)), (k2, encode_payment(&p2))];
    let book = load_payments(raw).expect("a written store reloads");
    let q1 = book.get(&PubkeyKey::from_u8(&{
        let mut b = vec![0u8; 32];
        b[0] = 1;
        b
    }))
    .expect("first record");
    assert_eq!(q1.id, "a");
    assert_eq!(q1.amount, 600);
    assert_eq!(q1.signatures, vec!["s1".to_string()]);
    let q2 = book.get(&PubkeyKey::from_u8(&{
        let mut b = vec![0u8; 33];
        b[0] = 2;
        b
    }))
    .expect("second record");
    assert_eq!(q2.tag, 2);
    assert_eq!(q2.amount, 500);
}

#[test]
fn rebuild_rejects_bad_key() {
    let raw = vec![(vec![1u8, 2, 3], encode_payment(&Payment::new("a".to_string(), 1, 10)))];
    assert_eq!(load_payments(raw).err(), Some(LoadError::InvalidKey));
}

#[test]
fn rebuild_rejects_bad_record() {
    let raw = vec![(vec![0u8; 32], "not a record".to_string())];
    assert_eq!(load_payments(raw).err(), Some(LoadError::InvalidRecord));
}
