//! End-to-end scenarios through the verified pipeline: ingress, block
//! decomposition, matching and egress, driven synchronously.

use txchecker::domain::{IncomingPayment, Pubkey, State};
use txchecker::ingress::{process_message, process_payment, ConsumerMsg, TransferMsg};
use txchecker::parser::Parser;
use txchecker::payments::PaymentBook;
use txchecker::slots::SlotSession;
use txchecker::watch::{
    process_slot, process_state, target_slot, GetBlockRes, GetTransactionRes, Message, Meta,
    SlotChannelAction, Transaction,
};

fn block_one_tx(address: &str, delta: u64, signature: &str) -> GetBlockRes {
    GetBlockRes {
        transactions: vec![GetTransactionRes {
            meta: Meta { pre_balances: vec![0], post_balances: vec![delta] },
            transaction: Transaction {
                message: Message { account_keys: vec![address.to_string()] },
                signatures: vec![signature.to_string()],
            },
        }],
    }
}

fn ingest(book: &mut PaymentBook, id: &str, address: &str, amount: u64, tag: u64) -> State {
    let msg = ConsumerMsg::new(
        TransferMsg { id: id.to_string(), address: address.to_string(), amount },
        tag,
    );
    let (incoming, state): (IncomingPayment, State) =
        process_message(&Parser, msg).expect("the address decodes");
    book.process_incoming_payment(incoming);
    state
}

#[test]
fn process_valid_msg() {
    const ID: &str = "id";
    const ADDRESS: &str = "address";
    const AMOUNT: u64 = 1000;
    const SIGNATURE: &str = "signature";

    let mut book = PaymentBook::new();
    let state = ingest(&mut book, ID, ADDRESS, AMOUNT, 1);
    assert_eq!(state, State::Running);

    // one slot whose block credits the watched address in full
    let transfers = block_one_tx(ADDRESS, AMOUNT, SIGNATURE).into_transfers();
    let (parsed, height) = process_slot(150, transfers);
    assert_eq!(height, Some(150));

    let mut metas = Vec::new();
    for t in parsed {
        let (_, meta) = book.process_incoming_transfer(t);
        if let Some(m) = meta {
            metas.push(m);
        }
    }
    assert_eq!(metas.len(), 1);
    let (state, result) = process_payment(metas.remove(0));
    assert_eq!(state, Some(State::Stopping));
    let signature = SIGNATURE.to_string();
    assert!(result.msg.signatures.unwrap().into_iter().any(|s| s == signature));
    assert_eq!(ID.to_string(), result.msg.id);
    assert!(book.is_empty());
}

#[test]
fn partial_then_completion() {
    let mut book = PaymentBook::new();
    ingest(&mut book, "id", "address", 1000, 1);

    let (parsed, _) = process_slot(10, block_one_tx("address", 400, "s1").into_transfers());
    let mut outputs = Vec::new();
    for t in parsed {
        let (_, meta) = book.process_incoming_transfer(t);
        if let Some(m) = meta {
            outputs.push(m);
        }
    }
    // no result after the first block
    assert!(outputs.is_empty());

    let (parsed, _) = process_slot(11, block_one_tx("address", 600, "s2").into_transfers());
    for t in parsed {
        let (_, meta) = book.process_incoming_transfer(t);
        if let Some(m) = meta {
            outputs.push(m);
        }
    }
    assert_eq!(outputs.len(), 1);
    let (state, result) = process_payment(outputs.remove(0));
    assert_eq!(state, Some(State::Stopping));
    assert_eq!(result.msg.signatures.unwrap(), vec!["s1".to_string(), "s2".to_string()]);
}

#[test]
fn overpay_retires_with_single_signature() {
    let mut book = PaymentBook::new();
    ingest(&mut book, "id", "address", 1000, 1);
    let (parsed, _) = process_slot(10, block_one_tx("address", 2500, "s1").into_transfers());
    let mut outputs = Vec::new();
    for t in parsed {
        let (_, meta) = book.process_incoming_transfer(t);
        if let Some(m) = meta {
            outputs.push(m);
        }
    }
    assert_eq!(outputs.len(), 1);
    let (_, result) = process_payment(outputs.remove(0));
    assert_eq!(result.msg.signatures.unwrap(), vec!["s1".to_string()]);
    assert!(book.is_empty());
}

#[test]
fn ignored_transfer_still_advances_height() {
    let mut book = PaymentBook::new();
    let (parsed, height) = process_slot(77, block_one_tx("address", 500, "s1").into_transfers());
    // the transfer reaches matching, which ignores the unknown key; the
    // height still advances
    assert_eq!(height, Some(77));
    let mut outputs = Vec::new();
    for t in parsed {
        let (actions, meta) = book.process_incoming_transfer(t);
        assert!(actions.is_empty());
        if let Some(m) = meta {
            outputs.push(m);
        }
    }
    assert!(outputs.is_empty());
    assert!(book.is_empty());
}

#[test]
fn restart_replays_missed_slots() {
    // persisted height 100; the first live notification carries slot 150
    let mut session = SlotSession::new(Some(100));
    let slots = session.on_notification(150);
    assert_eq!(slots.len(), 51);
    assert_eq!(slots[0], 100);
    assert_eq!(slots[49], 149);
    assert_eq!(slots[50], 150);
    // the watcher fetches each shifted by the confirmation lag: 60..=110
    let targets: Vec<u64> = slots.iter().map(|s| target_slot(*s)).collect();
    assert_eq!(targets[0], 60);
    assert_eq!(targets[50], 110);
    for w in targets.windows(2) {
        assert!(w[0] <= w[1]);
    }
    // later notifications pass through unchanged
    let slots = session.on_notification(151);
    assert_eq!(slots, vec![151]);
}

#[test]
fn two_concurrent_payments_one_block() {
    let mut book = PaymentBook::new();
    ingest(&mut book, "id1", "address", 500, 1);
    ingest(&mut book, "id2", "another", 500, 2);

    // a single block credits both, in scan order
    let block = GetBlockRes {
        transactions: vec![
            GetTransactionRes {
                meta: Meta { pre_balances: vec![0], post_balances: vec![500] },
                transaction: Transaction {
                    message: Message { account_keys: vec!["address".to_string()] },
                    signatures: vec!["s1".to_string()],
                },
            },
            GetTransactionRes {
                meta: Meta { pre_balances: vec![0], post_balances: vec![500] },
                transaction: Transaction {
                    message: Message { account_keys: vec!["another".to_string()] },
                    signatures: vec!["s2".to_string()],
                },
            },
        ],
    };
    let (parsed, _) = process_slot(9, block.into_transfers());
    let mut outputs = Vec::new();
    for t in parsed {
        let (_, meta) = book.process_incoming_transfer(t);
        if let Some(m) = meta {
            outputs.push(m);
        }
    }
    assert_eq!(outputs.len(), 2);
    let (state1, r1) = process_payment(outputs.remove(0));
    let (state2, r2) = process_payment(outputs.remove(0));
    assert_eq!(r1.msg.id, "id1");
    assert_eq!(r2.msg.id, "id2");
    assert_eq!(state1, None);
    assert_eq!(state2, Some(State::Stopping));
}

#[test]
fn lag_saturates_at_chain_start() {
    assert_eq!(target_slot(39), 0);
    assert_eq!(target_slot(40), 0);
    assert_eq!(target_slot(41), 1);
    assert_eq!(target_slot(0), 0);
}

#[test]
fn state_reaction_drives_subscription() {
    assert_eq!(process_state(false, State::Running), SlotChannelAction::Open);
    assert_eq!(process_state(true, State::Running), SlotChannelAction::Keep);
    assert_eq!(process_state(true, State::Stopping), SlotChannelAction::Close);
    assert_eq!(process_state(false, State::Stopping), SlotChannelAction::Close);
}

#[test]
fn undecodable_address_stops_the_slot() {
    // '0' is outside the base58 alphabet, so the second transfer fails and
    // the height is withheld; the first transfer was already forwarded
    let block = GetBlockRes {
        transactions: vec![GetTransactionRes {
            meta: Meta { pre_balances: vec![0, 0], post_balances: vec![10, 20] },
            transaction: Transaction {
                message: Message {
                    account_keys: vec!["good".to_string(), "0bad".to_string()],
                },
                signatures: vec!["s".to_string()],
            },
        }],
    };
    let (parsed, height) = process_slot(5, block.into_transfers());
    assert_eq!(parsed.len(), 1);
    assert_eq!(height, None);
}

#[test]
fn drained_book_raises_running_again() {
    let mut book = PaymentBook::new();
    let state = ingest(&mut book, "id", "address", 10, 1);
    assert_eq!(state, State::Running);
    // every inbound message raises Running, also while already running
    let state = ingest(&mut book, "id2", "another", 10, 2);
    assert_eq!(state, State::Running);
}

#[test]
fn block_scan_order_is_kept() {
    // one transaction with two growing accounts yields both transfers in
    // index order, each with the transaction's full signature set
    let block = GetBlockRes {
        transactions: vec![GetTransactionRes {
            meta: Meta { pre_balances: vec![5, 7, 9], post_balances: vec![6, 7, 29] },
            transaction: Transaction {
                message: Message {
                    account_keys: vec!["a".to_string(), "b".to_string(), "c".to_string()],
                },
                signatures: vec!["s1".to_string(), "s2".to_string()],
            },
        }],
    };
    let transfers = block.into_transfers();
    assert_eq!(transfers.len(), 2);
    let (d0, sigs0) = transfers.into_iter().next().unwrap().expose();
    assert_eq!(d0.amount(), 1);
    assert_eq!(d0.address(), "a");
    assert_eq!(sigs0, vec!["s1".to_string(), "s2".to_string()]);
}
