//! The chain watcher's logic: reacting to lifecycle transitions, splitting
//! a fetched block into inbound transfers, and turning one observed slot
//! into the parsed transfers and the height to persist.

use vstd::prelude::*;

use crate::domain::{
    Height, IncomingTransfer, IncomingTransferParsed, Slot, State, TransferData,
    TransferDataParsed, SLOT_CONFIRMATION_LAG,
};
use crate::parser::{b58_fits, b58_padded, to_pubkey, AddressError};

verus! {

// ---------------------------------------------------------------------------
// Lifecycle reaction
// ---------------------------------------------------------------------------

/// What the watcher does to its slot channel on a state transition.
#[derive(Debug, Clone, Copy, PartialEq, Eq, Structural)]
pub enum SlotChannelAction {
    /// Open a fresh channel and hand its sender to the slot actor.
    Open,
    /// Close the channel; the slot actor will unsubscribe.
    Close,
    /// Leave the channel as it is.
    Keep,
}

/// The watcher's reaction to a state transition: it subscribes on
/// `Running` while unsubscribed, unsubscribes on `Stopping`, and otherwise
/// does nothing.
pub fn process_state(subscribed: bool, state: State) -> (r: SlotChannelAction)
    ensures
        r == SlotChannelAction::Open <==> state == State::Running && !subscribed,
        r == SlotChannelAction::Close <==> state == State::Stopping,
{
    match state {
        State::Running => {
            if !subscribed {
                SlotChannelAction::Open
            } else {
                SlotChannelAction::Keep
            }
        },
        State::Stopping => SlotChannelAction::Close,
    }
}

/// The slot whose block is fetched for a notification carrying `slot`: the
/// confirmation lag behind it, and slot zero when the notification is
/// within the lag of the chain's start (no underflow).
pub fn target_slot(slot: Slot) -> (r: Slot)
    ensures
        r == if slot >= SLOT_CONFIRMATION_LAG {
            (slot - SLOT_CONFIRMATION_LAG) as u64
        } else {
            0u64
        },
{
    slot.saturating_sub(SLOT_CONFIRMATION_LAG)
}

// ---------------------------------------------------------------------------
// Block decomposition
// ---------------------------------------------------------------------------

/// The balance metadata of one transaction.
pub struct Meta {
    pub post_balances: Vec<u64>,
    pub pre_balances: Vec<u64>,
}

/// The account list of one transaction's message.
pub struct Message {
    pub account_keys: Vec<String>,
}

/// One transaction of a fetched block.
pub struct Transaction {
    pub message: Message,
    pub signatures: Vec<String>,
}

/// One transaction with its metadata.
pub struct GetTransactionRes {
    pub meta: Meta,
    pub transaction: Transaction,
}

/// The consumed part of a `getBlock` response.
pub struct GetBlockRes {
    pub transactions: Vec<GetTransactionRes>,
}

/// The mathematical content of one inbound transfer.
pub ghost struct TransferModel {
    pub address: Seq<char>,
    pub amount: u64,
    pub signatures: Seq<Seq<char>>,
}

/// How many indices the zip of account keys with both balance lists covers.
pub open spec fn zip_len(tx: GetTransactionRes) -> int {
    let a = tx.transaction.message.account_keys@.len() as int;
    let b = tx.meta.pre_balances@.len() as int;
    let c = tx.meta.post_balances@.len() as int;
    if a <= b && a <= c {
        a
    } else if b <= c {
        b
    } else {
        c
    }
}

/// The transfers of one transaction's first `n` zipped indices: one per
/// index whose balance grew, carrying the growth and the transaction's
/// full signature set.
pub open spec fn tx_transfers_upto(tx: GetTransactionRes, n: int) -> Seq<TransferModel>
    decreases n,
{
    if n <= 0 {
        Seq::empty()
    } else {
        let prev = tx_transfers_upto(tx, n - 1);
        let i = n - 1;
        if tx.meta.pre_balances@[i] < tx.meta.post_balances@[i] {
            prev.push(
                TransferModel {
                    address: tx.transaction.message.account_keys@[i]@,
                    amount: (tx.meta.post_balances@[i] - tx.meta.pre_balances@[i]) as u64,
                    signatures: tx.transaction.signatures.deep_view(),
                },
            )
        } else {
            prev
        }
    }
}

/// The transfers of one transaction.
pub open spec fn tx_transfers(tx: GetTransactionRes) -> Seq<TransferModel> {
    tx_transfers_upto(tx, zip_len(tx))
}

/// The transfers of a block's first `n` transactions, in scan order.
pub open spec fn block_transfers_upto(b: GetBlockRes, n: int) -> Seq<TransferModel>
    decreases n,
{
    if n <= 0 {
        Seq::empty()
    } else {
        block_transfers_upto(b, n - 1) + tx_transfers(b.transactions@[n - 1])
    }
}

/// The transfers of a whole block, in scan order.
pub open spec fn block_transfers(b: GetBlockRes) -> Seq<TransferModel> {
    block_transfers_upto(b, b.transactions@.len() as int)
}

/// The content of one built transfer.
pub open spec fn transfer_model(t: IncomingTransfer) -> TransferModel {
    TransferModel {
        address: t.spec_data().spec_address(),
        amount: t.spec_data().spec_amount(),
        signatures: t.spec_signatures(),
    }
}

/// The content of a list of built transfers.
pub open spec fn transfer_models(ts: Seq<IncomingTransfer>) -> Seq<TransferModel> {
    Seq::new(ts.len(), |i: int| transfer_model(ts[i]))
}

/// A copy of a signature list.
fn clone_strings(v: &Vec<String>) -> (r: Vec<String>)
    ensures
        r.deep_view() == v.deep_view(),
{
    let mut r: Vec<String> = Vec::new();
    let n = v.len();
    let mut i: usize = 0;
    while i < n
        invariant
            i <= n,
            n == v@.len(),
            r@.len() == i,
            forall|k: int| 0 <= k < i ==> (#[trigger] r@[k])@ == v@[k]@,
        decreases n - i,
    {
        r.push(v[i].clone());
        i += 1;
    }
    proof {
        assert(r.deep_view() =~= v.deep_view());
    }
    r
}

impl GetBlockRes {
    /// Decomposes the block into its inbound transfers: for every
    /// transaction, each zipped index whose balance grew yields a transfer
    /// with that account's address, the growth, and the transaction's full
    /// signature set, in scan order.
    pub fn into_transfers(self) -> (r: Vec<IncomingTransfer>)
        ensures
            transfer_models(r@) == block_transfers(self),
    {
        let mut out: Vec<IncomingTransfer> = Vec::new();
        let ntx = self.transactions.len();
        let mut i: usize = 0;
        while i < ntx
            invariant
                i <= ntx,
                ntx == self.transactions@.len(),
                transfer_models(out@) =~= block_transfers_upto(self, i as int),
            decreases ntx - i,
        {
            let tx = &self.transactions[i];
            let a = tx.transaction.message.account_keys.len();
            let b = tx.meta.pre_balances.len();
            let c = tx.meta.post_balances.len();
            let n = if a <= b && a <= c {
                a
            } else if b <= c {
                b
            } else {
                c
            };
            proof {
                assert(n as int == zip_len(self.transactions@[i as int]));
            }
            let mut j: usize = 0;
            while j < n
                invariant
                    j <= n,
                    i < ntx,
                    ntx == self.transactions@.len(),
                    n as int <= tx.transaction.message.account_keys@.len(),
                    n as int <= tx.meta.pre_balances@.len(),
                    n as int <= tx.meta.post_balances@.len(),
                    tx == &self.transactions@[i as int],
                    transfer_models(out@) =~= block_transfers_upto(self, i as int)
                        + tx_transfers_upto(self.transactions@[i as int], j as int),
                decreases n - j,
            {
                let pre = tx.meta.pre_balances[j];
                let post = tx.meta.post_balances[j];
                if pre < post {
                    let address = tx.transaction.message.account_keys[j].clone();
                    let sigs = clone_strings(&tx.transaction.signatures);
                    let t = IncomingTransfer::new(
                        TransferData::new(address, post - pre),
                        sigs,
                    );
                    let ghost preout = out@;
                    out.push(t);
                    proof {
                        assert(transfer_models(out@) =~= transfer_models(preout).push(
                            transfer_model(t),
                        ));
                        assert(transfer_model(t) == tx_transfers_upto(
                            self.transactions@[i as int],
                            j + 1,
                        ).last());
                        assert(transfer_models(out@) =~= block_transfers_upto(self, i as int)
                            + tx_transfers_upto(self.transactions@[i as int], j + 1));
                    }
                } else {
                    proof {
                        assert(tx_transfers_upto(self.transactions@[i as int], j + 1)
                            == tx_transfers_upto(self.transactions@[i as int], j as int));
                    }
                }
                j += 1;
            }
            proof {
                assert(transfer_models(out@) =~= block_transfers_upto(self, i + 1));
            }
            i += 1;
        }
        out
    }
}

// ---------------------------------------------------------------------------
// Per-slot processing
// ---------------------------------------------------------------------------

/// Whether a raw transfer's address decodes to a key.
pub open spec fn parseable(t: IncomingTransfer) -> bool {
    b58_fits(t.spec_data().spec_address())
}

/// Whether `p` is the parsed form of the raw transfer `t`.
pub open spec fn is_parsed_of(p: IncomingTransferParsed, t: IncomingTransfer) -> bool {
    &&& p.spec_data().spec_pubkey() is Ed25519
    &&& p.spec_data().spec_pubkey().spec_bytes() == b58_padded(t.spec_data().spec_address())
    &&& p.spec_data().spec_amount() == t.spec_data().spec_amount()
    &&& p.spec_signatures() == t.spec_signatures()
}

/// A raw transfer becomes a parsed one by decoding its address; the amount
/// and the signatures carry over.
pub fn parse_transfer(t: IncomingTransfer) -> (r: Result<IncomingTransferParsed, AddressError>)
    ensures
        match r {
            Ok(p) => parseable(t) && is_parsed_of(p, t),
            Err(_) => !parseable(t),
        },
{
    let (transfer_data, signatures) = t.expose();
    let amount = transfer_data.amount();
    let address = transfer_data.address();
    match to_pubkey(&address) {
        Ok(pubkey) => Ok(
            IncomingTransferParsed::new(TransferDataParsed::new(pubkey, amount), signatures),
        ),
        Err(e) => Err(e),
    }
}

/// The capability of parsing a raw transfer; implemented for
/// [`IncomingTransfer`] by address decoding.
pub trait TryIntoParsed {
    fn try_into_parsed(self) -> Result<IncomingTransferParsed, AddressError>;
}

impl TryIntoParsed for IncomingTransfer {
    fn try_into_parsed(self) -> Result<IncomingTransferParsed, AddressError> {
        parse_transfer(self)
    }
}

/// Processes one observed slot's fetched transfers: parses them in scan
/// order and stops at the first undecodable address. On full success the
/// height to persist is the raw notification slot; after a failure nothing
/// more is forwarded and the height is withheld, so a restart replays the
/// slot. The transfers parsed before the failure are forwarded regardless.
pub fn process_slot(slot: Slot, transfers: Vec<IncomingTransfer>) -> (r: (
    Vec<IncomingTransferParsed>,
    Option<Height>,
))
    ensures
        ({
            let ts = transfers@;
            let n = r.0@.len() as int;
            &&& n <= ts.len()
            &&& forall|i: int| 0 <= i < n ==> is_parsed_of(#[trigger] r.0@[i], ts[i])
            &&& forall|i: int| 0 <= i < n ==> parseable(#[trigger] ts[i])
            &&& match r.1 {
                Some(h) => h == slot && n == ts.len(),
                None => n < ts.len() && !parseable(ts[n]),
            }
        }),
{
    let mut out: Vec<IncomingTransferParsed> = Vec::new();
    let n = transfers.len();
    let ghost ts = transfers@;
    let mut rest = transfers;
    let mut i: usize = 0;
    #[verifier::loop_isolation(false)]
    while i < n
        invariant
            i <= n,
            n == ts.len(),
            rest@.len() == n - i,
            forall|k: int| i <= k < n ==> (#[trigger] ts[k]) == rest@[k - i],
            out@.len() == i,
            forall|k: int| 0 <= k < i ==> is_parsed_of(#[trigger] out@[k], ts[k]),
            forall|k: int| 0 <= k < i ==> parseable(#[trigger] ts[k]),
        decreases n - i,
    {
        let t = rest.remove(0);
        proof {
            assert(t == ts[i as int]);
            assert(forall|k: int| i + 1 <= k < n ==> (#[trigger] ts[k]) == rest@[k - i - 1]);
        }
        match parse_transfer(t) {
            Ok(p) => {
                out.push(p);
            },
            Err(_) => {
                proof {
                    assert(out@.len() < ts.len());
                    assert(!parseable(ts[out@.len() as int]));
                }
                return (out, None);
            },
        }
        i += 1;
    }
    (out, Some(slot))
}

} // verus!
