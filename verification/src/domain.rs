//! Domain model of the service: recipient public keys, transfers observed on
//! the chain, payment expectations entering the pipeline and the processed
//! records leaving it, together with the lifecycle state of the watcher.

use vstd::prelude::*;

verus! {

/// Length in bytes of an Ed25519 public key.
pub const ED25519_PUBKEY_LEN: usize = 32;

/// Length in bytes of a compressed Secp256k1 public key.
pub const SECP256K1_PUBKEY_LEN: usize = 33;

/// The chain's monotonic block-height index.
pub type Slot = u64;

/// The most recently observed slot, as persisted between runs.
pub type Height = u64;

/// Offset subtracted from an observed slot before the block fetch, so that
/// the fetched block is finalized and its transaction metadata is stable.
pub const SLOT_CONFIRMATION_LAG: Slot = 40;

/// A recipient public key, derived from a base58-decoded address.
#[derive(Debug, Clone)]
pub enum Pubkey {
    Ed25519([u8; ED25519_PUBKEY_LEN]),
    Secp256k1([u8; SECP256K1_PUBKEY_LEN]),
}

impl Pubkey {
    /// The raw bytes of the key. The two variants have different lengths,
    /// so the byte sequence determines the variant.
    pub open spec fn spec_bytes(&self) -> Seq<u8> {
        match self {
            Pubkey::Ed25519(a) => a@,
            Pubkey::Secp256k1(a) => a@,
        }
    }
}

/// Lifecycle of the chain watcher: `Running` while payments are outstanding,
/// `Stopping` once the book has drained.
#[derive(Debug, Clone, Copy, PartialEq, Eq, Structural)]
pub enum State {
    Running,
    Stopping,
}

/// An inbound transfer destination as it appears on the wire: a base58
/// address and the amount credited to it.
#[derive(Debug)]
pub struct TransferData {
    address: String,
    amount: u64,
}

impl TransferData {
    pub closed spec fn spec_address(&self) -> Seq<char> {
        self.address@
    }

    pub closed spec fn spec_amount(&self) -> u64 {
        self.amount
    }

    pub fn new(address: String, amount: u64) -> (r: Self)
        ensures
            r.spec_address() == address@,
            r.spec_amount() == amount,
    {
        Self { address, amount }
    }

    pub fn address(self) -> (r: String)
        ensures
            r@ == self.spec_address(),
    {
        self.address
    }

    pub fn amount(&self) -> (r: u64)
        ensures
            r == self.spec_amount(),
    {
        self.amount
    }
}

/// A transfer destination whose address has been decoded to a [`Pubkey`].
#[derive(Debug)]
pub struct TransferDataParsed {
    pubkey: Pubkey,
    amount: u64,
}

impl TransferDataParsed {
    pub closed spec fn spec_pubkey(&self) -> Pubkey {
        self.pubkey
    }

    pub closed spec fn spec_amount(&self) -> u64 {
        self.amount
    }

    pub fn new(pubkey: Pubkey, amount: u64) -> (r: Self)
        ensures
            r.spec_pubkey() == pubkey,
            r.spec_amount() == amount,
    {
        Self { pubkey, amount }
    }

    pub fn pubkey(self) -> (r: Pubkey)
        ensures
            r == self.spec_pubkey(),
    {
        self.pubkey
    }

    pub fn amount(&self) -> (r: u64)
        ensures
            r == self.spec_amount(),
    {
        self.amount
    }
}

/// One positive balance delta found in a block, still carrying its string
/// address, together with the full signature set of its transaction.
#[derive(Debug)]
pub struct IncomingTransfer {
    transfer_data: TransferData,
    signatures: Vec<String>,
}

impl IncomingTransfer {
    pub closed spec fn spec_data(&self) -> TransferData {
        self.transfer_data
    }

    pub closed spec fn spec_signatures(&self) -> Seq<Seq<char>> {
        self.signatures.deep_view()
    }

    pub fn new(transfer_data: TransferData, signatures: Vec<String>) -> (r: Self)
        ensures
            r.spec_data() == transfer_data,
            r.spec_signatures() == signatures.deep_view(),
    {
        Self { transfer_data, signatures }
    }

    pub fn expose(self) -> (r: (TransferData, Vec<String>))
        ensures
            r.0 == self.spec_data(),
            r.1.deep_view() == self.spec_signatures(),
    {
        (self.transfer_data, self.signatures)
    }
}

/// An [`IncomingTransfer`] whose address has been decoded to a [`Pubkey`].
#[derive(Debug)]
pub struct IncomingTransferParsed {
    transfer_data: TransferDataParsed,
    signatures: Vec<String>,
}

impl IncomingTransferParsed {
    pub closed spec fn spec_data(&self) -> TransferDataParsed {
        self.transfer_data
    }

    pub closed spec fn spec_signatures(&self) -> Seq<Seq<char>> {
        self.signatures.deep_view()
    }

    pub fn new(transfer_data: TransferDataParsed, signatures: Vec<String>) -> (r: Self)
        ensures
            r.spec_data() == transfer_data,
            r.spec_signatures() == signatures.deep_view(),
    {
        Self { transfer_data, signatures }
    }

    pub fn expose(self) -> (r: (TransferDataParsed, Vec<String>))
        ensures
            r.0 == self.spec_data(),
            r.1.deep_view() == self.spec_signatures(),
    {
        (self.transfer_data, self.signatures)
    }
}

/// A payment expectation on its way from the bus to the payment book: the
/// client's request id, the bus delivery tag of the request, and the decoded
/// destination with the expected amount.
pub struct IncomingPayment {
    id: String,
    tag: u64,
    transfer_data: TransferDataParsed,
}

impl IncomingPayment {
    pub closed spec fn spec_id(&self) -> Seq<char> {
        self.id@
    }

    pub closed spec fn spec_tag(&self) -> u64 {
        self.tag
    }

    pub closed spec fn spec_data(&self) -> TransferDataParsed {
        self.transfer_data
    }

    pub fn new(id: String, tag: u64, transfer_data: TransferDataParsed) -> (r: Self)
        ensures
            r.spec_id() == id@,
            r.spec_tag() == tag,
            r.spec_data() == transfer_data,
    {
        Self { id, tag, transfer_data }
    }

    pub fn tag(&self) -> (r: u64)
        ensures
            r == self.spec_tag(),
    {
        self.tag
    }

    pub fn expose(self) -> (r: (String, TransferDataParsed))
        ensures
            r.0@ == self.spec_id(),
            r.1 == self.spec_data(),
    {
        (self.id, self.transfer_data)
    }
}

/// A retired expectation: the request id and delivery tag it entered with,
/// and the signatures of the transactions whose credits retired it.
/// `error` is carried for the result schema and is never populated.
pub struct ProcessedPayment {
    id: String,
    tag: u64,
    signatures: Option<Vec<String>>,
    error: Option<()>,
}

impl ProcessedPayment {
    pub closed spec fn spec_id(&self) -> Seq<char> {
        self.id@
    }

    pub closed spec fn spec_tag(&self) -> u64 {
        self.tag
    }

    pub closed spec fn spec_signatures(&self) -> Option<Seq<Seq<char>>> {
        match self.signatures {
            Some(s) => Some(s.deep_view()),
            None => None,
        }
    }

    pub closed spec fn spec_error(&self) -> Option<()> {
        self.error
    }

    pub fn new(id: String, tag: u64, signatures: Option<Vec<String>>, error: Option<()>) -> (r:
        Self)
        ensures
            r.spec_id() == id@,
            r.spec_tag() == tag,
            r.spec_signatures() == match signatures {
                Some(s) => Some(s.deep_view()),
                None => None::<Seq<Seq<char>>>,
            },
            r.spec_error() == error,
    {
        Self { id, tag, signatures, error }
    }

    pub fn id(self) -> (r: String)
        ensures
            r@ == self.spec_id(),
    {
        self.id
    }

    pub fn tag(&self) -> (r: u64)
        ensures
            r == self.spec_tag(),
    {
        self.tag
    }

    /// Moves the signature list out, leaving `None` behind.
    pub fn take_signatures(&mut self) -> (r: Option<Vec<String>>)
        ensures
            match r {
                Some(s) => Some(s.deep_view()) == old(self).spec_signatures(),
                None => old(self).spec_signatures() is None,
            },
            final(self).spec_signatures() is None,
            final(self).spec_id() == old(self).spec_id(),
            final(self).spec_tag() == old(self).spec_tag(),
            final(self).spec_error() == old(self).spec_error(),
    {
        self.signatures.take()
    }

    /// Moves the error out, leaving `None` behind.
    pub fn take_error(&mut self) -> (r: Option<()>)
        ensures
            r == old(self).spec_error(),
            final(self).spec_error() is None,
            final(self).spec_id() == old(self).spec_id(),
            final(self).spec_tag() == old(self).spec_tag(),
            final(self).spec_signatures() == old(self).spec_signatures(),
    {
        self.error.take()
    }
}

/// A [`ProcessedPayment`] tagged with whether its completion emptied the
/// book; the flag drives the transition to [`State::Stopping`].
pub struct ProcessedPaymentMeta {
    payment: ProcessedPayment,
    last: bool,
}

impl ProcessedPaymentMeta {
    pub closed spec fn spec_payment(&self) -> ProcessedPayment {
        self.payment
    }

    pub closed spec fn spec_last(&self) -> bool {
        self.last
    }

    pub fn new(payment: ProcessedPayment, last: bool) -> (r: Self)
        ensures
            r.spec_payment() == payment,
            r.spec_last() == last,
    {
        Self { payment, last }
    }

    pub fn payment(self) -> (r: ProcessedPayment)
        ensures
            r == self.spec_payment(),
    {
        self.payment
    }

    pub fn last(&self) -> (r: bool)
        ensures
            r == self.spec_last(),
    {
        self.last
    }
}

} // verus!
