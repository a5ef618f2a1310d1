//! The records of the two durable stores: the payment expectation kept under
//! a recipient key, and the key itself as raw bytes.

use vstd::prelude::*;

use crate::domain::{Pubkey, ED25519_PUBKEY_LEN, SECP256K1_PUBKEY_LEN};

verus! {

/// Copies a slice of exactly `N` bytes into an array.
pub fn slice_to_arr<const N: usize>(slice: &[u8]) -> (r: [u8; N])
    requires
        slice@.len() == N,
    ensures
        r@ == slice@,
{
    let mut arr: [u8; N] = [0; N];
    let mut i: usize = 0;
    while i < N
        invariant
            i <= N,
            slice@.len() == N,
            arr@.len() == N,
            forall|k: int| 0 <= k < i ==> arr@[k] == slice@[k],
        decreases N - i,
    {
        arr[i] = slice[i];
        i += 1;
    }
    proof {
        assert(arr@ =~= slice@);
    }
    arr
}

/// A store key: the raw bytes of a recipient public key. `Unknown` stands
/// for a key whose length fits neither variant; it never reaches the book.
#[derive(Debug)]
pub enum PubkeyKey {
    Ed25519([u8; ED25519_PUBKEY_LEN]),
    Secp256k1([u8; SECP256K1_PUBKEY_LEN]),
    Unknown,
}

impl PubkeyKey {
    /// The raw bytes of the key; the two real variants have different
    /// lengths, and `Unknown` is empty, so the bytes determine the variant.
    pub open spec fn spec_bytes(&self) -> Seq<u8> {
        match self {
            PubkeyKey::Ed25519(a) => a@,
            PubkeyKey::Secp256k1(a) => a@,
            PubkeyKey::Unknown => Seq::empty(),
        }
    }

    /// Whether the key is one of the two real variants.
    pub open spec fn is_valid(&self) -> bool {
        !(self is Unknown)
    }

    /// Reads a key back from its stored bytes; a length that fits neither
    /// variant yields `Unknown`.
    pub fn from_u8(key: &[u8]) -> (r: Self)
        ensures
            key@.len() == ED25519_PUBKEY_LEN || key@.len() == SECP256K1_PUBKEY_LEN ==> r.spec_bytes()
                == key@ && r.is_valid(),
            key@.len() != ED25519_PUBKEY_LEN && key@.len() != SECP256K1_PUBKEY_LEN ==> r is Unknown,
    {
        let n = key.len();
        if n == ED25519_PUBKEY_LEN {
            PubkeyKey::Ed25519(slice_to_arr(key))
        } else if n == SECP256K1_PUBKEY_LEN {
            PubkeyKey::Secp256k1(slice_to_arr(key))
        } else {
            PubkeyKey::Unknown
        }
    }

    /// The key's bytes, as stored.
    pub fn as_ref(&self) -> (r: &[u8])
        ensures
            r@ == self.spec_bytes(),
    {
        match self {
            PubkeyKey::Ed25519(a) => a.as_slice(),
            PubkeyKey::Secp256k1(a) => a.as_slice(),
            PubkeyKey::Unknown => {
                let empty: &[u8] = &[];
                proof {
                    assert(empty@ =~= Seq::<u8>::empty());
                }
                empty
            },
        }
    }

    /// Byte equality of two keys, which coincides with key equality.
    pub fn same_key(&self, other: &Self) -> (r: bool)
        ensures
            r == (self.spec_bytes() == other.spec_bytes()),
    {
        bytes_eq(self.as_ref(), other.as_ref())
    }
}

/// Byte-wise equality of two slices.
pub fn bytes_eq(a: &[u8], b: &[u8]) -> (r: bool)
    ensures
        r == (a@ == b@),
{
    if a.len() != b.len() {
        return false;
    }
    let n = a.len();
    let mut i: usize = 0;
    while i < n
        invariant
            i <= n,
            n == a@.len(),
            n == b@.len(),
            forall|k: int| 0 <= k < i ==> a@[k] == b@[k],
        decreases n - i,
    {
        if a[i] != b[i] {
            return false;
        }
        i += 1;
    }
    proof {
        assert(a@ =~= b@);
    }
    true
}

/// The store key a decoded pubkey becomes: the one with the same bytes.
pub open spec fn key_of_pubkey(pubkey: Pubkey) -> PubkeyKey {
    match pubkey {
        Pubkey::Ed25519(a) => PubkeyKey::Ed25519(a),
        Pubkey::Secp256k1(a) => PubkeyKey::Secp256k1(a),
    }
}

impl From<Pubkey> for PubkeyKey {
    fn from(pubkey: Pubkey) -> (r: Self) {
        match pubkey {
            Pubkey::Ed25519(a) => PubkeyKey::Ed25519(a),
            Pubkey::Secp256k1(a) => PubkeyKey::Secp256k1(a),
        }
    }
}

impl vstd::std_specs::convert::FromSpecImpl<Pubkey> for PubkeyKey {
    open spec fn obeys_from_spec() -> bool {
        true
    }

    open spec fn from_spec(pubkey: Pubkey) -> Self {
        key_of_pubkey(pubkey)
    }
}

pub proof fn lemma_key_of_pubkey(pubkey: Pubkey)
    ensures
        key_of_pubkey(pubkey).spec_bytes() == pubkey.spec_bytes(),
        key_of_pubkey(pubkey).is_valid(),
{
}

/// The mathematical content of a stored [`Payment`] record.
pub ghost struct PaymentModel {
    pub id: Seq<char>,
    pub tag: u64,
    pub amount: u64,
    pub signatures: Seq<Seq<char>>,
}

/// A payment expectation as the book and the store hold it: the request id
/// and delivery tag it arrived with, the amount still outstanding, and the
/// signatures of the transfers credited so far.
#[derive(Debug)]
pub struct Payment {
    pub id: String,
    pub tag: u64,
    pub amount: u64,
    pub signatures: Vec<String>,
}

impl View for Payment {
    type V = PaymentModel;

    open spec fn view(&self) -> PaymentModel {
        PaymentModel {
            id: self.id@,
            tag: self.tag,
            amount: self.amount,
            signatures: self.signatures.deep_view(),
        }
    }
}

impl Payment {
    /// A fresh expectation: the full amount outstanding, no signatures yet.
    pub fn new(id: String, tag: u64, amount: u64) -> (r: Self)
        ensures
            r@ == (PaymentModel { id: id@, tag, amount, signatures: Seq::<Seq<char>>::empty() }),
    {
        let r = Self { id, tag, amount, signatures: Vec::new() };
        proof {
            assert(r.signatures.deep_view() =~= Seq::<Seq<char>>::empty());
        }
        r
    }
}

} // verus!
