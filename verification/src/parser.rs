//! Address decoding: a base58 address becomes a recipient public key.

use vstd::prelude::*;

use crate::domain::{Pubkey, ED25519_PUBKEY_LEN};

verus! {

/// What base58 decoding yields for an address text: the decoded bytes, or
/// `None` when the text has a character outside the base58 alphabet. The
/// decoded bytes are a function of the text alone.
pub uninterp spec fn base58_decoded(s: Seq<char>) -> Option<Seq<u8>>;

/// Whether the address decodes and its bytes fit an Ed25519 key.
pub open spec fn b58_fits(s: Seq<char>) -> bool {
    match base58_decoded(s) {
        Some(d) => d.len() <= ED25519_PUBKEY_LEN,
        None => false,
    }
}

/// The decoded bytes laid into the front of a zeroed Ed25519-length buffer
/// (meaningful only when [`b58_fits`]).
pub open spec fn b58_padded(s: Seq<char>) -> Seq<u8> {
    match base58_decoded(s) {
        Some(d) => d + Seq::new((ED25519_PUBKEY_LEN - d.len()) as nat, |q: int| 0u8),
        None => Seq::empty(),
    }
}

/// An address that does not decode to a key.
#[derive(Debug, Clone, Copy, PartialEq, Eq, Structural)]
pub struct AddressError;

/// Relies on `bs58::decode(..).onto(..)`: decodes the text as base58 into
/// the front of the given buffer, leaving the rest untouched (zero here),
/// and fails exactly when the text has a character outside the alphabet or
/// its decoded bytes do not fit the buffer.
#[verifier::external_body]
fn base58_onto_ed25519(address: &str) -> (r: Option<[u8; ED25519_PUBKEY_LEN]>)
    ensures
        r is Some ==> base58_decoded(address@) is Some,
        match r {
            Some(arr) => b58_fits(address@) && arr@ == b58_padded(address@),
            None => !b58_fits(address@),
        },
{
    let mut pk = [0u8; ED25519_PUBKEY_LEN];
    match bs58::decode(address).onto(&mut pk) {
        Ok(_) => Some(pk),
        Err(_) => None,
    }
}

/// Decodes a base58 address into an Ed25519 public key: the decoded bytes
/// at the front of the key, zeros behind. Fails exactly when the address
/// has a character outside the alphabet or decodes to more than a key's
/// length.
pub fn to_pubkey(address: &String) -> (r: Result<Pubkey, AddressError>)
    ensures
        match r {
            Ok(pk) => b58_fits(address@) && pk is Ed25519 && pk.spec_bytes() == b58_padded(
                address@,
            ),
            Err(_) => !b58_fits(address@),
        },
{
    match base58_onto_ed25519(address.as_str()) {
        Some(arr) => Ok(Pubkey::Ed25519(arr)),
        None => Err(AddressError),
    }
}

/// The capability of turning an address into a public key; the service is
/// wired with [`Parser`], and tests may supply their own.
pub trait ParserPort {
    fn to_pubkey(&self, address: &String) -> Result<Pubkey, AddressError>;
}

/// The base58 parser used in production.
pub struct Parser;

impl ParserPort for Parser {
    fn to_pubkey(&self, address: &String) -> Result<Pubkey, AddressError> {
        to_pubkey(address)
    }
}

} // verus!
