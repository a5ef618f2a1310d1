//! The JSON-RPC shapes spoken to the chain: the request envelope, the
//! response envelopes, and the exact request texts put on the wire.

use vstd::prelude::*;

use crate::domain::Slot;
use crate::json::{chars_to_string, dec_chars, push_dec, push_lit};
use crate::slots::SubscriptionId;

verus! {

/// A JSON-RPC response envelope.
pub struct RpcRes<T> {
    pub result: T,
}

/// A JSON-RPC subscription notification envelope.
pub struct RpcNotification<T> {
    pub params: NotificationParams<T>,
}

/// The parameter object of a notification.
pub struct NotificationParams<T> {
    pub result: T,
}

/// The commitment level a block fetch asks for.
#[derive(Debug, Clone, Copy, PartialEq, Eq, Structural)]
pub enum Commitment {
    Finalized,
}

/// The transaction encoding a block fetch asks for.
#[derive(Debug, Clone, Copy, PartialEq, Eq, Structural)]
pub enum Encoding {
    Json,
}

/// The configuration object of a `getBlock` request.
#[derive(Debug, Clone, Copy, PartialEq, Eq, Structural)]
pub struct RpcConfig {
    commitment: Option<Commitment>,
    encoding: Option<Encoding>,
}

impl RpcConfig {
    pub closed spec fn spec_commitment(&self) -> Option<Commitment> {
        self.commitment
    }

    pub closed spec fn spec_encoding(&self) -> Option<Encoding> {
        self.encoding
    }

    pub fn builder() -> (r: Self)
        ensures
            r.spec_commitment() is None,
            r.spec_encoding() is None,
    {
        Self { commitment: None, encoding: None }
    }

    pub fn with_commitment(self, commitment: Commitment) -> (r: Self)
        ensures
            r.spec_commitment() == Some(commitment),
            r.spec_encoding() == self.spec_encoding(),
    {
        Self { commitment: Some(commitment), ..self }
    }

    pub fn with_encoding(self, encoding: Encoding) -> (r: Self)
        ensures
            r.spec_commitment() == self.spec_commitment(),
            r.spec_encoding() == Some(encoding),
    {
        Self { encoding: Some(encoding), ..self }
    }
}

/// One positional parameter of a request.
pub enum RpcParameter {
    RpcConfig(RpcConfig),
    Slot(Slot),
    SubscriptionId(SubscriptionId),
}

/// A JSON-RPC request envelope. Every request this service sends carries
/// protocol version `2.0` and request id `1`.
pub struct RpcReq<'a, T> {
    jsonrpc: &'a str,
    id: &'a str,
    method: &'a str,
    params: Option<T>,
}

impl<'a, T> RpcReq<'a, T> {
    pub closed spec fn spec_jsonrpc(&self) -> Seq<char> {
        self.jsonrpc@
    }

    pub closed spec fn spec_id(&self) -> Seq<char> {
        self.id@
    }

    pub closed spec fn spec_method(&self) -> Seq<char> {
        self.method@
    }

    pub closed spec fn spec_params(&self) -> Option<T> {
        match self.params {
            Some(p) => Some(p),
            None => None,
        }
    }

    pub fn new(method: &'a str, params: Option<T>) -> (r: Self)
        ensures
            r.spec_jsonrpc() == "2.0"@,
            r.spec_id() == "1"@,
            r.spec_method() == method@,
            r.spec_params() == params,
    {
        Self { jsonrpc: "2.0", id: "1", method, params }
    }

    pub fn new_slot_subscribe() -> (r: Self)
        ensures
            r.spec_jsonrpc() == "2.0"@,
            r.spec_id() == "1"@,
            r.spec_method() == "slotSubscribe"@,
            r.spec_params() is None,
    {
        Self::new("slotSubscribe", None)
    }
}

impl<'a> RpcReq<'a, [RpcParameter; 2]> {
    /// The `getBlock` request for one slot, at finalized commitment with
    /// JSON encoding.
    pub fn new_get_block(slot: Slot) -> (r: Self)
        ensures
            r.spec_jsonrpc() == "2.0"@,
            r.spec_id() == "1"@,
            r.spec_method() == "getBlock"@,
            ({
                let params = r.spec_params();
                &&& params matches Some(ps)
                &&& ps[0] matches RpcParameter::Slot(s) && s == slot
                &&& ps[1] matches RpcParameter::RpcConfig(c) && c.spec_commitment() == Some(
                    Commitment::Finalized,
                ) && c.spec_encoding() == Some(Encoding::Json)
            }),
    {
        let config = RpcConfig::builder().with_commitment(Commitment::Finalized).with_encoding(
            Encoding::Json,
        );
        let r = Self::new(
            "getBlock",
            Some([RpcParameter::Slot(slot), RpcParameter::RpcConfig(config)]),
        );
        proof {
            let ps = r.spec_params()->Some_0;
            assert(ps@[0] == RpcParameter::Slot(slot));
            assert(ps@[1] == RpcParameter::RpcConfig(config));
        }
        r
    }
}

impl<'a> RpcReq<'a, [RpcParameter; 1]> {
    /// The `slotUnsubscribe` request for one subscription.
    pub fn new_slot_unsubscribe(subscription_id: SubscriptionId) -> (r: Self)
        ensures
            r.spec_jsonrpc() == "2.0"@,
            r.spec_id() == "1"@,
            r.spec_method() == "slotUnsubscribe"@,
            ({
                let params = r.spec_params();
                &&& params matches Some(ps)
                &&& ps[0] matches RpcParameter::SubscriptionId(s) && s == subscription_id
            }),
    {
        let r = Self::new(
            "slotUnsubscribe",
            Some([RpcParameter::SubscriptionId(subscription_id)]),
        );
        proof {
            let ps = r.spec_params()->Some_0;
            assert(ps@[0] == RpcParameter::SubscriptionId(subscription_id));
        }
        r
    }
}

/// The wire text of the `slotSubscribe` request.
pub open spec fn spec_slot_subscribe_request() -> Seq<char> {
    "{\"jsonrpc\":\"2.0\",\"id\":\"1\",\"method\":\"slotSubscribe\"}"@
}

/// The wire text of the `getBlock` request for one slot.
pub open spec fn spec_get_block_request(slot: Slot) -> Seq<char> {
    "{\"jsonrpc\":\"2.0\",\"id\":\"1\",\"method\":\"getBlock\",\"params\":["@ + dec_chars(
        slot as nat,
    ) + ",{\"commitment\":\"finalized\",\"encoding\":\"json\"}]}"@
}

/// The wire text of the `slotUnsubscribe` request for one subscription.
pub open spec fn spec_slot_unsubscribe_request(subscription_id: SubscriptionId) -> Seq<char> {
    "{\"jsonrpc\":\"2.0\",\"id\":\"1\",\"method\":\"slotUnsubscribe\",\"params\":["@ + dec_chars(
        subscription_id as nat,
    ) + "]}"@
}

/// Renders the `slotSubscribe` request.
pub fn slot_subscribe_request() -> (r: String)
    ensures
        r@ == spec_slot_subscribe_request(),
{
    let mut out: Vec<char> = Vec::new();
    push_lit("{\"jsonrpc\":\"2.0\",\"id\":\"1\",\"method\":\"slotSubscribe\"}", &mut out);
    proof {
        assert(out@ =~= spec_slot_subscribe_request());
    }
    chars_to_string(&out)
}

/// Renders the `getBlock` request for one slot.
pub fn get_block_request(slot: Slot) -> (r: String)
    ensures
        r@ == spec_get_block_request(slot),
{
    let mut out: Vec<char> = Vec::new();
    push_lit("{\"jsonrpc\":\"2.0\",\"id\":\"1\",\"method\":\"getBlock\",\"params\":[", &mut out);
    push_dec(slot, &mut out);
    push_lit(",{\"commitment\":\"finalized\",\"encoding\":\"json\"}]}", &mut out);
    proof {
        assert(out@ =~= spec_get_block_request(slot));
    }
    chars_to_string(&out)
}

/// Renders the `slotUnsubscribe` request for one subscription.
pub fn slot_unsubscribe_request(subscription_id: SubscriptionId) -> (r: String)
    ensures
        r@ == spec_slot_unsubscribe_request(subscription_id),
{
    let mut out: Vec<char> = Vec::new();
    push_lit(
        "{\"jsonrpc\":\"2.0\",\"id\":\"1\",\"method\":\"slotUnsubscribe\",\"params\":[",
        &mut out,
    );
    push_dec(subscription_id, &mut out);
    push_lit("]}", &mut out);
    proof {
        assert(out@ =~= spec_slot_unsubscribe_request(subscription_id));
    }
    chars_to_string(&out)
}

} // verus!
