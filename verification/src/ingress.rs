//! The ingress side of the pipeline: the bus message shapes, the mapping
//! of an inbound request into a domain payment, and the routing of a
//! processed payment back to the bus with the lifecycle transitions it
//! implies.

use vstd::prelude::*;

use crate::domain::{
    IncomingPayment, ProcessedPayment, ProcessedPaymentMeta, Pubkey, State, TransferDataParsed,
};
use crate::parser::{AddressError, ParserPort};

verus! {

/// The per-delivery identifier the bus issues; a result is acknowledged
/// against the delivery that requested it.
pub type DeliveryTag = u64;

/// An inbound payment request as it arrives on the bus.
pub struct TransferMsg {
    pub id: String,
    pub address: String,
    pub amount: u64,
}

/// A consumed bus message with its delivery tag.
pub struct ConsumerMsg<T> {
    pub msg: T,
    pub tag: DeliveryTag,
}

impl<T> ConsumerMsg<T> {
    pub fn new(msg: T, tag: DeliveryTag) -> (r: Self)
        ensures
            r.msg == msg,
            r.tag == tag,
    {
        Self { msg, tag }
    }
}

/// An outbound result message: the request id, the contributing signatures
/// when the expectation was met, and the reserved error slot.
pub struct ResultMsg {
    pub id: String,
    pub signatures: Option<Vec<String>>,
    pub error: Option<()>,
}

impl ResultMsg {
    pub fn new(id: String, signatures: Option<Vec<String>>, error: Option<()>) -> (r: Self)
        ensures
            r.id == id,
            r.signatures == signatures,
            r.error == error,
    {
        Self { id, signatures, error }
    }
}

/// A message to publish, tagged with the delivery it answers so the
/// producer can acknowledge the original delivery after publishing.
pub struct ProducerMsg<T> {
    pub msg: T,
    pub tag: DeliveryTag,
}

impl<T> ProducerMsg<T> {
    pub fn new(msg: T, tag: DeliveryTag) -> (r: Self)
        ensures
            r.msg == msg,
            r.tag == tag,
    {
        Self { msg, tag }
    }
}

/// The mapping of a consumed bus message into the domain, once its address
/// has been decoded.
pub trait IntoIncomingPayment {
    fn into_domain(self, pubkey: Pubkey) -> IncomingPayment;
}

impl IntoIncomingPayment for ConsumerMsg<TransferMsg> {
    fn into_domain(self, pubkey: Pubkey) -> (r: IncomingPayment)
        ensures
            r.spec_id() == self.msg.id@,
            r.spec_tag() == self.tag,
            r.spec_data().spec_pubkey() == pubkey,
            r.spec_data().spec_amount() == self.msg.amount,
    {
        let msg = self.msg;
        IncomingPayment::new(msg.id, self.tag, TransferDataParsed::new(pubkey, msg.amount))
    }
}

/// What one decoded request forwards: the payment for the matching actor,
/// and the `Running` transition for the chain watcher.
pub fn forward_payment(consumer_msg: ConsumerMsg<TransferMsg>, pubkey: Pubkey) -> (r: (
    IncomingPayment,
    State,
))
    ensures
        r.0.spec_id() == consumer_msg.msg.id@,
        r.0.spec_tag() == consumer_msg.tag,
        r.0.spec_data().spec_pubkey() == pubkey,
        r.0.spec_data().spec_amount() == consumer_msg.msg.amount,
        r.1 == State::Running,
{
    (consumer_msg.into_domain(pubkey), State::Running)
}

/// Handles one inbound bus message: decodes its address through the
/// injected parser and, on success, forwards the payment and raises the
/// state. On a decode failure the message is dropped here; the delivery
/// stays unacknowledged on the bus and will be redelivered.
pub fn process_message<P: ParserPort>(parser: &P, consumer_msg: ConsumerMsg<TransferMsg>) -> (r:
    Result<(IncomingPayment, State), AddressError>)
    ensures
        match r {
            Ok(p) => p.0.spec_id() == consumer_msg.msg.id@ && p.0.spec_tag() == consumer_msg.tag
                && p.0.spec_data().spec_amount() == consumer_msg.msg.amount && p.1
                == State::Running,
            Err(_) => true,
        },
{
    match parser.to_pubkey(&consumer_msg.msg.address) {
        Ok(pubkey) => Ok(forward_payment(consumer_msg, pubkey)),
        Err(e) => Err(e),
    }
}

impl ProcessedPayment {
    /// The bus message a retired expectation becomes, tagged with its
    /// original delivery.
    pub fn into_producer_msg(self) -> (r: ProducerMsg<ResultMsg>)
        ensures
            r.tag == self.spec_tag(),
            r.msg.id@ == self.spec_id(),
            match r.msg.signatures {
                Some(s) => Some(s.deep_view()) == self.spec_signatures(),
                None => self.spec_signatures() is None,
            },
            r.msg.error == self.spec_error(),
    {
        let mut p = self;
        let signatures = p.take_signatures();
        let tag = p.tag();
        let error = p.take_error();
        let msg = ResultMsg::new(p.id(), signatures, error);
        ProducerMsg::new(msg, tag)
    }
}

/// Routes one completion: the result message for the producer, and the
/// `Stopping` transition exactly when this completion emptied the book, so
/// a drained book lowers the state exactly once.
pub fn process_payment(meta: ProcessedPaymentMeta) -> (r: (
    Option<State>,
    ProducerMsg<ResultMsg>,
))
    ensures
        r.0 == Some(State::Stopping) <==> meta.spec_last(),
        r.0 is Some ==> r.0 == Some(State::Stopping),
        ({
            let p = meta.spec_payment();
            &&& r.1.tag == p.spec_tag()
            &&& r.1.msg.id@ == p.spec_id()
            &&& match r.1.msg.signatures {
                Some(s) => Some(s.deep_view()) == p.spec_signatures(),
                None => p.spec_signatures() is None,
            }
            &&& r.1.msg.error == p.spec_error()
        }),
{
    let last = meta.last();
    let state: Option<State> = if last {
        Some(State::Stopping)
    } else {
        None
    };
    (state, meta.payment().into_producer_msg())
}

} // verus!
