//! A payment-confirmation service core.
//!
//! The library watches a Solana-style ledger for inbound native transfers
//! that satisfy externally submitted payment expectations and reports each
//! completed expectation. It holds the verified heart of the service: the
//! domain model, the durable payment book and its matching rules, the
//! on-disk record formats, the JSON-RPC request texts, the slot replay
//! session and the per-slot block decomposition. The surrounding process
//! (message bus, WebSocket, HTTP and the on-disk store itself) drives these
//! functions and performs the store actions they return.

pub mod codec;
pub mod domain;
pub mod height;
pub mod ingress;
pub mod json;
pub mod parser;
pub mod payments;
pub mod records;
pub mod rpc;
pub mod slots;
pub mod watch;
