//! A distributed-node message-passing runtime: the verified core of a node
//! that joins a cluster of peers, answers typed, correlated messages, and
//! disseminates broadcast values with a topology-aware flood-fill gossip
//! protocol, halted by duplicate suppression.
//!
//! The crate holds the protocol data model, the node's mutable state, the
//! dispatcher and the broadcast engine, each with a contract. Reading,
//! decoding and writing the line-delimited wire format is left to a thin
//! unverified shell around this library.

pub mod model;
pub mod protocol;
pub mod node;
pub mod dispatch;
pub mod laws;
pub mod uid;
