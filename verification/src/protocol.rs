//! The typed contract for every message exchanged with peers: the envelope,
//! the closed set of payload kinds, and the errors a handler can report.

use vstd::prelude::*;

verus! {

/// The closed, tagged set of payload kinds. Requests carry `msg_id`, replies
/// carry `in_reply_to` referring to the request they answer. A topology is a
/// mapping from a node identifier to the ordered list of its direct
/// neighbors, carried here as a list of pairs.
pub enum Payload {
    Init { msg_id: usize, node_id: String, node_ids: Vec<String> },
    InitOk { in_reply_to: usize },
    Echo { msg_id: usize, echo: String },
    EchoOk { msg_id: usize, in_reply_to: usize, echo: String },
    Generate { msg_id: usize },
    GenerateOk { msg_id: usize, in_reply_to: usize, id: String },
    Topology { topology: Vec<(String, Vec<String>)>, msg_id: usize },
    TopologyOk { msg_id: usize, in_reply_to: usize },
    Broadcast { msg_id: usize, message: usize },
    BroadcastOk { msg_id: usize, in_reply_to: usize },
    Read { msg_id: usize },
    ReadOk { msg_id: usize, in_reply_to: usize, messages: Vec<usize> },
}

/// One transport-level message unit: sender, recipient, payload. Immutable
/// once constructed; ownership moves to the transport on send.
pub struct Message {
    pub src: String,
    pub dest: String,
    pub body: Payload,
}

/// What a handler can report instead of a list of outbound envelopes.
///
/// `SequencingViolation`: a message other than `init` arrived before the
/// node was initialized. `ProtocolViolation`: a payload with no valid
/// handler in context — an `init` after initialization, a broadcast
/// acknowledgment whose correlation id matches no outstanding request, or a
/// broadcast fan-out attempted while the topology lacks this node's entry.
#[derive(PartialEq, Eq, Structural, Clone, Copy, Debug)]
pub enum HandlerError {
    SequencingViolation,
    ProtocolViolation,
}

} // verus!
