//! The initialization handshake, the dispatcher and the broadcast engine.
//!
//! Each decoded envelope is handled as one state transition: the handler
//! reads and mutates the node state under exclusive access and hands back
//! the envelopes to emit. The contracts pin the transition down exactly,
//! via the spec functions below, so the dissemination algorithm's
//! properties are theorems about these functions.

use vstd::prelude::*;
use crate::model::NodeModel;
use crate::model::broadcast_fanout;
use crate::model::broadcast_post;
use crate::model::fanout_callbacks;
use crate::model::has_key;
use crate::model::lemma_remove_key_contains;
use crate::model::lemma_remove_key_unique;
use crate::model::lemma_targets_len;
use crate::model::remove_key;
use crate::model::targets;
use crate::model::topo_get;
use crate::model::topo_view;
use crate::node::Node;
use crate::protocol::HandlerError;
use crate::protocol::Message;
use crate::protocol::Payload;
use crate::uid::unique_id_of;

verus! {

/// Whether the dispatcher has a valid handler for this payload in state
/// `m`. An `init` (or its acknowledgment) after initialization has none; a
/// fresh broadcast value cannot be fanned out while the topology lacks this
/// node's entry; a broadcast acknowledgment must match an outstanding
/// request. Everything else is handled, the reply-only tags by silently
/// discarding them.
pub open spec fn step_ok(m: NodeModel, body: Payload) -> bool {
    match body {
        Payload::Init { .. } => false,
        Payload::InitOk { .. } => false,
        Payload::Broadcast { msg_id: _, message } => m.messages.contains(message) || topo_get(
            m.topology,
            m.id,
        ) is Some,
        Payload::BroadcastOk { msg_id: _, in_reply_to } => has_key(m.callbacks, in_reply_to as int),
        _ => true,
    }
}

/// How much the correlation-id counter can move while handling this
/// payload: once for a reply, plus once per neighbor when a fresh broadcast
/// value fans out.
pub open spec fn msg_budget(m: NodeModel, body: Payload) -> int {
    match body {
        Payload::Broadcast { msg_id: _, message } => if m.messages.contains(message) {
            1
        } else {
            match topo_get(m.topology, m.id) {
                Some(neigh) => 1 + neigh.len() as int,
                None => 1,
            }
        },
        _ => 1,
    }
}

/// The state after one handled payload.
pub open spec fn step_post(m: NodeModel, src: Seq<char>, body: Payload) -> NodeModel {
    match body {
        Payload::Echo { .. } => (NodeModel { last_msg_id: m.last_msg_id + 1, ..m }),
        Payload::Generate { .. } => (NodeModel { last_msg_id: m.last_msg_id + 1, ..m }),
        Payload::Topology { topology, msg_id: _ } => (NodeModel {
            last_msg_id: m.last_msg_id + 1,
            topology: topo_view(topology@),
            ..m
        }),
        Payload::Broadcast { msg_id: _, message } => broadcast_post(m, src, message),
        Payload::BroadcastOk { msg_id: _, in_reply_to } => (NodeModel {
            callbacks: remove_key(m.callbacks, in_reply_to as int),
            ..m
        }),
        Payload::Read { .. } => (NodeModel { last_msg_id: m.last_msg_id + 1, ..m }),
        _ => m,
    }
}

/// The `j`-th emitted envelope of a fan-out (the acknowledgment stands at
/// position zero): a broadcast of the value to the `j`-th recipient, under
/// a fresh correlation id drawn in recipient order.
pub open spec fn fanout_msg_ok(
    m: NodeModel,
    t: Seq<Seq<char>>,
    v: usize,
    j: int,
    msg: Message,
) -> bool {
    &&& 1 <= j <= t.len()
    &&& msg.src@ == m.id
    &&& msg.dest@ == t[j - 1]
    &&& msg.body matches Payload::Broadcast { msg_id: fmid, message: fv } && fmid == m.last_msg_id
        + 1 + j && fv == v
}

/// The envelopes one handled payload emits, given the state `m` it found.
pub open spec fn step_outputs(m: NodeModel, src: Seq<char>, body: Payload, out: Seq<Message>) -> bool {
    match body {
        Payload::Echo { msg_id, echo } => {
            &&& out.len() == 1
            &&& out[0].src@ == m.id
            &&& out[0].dest@ == src
            &&& out[0].body matches Payload::EchoOk { msg_id: mid, in_reply_to, echo: e } && mid
                == m.last_msg_id + 1 && in_reply_to == msg_id && e@ == echo@
        },
        Payload::Generate { msg_id } => {
            &&& out.len() == 1
            &&& out[0].src@ == m.id
            &&& out[0].dest@ == src
            &&& out[0].body matches Payload::GenerateOk { msg_id: mid, in_reply_to, id } && mid
                == m.last_msg_id + 1 && in_reply_to == msg_id && id@ == unique_id_of(
                m.id,
                m.last_msg_id + 1,
            )
        },
        Payload::Topology { topology: _, msg_id } => {
            &&& out.len() == 1
            &&& out[0].src@ == m.id
            &&& out[0].dest@ == src
            &&& out[0].body matches Payload::TopologyOk { msg_id: mid, in_reply_to } && mid
                == m.last_msg_id + 1 && in_reply_to == msg_id
        },
        Payload::Broadcast { msg_id, message } => {
            let t = broadcast_fanout(m, src, message);
            &&& out.len() == 1 + t.len()
            &&& out[0].src@ == m.id
            &&& out[0].dest@ == src
            &&& out[0].body matches Payload::BroadcastOk { msg_id: mid, in_reply_to } && mid
                == m.last_msg_id + 1 && in_reply_to == msg_id
            &&& forall|j: int| 1 <= j < out.len() ==> fanout_msg_ok(m, t, message, j, #[trigger] out[j])
        },
        Payload::Read { msg_id } => {
            &&& out.len() == 1
            &&& out[0].src@ == m.id
            &&& out[0].dest@ == src
            &&& out[0].body matches Payload::ReadOk { msg_id: mid, in_reply_to, messages } && mid
                == m.last_msg_id + 1 && in_reply_to == msg_id && messages@ == m.messages
        },
        _ => out.len() == 0,
    }
}

/// The initialization handshake: the first message of the inbound stream
/// must carry `init`; the node is built from it and acknowledges to the
/// sender. Any other first message is a sequencing violation and the node
/// is never built.
pub fn handle_init(first: Message) -> (r: Result<(Node, Message), HandlerError>)
    ensures
        match r {
            Ok(p) => {
                &&& first.body matches Payload::Init { msg_id, node_id, node_ids } && p.0@
                    == NodeModel::init(node_id@, node_ids.deep_view()) && p.1.src@ == node_id@
                    && p.1.dest@ == first.src@ && (p.1.body matches Payload::InitOk { in_reply_to }
                    && in_reply_to == msg_id)
                &&& p.0@.wf()
            },
            Err(e) => {
                &&& !(first.body matches Payload::Init { .. })
                &&& e == HandlerError::SequencingViolation
            },
        },
{
    let Message { src: first_src, dest: _, body } = first;
    match body {
        Payload::Init { msg_id, node_id, node_ids } => {
            let reply = Message {
                src: node_id.clone(),
                dest: first_src,
                body: Payload::InitOk { in_reply_to: msg_id },
            };
            let node = Node::new(node_id, node_ids);
            Ok((node, reply))
        },
        _ => Err(HandlerError::SequencingViolation),
    }
}

/// The dispatcher: routes one decoded payload to its handler, mutates the
/// node state under the exclusive access the caller holds, and returns the
/// envelopes to emit, or the violation that payload is in this state.
///
/// On an error the state is left untouched: validation is ordered before
/// mutation, so a refused payload has no side effect.
pub fn handle_message(node: &mut Node, src: String, body: Payload) -> (r: Result<
    Vec<Message>,
    HandlerError,
>)
    requires
        old(node)@.wf(),
        old(node)@.last_msg_id + msg_budget(old(node)@, body) <= usize::MAX,
    ensures
        final(node)@.wf(),
        match r {
            Ok(out) => {
                &&& step_ok(old(node)@, body)
                &&& final(node)@ == step_post(old(node)@, src@, body)
                &&& step_outputs(old(node)@, src@, body, out@)
            },
            Err(e) => {
                &&& !step_ok(old(node)@, body)
                &&& *final(node) == *old(node)
                &&& e == HandlerError::ProtocolViolation
            },
        },
{
    let ghost m0 = node@;
    let ghost b = body;
    match body {
        Payload::Echo { msg_id, echo } => {
            let mid = node.next_msg_id();
            let mut out: Vec<Message> = Vec::new();
            out.push(Message {
                src: node.id().clone(),
                dest: src,
                body: Payload::EchoOk { msg_id: mid, in_reply_to: msg_id, echo },
            });
            proof {
                assert(node@ =~= step_post(m0, src@, b));
            }
            Ok(out)
        },
        Payload::Generate { msg_id } => {
            let mid = node.next_msg_id();
            let uid = node.gen_unique_id();
            let mut out: Vec<Message> = Vec::new();
            out.push(Message {
                src: node.id().clone(),
                dest: src,
                body: Payload::GenerateOk { msg_id: mid, in_reply_to: msg_id, id: uid },
            });
            proof {
                assert(node@ =~= step_post(m0, src@, b));
            }
            Ok(out)
        },
        Payload::Topology { topology, msg_id } => {
            node.set_topology(topology);
            let mid = node.next_msg_id();
            let mut out: Vec<Message> = Vec::new();
            out.push(Message {
                src: node.id().clone(),
                dest: src,
                body: Payload::TopologyOk { msg_id: mid, in_reply_to: msg_id },
            });
            proof {
                assert(node@ =~= step_post(m0, src@, b));
            }
            Ok(out)
        },
        Payload::Broadcast { msg_id, message } => handle_broadcast(node, src, msg_id, message),
        Payload::BroadcastOk { msg_id: _, in_reply_to } => {
            if !node.has_callback(in_reply_to) {
                return Err(HandlerError::ProtocolViolation);
            }
            let _removed = node.resolve_callback(in_reply_to);
            proof {
                lemma_remove_key_unique(m0.callbacks, in_reply_to as int);
                lemma_remove_key_contains(m0.callbacks, in_reply_to as int);
                assert forall|i: int|
                    0 <= i < node@.callbacks.len() implies 1 <= #[trigger] node@.callbacks[i].0
                    <= node@.last_msg_id by {
                    let entry = node@.callbacks[i];
                    assert(m0.callbacks.contains(entry));
                    let j = choose|j: int|
                        0 <= j < m0.callbacks.len() && m0.callbacks[j] == entry;
                }
                assert(node@ =~= step_post(m0, src@, b));
            }
            Ok(Vec::new())
        },
        Payload::Read { msg_id } => {
            let mid = node.next_msg_id();
            let snapshot = node.read_messages();
            let mut out: Vec<Message> = Vec::new();
            out.push(Message {
                src: node.id().clone(),
                dest: src,
                body: Payload::ReadOk { msg_id: mid, in_reply_to: msg_id, messages: snapshot },
            });
            proof {
                assert(node@ =~= step_post(m0, src@, b));
            }
            Ok(out)
        },
        Payload::EchoOk { .. } => Ok(Vec::new()),
        Payload::GenerateOk { .. } => Ok(Vec::new()),
        Payload::TopologyOk { .. } => Ok(Vec::new()),
        Payload::ReadOk { .. } => Ok(Vec::new()),
        Payload::Init { .. } => Err(HandlerError::ProtocolViolation),
        Payload::InitOk { .. } => Err(HandlerError::ProtocolViolation),
    }
}

/// The broadcast engine. The receipt is acknowledged unconditionally; a
/// value seen before stops there (the deduplication that halts the flood);
/// a new value is recorded and forwarded to every neighbor except the
/// immediate sender, one outstanding-request entry per copy sent.
fn handle_broadcast(node: &mut Node, src: String, msg_id: usize, message: usize) -> (r: Result<
    Vec<Message>,
    HandlerError,
>)
    requires
        old(node)@.wf(),
        old(node)@.last_msg_id + msg_budget(
            old(node)@,
            Payload::Broadcast { msg_id, message },
        ) <= usize::MAX,
    ensures
        final(node)@.wf(),
        match r {
            Ok(out) => {
                &&& step_ok(old(node)@, Payload::Broadcast { msg_id, message })
                &&& final(node)@ == broadcast_post(old(node)@, src@, message)
                &&& step_outputs(old(node)@, src@, Payload::Broadcast { msg_id, message }, out@)
            },
            Err(e) => {
                &&& !step_ok(old(node)@, Payload::Broadcast { msg_id, message })
                &&& *final(node) == *old(node)
                &&& e == HandlerError::ProtocolViolation
            },
        },
{
    let ghost m0 = node@;
    let is_new = !node.contains_message(message);
    let neighbors_opt = if is_new {
        node.neighbors(node.id())
    } else {
        None
    };
    if is_new && neighbors_opt.is_none() {
        return Err(HandlerError::ProtocolViolation);
    }
    let ack_id = node.next_msg_id();
    let mut out: Vec<Message> = Vec::new();
    out.push(Message {
        src: node.id().clone(),
        dest: src.clone(),
        body: Payload::BroadcastOk { msg_id: ack_id, in_reply_to: msg_id },
    });
    if !is_new {
        proof {
            assert(node@ =~= broadcast_post(m0, src@, message));
        }
        return Ok(out);
    }
    let _added = node.observe(message);
    let neigh = neighbors_opt.unwrap();
    let ghost nv = neigh.deep_view();
    let ghost t = targets(nv, src@);
    proof {
        assert(nv.take(0) =~= Seq::<Seq<char>>::empty());
        assert(node@.callbacks =~= m0.callbacks + fanout_callbacks(
            m0.last_msg_id,
            targets(nv.take(0), src@),
        ));
        assert(!m0.messages.contains(message));
        assert forall|i: int| 0 <= i < m0.messages.len() implies m0.messages[i] != message by {
            if m0.messages[i] == message {
                assert(m0.messages.contains(message));
            }
        }
    }
    let own = node.id().clone();
    let n = neigh.len();
    let mut k: usize = 0;
    while k < n
        invariant
            k <= n,
            n == neigh.len(),
            nv == neigh.deep_view(),
            m0.wf(),
            m0.last_msg_id + 1 + nv.len() <= usize::MAX,
            !m0.messages.contains(message),
            own@ == m0.id,
            targets(nv.take(k as int), src@).len() <= k,
            node@ == (NodeModel {
                last_msg_id: m0.last_msg_id + 1 + targets(nv.take(k as int), src@).len(),
                messages: m0.messages.push(message),
                callbacks: m0.callbacks + fanout_callbacks(
                    m0.last_msg_id,
                    targets(nv.take(k as int), src@),
                ),
                ..m0
            }),
            out@.len() == 1 + targets(nv.take(k as int), src@).len(),
            out@[0].src@ == m0.id,
            out@[0].dest@ == src@,
            out@[0].body matches Payload::BroadcastOk { msg_id: amid, in_reply_to: irt } && amid
                == m0.last_msg_id + 1 && irt == msg_id,
            forall|j: int|
                1 <= j < out@.len() ==> fanout_msg_ok(
                    m0,
                    targets(nv.take(k as int), src@),
                    message,
                    j,
                    #[trigger] out@[j],
                ),
        decreases n - k,
    {
        let ghost tk = targets(nv.take(k as int), src@);
        proof {
            assert(nv.take(k as int + 1).drop_last() =~= nv.take(k as int));
            assert(nv.take(k as int + 1).last() == nv[k as int]);
            lemma_targets_len(nv.take(k as int + 1), src@);
        }
        if neigh[k] != src {
            let cid = node.next_msg_id();
            node.register_callback(cid, neigh[k].clone());
            out.push(Message {
                src: own.clone(),
                dest: neigh[k].clone(),
                body: Payload::Broadcast { msg_id: cid, message },
            });
            proof {
                let tk1 = targets(nv.take(k as int + 1), src@);
                assert(tk1 == tk.push(nv[k as int]));
                assert(node@.callbacks =~= m0.callbacks + fanout_callbacks(m0.last_msg_id, tk1));
                assert(node@ =~= (NodeModel {
                    last_msg_id: m0.last_msg_id + 1 + tk1.len(),
                    messages: m0.messages.push(message),
                    callbacks: m0.callbacks + fanout_callbacks(m0.last_msg_id, tk1),
                    ..m0
                }));
                assert forall|j: int| 1 <= j < out@.len() implies fanout_msg_ok(
                    m0,
                    tk1,
                    message,
                    j,
                    #[trigger] out@[j],
                ) by {
                    if j < out@.len() - 1 {
                        assert(fanout_msg_ok(m0, tk, message, j, out@[j]));
                        assert(tk1[j - 1] == tk[j - 1]);
                    } else {
                        assert(out@[j].dest@ == nv[k as int]);
                        assert(tk1[tk1.len() - 1] == nv[k as int]);
                    }
                }
            }
        } else {
            proof {
                assert(targets(nv.take(k as int + 1), src@) == tk);
            }
        }
        k = k + 1;
    }
    proof {
        assert(nv.take(n as int) =~= nv);
        assert(node@ =~= broadcast_post(m0, src@, message));
        assert(step_outputs(m0, src@, Payload::Broadcast { msg_id, message }, out@));
        lemma_targets_len(nv, src@);
        assert(node@.wf()) by {
            assert(node@.messages.no_duplicates()) by {
                assert(forall|i: int|
                    0 <= i < m0.messages.len() ==> #[trigger] m0.messages[i] != message);
            }
            let cb = node@.callbacks;
            let base = m0.callbacks.len() as int;
            assert forall|i: int| 0 <= i < cb.len() implies 1 <= #[trigger] cb[i].0
                <= node@.last_msg_id by {
                if i < base {
                    assert(cb[i] == m0.callbacks[i]);
                } else {
                    assert(cb[i] == fanout_callbacks(m0.last_msg_id, t)[i - base]);
                }
            }
            assert forall|i: int, j: int| 0 <= i < j < cb.len() implies cb[i].0 != cb[j].0 by {
                if j < base {
                    assert(cb[i] == m0.callbacks[i] && cb[j] == m0.callbacks[j]);
                } else if i < base {
                    assert(cb[i] == m0.callbacks[i]);
                    assert(cb[j] == fanout_callbacks(m0.last_msg_id, t)[j - base]);
                } else {
                    assert(cb[i] == fanout_callbacks(m0.last_msg_id, t)[i - base]);
                    assert(cb[j] == fanout_callbacks(m0.last_msg_id, t)[j - base]);
                }
            }
        }
    }
    Ok(out)
}

} // verus!
