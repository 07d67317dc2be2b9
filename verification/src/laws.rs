//! The protocol's laws, each proved against the transition spec functions
//! that the handlers' contracts are stated over: deduplication of repeated
//! deliveries, completeness of the read snapshot, one-to-one correlation of
//! fan-out and acknowledgment, exclusion of the immediate sender from a
//! fan-out, uniqueness of generated identifiers, and preservation of the
//! delivered-value set under any serialization of concurrent deliveries.

use vstd::prelude::*;
use crate::dispatch::step_post;
use crate::model::NodeModel;
use crate::protocol::Payload;
use crate::model::broadcast_fanout;
use crate::model::broadcast_post;
use crate::model::has_key;
use crate::model::lemma_remove_key_contains;
use crate::model::lemma_remove_key_exact;
use crate::model::lemma_targets_members;
use crate::model::remove_key;
use crate::model::topo_get;
use crate::uid::lemma_unique_id_injective;
use crate::uid::unique_id_of;

verus! {

/// How often a value occurs in a delivery sequence.
pub open spec fn count_of(s: Seq<usize>, v: usize) -> int
    decreases s.len(),
{
    if s.len() == 0 {
        0
    } else {
        count_of(s.drop_last(), v) + if s.last() == v {
            1int
        } else {
            0int
        }
    }
}

/// A sequence holds a value exactly when it occurs at least once.
pub proof fn lemma_count_contains(s: Seq<usize>, v: usize)
    ensures
        count_of(s, v) >= 0,
        s.contains(v) <==> count_of(s, v) >= 1,
    decreases s.len(),
{
    if s.len() > 0 {
        let dl = s.drop_last();
        lemma_count_contains(dl, v);
        if s.contains(v) && s.last() != v {
            let j = choose|j: int| 0 <= j < s.len() && s[j] == v;
            assert(dl[j] == v);
            assert(dl.contains(v));
        }
        if dl.contains(v) {
            let j = choose|j: int| 0 <= j < dl.len() && dl[j] == v;
            assert(s[j] == v);
        }
        if s.last() == v {
            assert(s[s.len() - 1] == v);
        }
    }
}

/// The state after a sequence of broadcast deliveries of one value, each
/// from its own sender.
pub open spec fn deliver_all(m: NodeModel, srcs: Seq<Seq<char>>, v: usize) -> NodeModel
    decreases srcs.len(),
{
    if srcs.len() == 0 {
        m
    } else {
        deliver_all(broadcast_post(m, srcs[0], v), srcs.drop_first(), v)
    }
}

/// How many deliveries of the sequence found the value new and therefore
/// fanned it out.
pub open spec fn fanout_events(m: NodeModel, srcs: Seq<Seq<char>>, v: usize) -> int
    decreases srcs.len(),
{
    if srcs.len() == 0 {
        0
    } else {
        (if m.messages.contains(v) {
            0int
        } else {
            1int
        }) + fanout_events(broadcast_post(m, srcs[0], v), srcs.drop_first(), v)
    }
}

/// Once a value has been delivered, further deliveries of it change the
/// delivered-value set not at all and never fan out again.
pub proof fn lemma_deliver_all_after_seen(m: NodeModel, srcs: Seq<Seq<char>>, v: usize)
    requires
        m.messages.contains(v),
    ensures
        deliver_all(m, srcs, v).messages == m.messages,
        fanout_events(m, srcs, v) == 0,
    decreases srcs.len(),
{
    if srcs.len() > 0 {
        lemma_deliver_all_after_seen(broadcast_post(m, srcs[0], v), srcs.drop_first(), v);
    }
}

/// Deduplication: across any sequence of broadcast deliveries of one value
/// — any senders, any number of times — the delivered-value set ends up
/// holding the value exactly once, and fan-out to neighbors happens on
/// exactly one of the deliveries (the first).
pub proof fn lemma_broadcast_dedup(m: NodeModel, srcs: Seq<Seq<char>>, v: usize)
    requires
        m.wf(),
        !m.messages.contains(v),
        srcs.len() >= 1,
    ensures
        count_of(deliver_all(m, srcs, v).messages, v) == 1,
        fanout_events(m, srcs, v) == 1,
{
    let m1 = broadcast_post(m, srcs[0], v);
    assert(m1.messages == m.messages.push(v));
    assert(m1.messages[m.messages.len() as int] == v);
    assert(m1.messages.contains(v));
    lemma_deliver_all_after_seen(m1, srcs.drop_first(), v);
    lemma_count_contains(m.messages, v);
    assert(m.messages.push(v).drop_last() =~= m.messages);
    assert(count_of(m1.messages, v) == 1);
}

/// The state after a sequence of broadcast deliveries of assorted values,
/// each event a pair of sender and value.
pub open spec fn deliver_values(m: NodeModel, evs: Seq<(Seq<char>, usize)>) -> NodeModel
    decreases evs.len(),
{
    if evs.len() == 0 {
        m
    } else {
        deliver_values(broadcast_post(m, evs[0].0, evs[0].1), evs.drop_first())
    }
}

/// The values a delivery sequence carries, in delivery order.
pub open spec fn values_of(evs: Seq<(Seq<char>, usize)>) -> Seq<usize> {
    Seq::new(evs.len(), |i: int| evs[i].1)
}

/// Delivering pairwise-distinct, previously unseen values appends exactly
/// those values to the delivered-value set, whatever the senders and
/// whatever order the deliveries were serialized in: none is lost, none is
/// duplicated.
pub proof fn lemma_deliver_values_messages(m: NodeModel, evs: Seq<(Seq<char>, usize)>)
    requires
        forall|i: int| 0 <= i < evs.len() ==> !m.messages.contains((#[trigger] evs[i]).1),
        forall|i: int, j: int| 0 <= i < j < evs.len() ==> evs[i].1 != evs[j].1,
    ensures
        deliver_values(m, evs).messages == m.messages + values_of(evs),
    decreases evs.len(),
{
    if evs.len() == 0 {
        assert(m.messages + values_of(evs) =~= m.messages);
    } else {
        let v0 = evs[0].1;
        assert(!m.messages.contains(v0));
        let m1 = broadcast_post(m, evs[0].0, v0);
        assert(m1.messages == m.messages.push(v0));
        let rest = evs.drop_first();
        assert forall|i: int| 0 <= i < rest.len() implies !m1.messages.contains(
            (#[trigger] rest[i]).1,
        ) by {
            assert(rest[i] == evs[i + 1]);
            let w = rest[i].1;
            if m1.messages.contains(w) {
                let j = choose|j: int| 0 <= j < m1.messages.len() && m1.messages[j] == w;
                if j < m.messages.len() {
                    assert(m.messages.contains(w));
                } else {
                    assert(w == v0);
                }
            }
        }
        assert(forall|i: int, j: int|
            0 <= i < j < rest.len() ==> (#[trigger] rest[i]).1 != (#[trigger] rest[j]).1);
        lemma_deliver_values_messages(m1, rest);
        assert(m.messages.push(v0) + values_of(rest) =~= m.messages + values_of(evs));
    }
}

/// Concurrent-safety, serialized: from a fresh delivered-value set, any
/// serialization of broadcast deliveries carrying pairwise-distinct values
/// ends with the set holding exactly those values — as many members as
/// deliveries.
pub proof fn lemma_concurrent_broadcasts(m: NodeModel, evs: Seq<(Seq<char>, usize)>)
    requires
        m.wf(),
        m.messages.len() == 0,
        forall|i: int, j: int| 0 <= i < j < evs.len() ==> evs[i].1 != evs[j].1,
    ensures
        deliver_values(m, evs).messages == values_of(evs),
        deliver_values(m, evs).messages.len() == evs.len(),
{
    lemma_deliver_values_messages(m, evs);
    assert(m.messages + values_of(evs) =~= values_of(evs));
}

/// Read completeness: after injecting distinct values by any mix of
/// broadcast deliveries, the snapshot a read returns holds exactly those
/// values, whatever its order.
pub proof fn lemma_read_completeness(m: NodeModel, evs: Seq<(Seq<char>, usize)>)
    requires
        m.wf(),
        m.messages.len() == 0,
        forall|i: int, j: int| 0 <= i < j < evs.len() ==> evs[i].1 != evs[j].1,
    ensures
        deliver_values(m, evs).messages.to_set() == values_of(evs).to_set(),
{
    lemma_concurrent_broadcasts(m, evs);
}

/// Acknowledgment correlation, sending half: a fan-out of a fresh value
/// creates exactly one outstanding-request entry per broadcast sent, the
/// entry pairing that copy's correlation id with the neighbor it went to.
pub proof fn lemma_fanout_one_entry_per_send(m: NodeModel, src: Seq<char>, v: usize)
    requires
        !m.messages.contains(v),
        topo_get(m.topology, m.id) is Some,
    ensures
        broadcast_post(m, src, v).callbacks.len() == m.callbacks.len() + broadcast_fanout(
            m,
            src,
            v,
        ).len(),
        forall|k: int|
            0 <= k < broadcast_fanout(m, src, v).len() ==> broadcast_post(m, src, v).callbacks[
                m.callbacks.len() + k] == (
                m.last_msg_id + 2 + k,
                #[trigger] broadcast_fanout(m, src, v)[k],
            ),
        forall|i: int|
            0 <= i < m.callbacks.len() ==> broadcast_post(m, src, v).callbacks[i]
                == #[trigger] m.callbacks[i],
{
}

/// Acknowledgment correlation, receiving half: under well-formedness the
/// matching acknowledgment removes exactly the one entry carrying its
/// correlation id — the table shrinks by one, the id is gone, and every
/// entry under another id survives.
pub proof fn lemma_ack_removes_exactly_one(m: NodeModel, c: int)
    requires
        m.wf(),
        has_key(m.callbacks, c),
    ensures
        remove_key(m.callbacks, c).len() == m.callbacks.len() - 1,
        !has_key(remove_key(m.callbacks, c), c),
        forall|i: int|
            0 <= i < m.callbacks.len() && (#[trigger] m.callbacks[i]).0 != c ==> remove_key(
                m.callbacks,
                c,
            ).contains(m.callbacks[i]),
{
    lemma_remove_key_exact(m.callbacks, c);
    lemma_remove_key_contains(m.callbacks, c);
    if has_key(remove_key(m.callbacks, c), c) {
        let j = choose|j: int|
            0 <= j < remove_key(m.callbacks, c).len() && remove_key(m.callbacks, c)[j].0 == c;
    }
}

/// Topology exclusion: a fresh broadcast value arriving from a peer is
/// fanned out only to neighbors other than that peer — the immediate
/// sender never receives its own value back.
pub proof fn lemma_fanout_excludes_sender(m: NodeModel, src: Seq<char>, v: usize)
    requires
        !m.messages.contains(v),
        topo_get(m.topology, m.id) is Some,
    ensures
        forall|k: int|
            0 <= k < broadcast_fanout(m, src, v).len() ==> topo_get(m.topology, m.id)
                .unwrap()
                .contains(#[trigger] broadcast_fanout(m, src, v)[k]) && broadcast_fanout(
                m,
                src,
                v,
            )[k] != src,
{
    lemma_targets_members(topo_get(m.topology, m.id).unwrap(), src);
}

/// Unique-id uniqueness: across sequential `generate` requests at one node
/// the returned identifiers are pairwise distinct, because each request
/// moves the counter by exactly one and the identifier is injective in the
/// counter reading.
pub proof fn lemma_generate_ids_distinct(m: NodeModel, i: int, j: int)
    requires
        m.wf(),
        0 <= i,
        0 <= j,
        i != j,
    ensures
        unique_id_of(m.id, m.last_msg_id + 1 + i) != unique_id_of(m.id, m.last_msg_id + 1 + j),
{
    lemma_unique_id_injective(m.id, m.last_msg_id + 1 + i, m.last_msg_id + 1 + j);
}

/// The delivered-value set grows monotonically: no handled payload ever
/// shrinks it or disturbs the values already delivered.
pub proof fn lemma_messages_monotonic(m: NodeModel, src: Seq<char>, body: Payload)
    ensures
        step_post(m, src, body).messages.len() >= m.messages.len(),
        forall|i: int|
            0 <= i < m.messages.len() ==> step_post(m, src, body).messages[i]
                == #[trigger] m.messages[i],
{
}

} // verus!
