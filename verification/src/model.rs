//! The mathematical model of a node's state and of the broadcast engine's
//! transition, shared by the contracts of the executable code and by the
//! protocol lemmas.

use vstd::prelude::*;

verus! {

/// The abstract value of a node's mutable state: identity, cluster member
/// list, correlation-id counter, gossip topology, delivered-value set (as
/// the sequence of values in delivery order, free of duplicates), and the
/// outstanding-request table (as a sequence of pairs of correlation id and
/// recipient, with pairwise-distinct ids).
#[verifier::ext_equal]
pub struct NodeModel {
    pub id: Seq<char>,
    pub node_ids: Seq<Seq<char>>,
    pub last_msg_id: int,
    pub topology: Seq<(Seq<char>, Seq<Seq<char>>)>,
    pub messages: Seq<usize>,
    pub callbacks: Seq<(int, Seq<char>)>,
}

impl NodeModel {
    /// Well-formedness: the counter never went backwards from its origin,
    /// delivered values are pairwise distinct, and every outstanding
    /// correlation id is unique and was drawn from the counter.
    pub open spec fn wf(self) -> bool {
        &&& self.last_msg_id >= 0
        &&& self.messages.no_duplicates()
        &&& (forall|i: int, j: int|
            0 <= i < j < self.callbacks.len() ==> self.callbacks[i].0 != self.callbacks[j].0)
        &&& (forall|i: int|
            0 <= i < self.callbacks.len() ==> 1 <= #[trigger] self.callbacks[i].0
                <= self.last_msg_id)
    }

    /// The state a freshly initialized node starts from.
    pub open spec fn init(id: Seq<char>, node_ids: Seq<Seq<char>>) -> NodeModel {
        NodeModel {
            id: id,
            node_ids: node_ids,
            last_msg_id: 0,
            topology: Seq::empty(),
            messages: Seq::empty(),
            callbacks: Seq::empty(),
        }
    }
}

/// The abstract value of a topology list held as executable pairs.
pub open spec fn topo_view(t: Seq<(String, Vec<String>)>) -> Seq<(Seq<char>, Seq<Seq<char>>)> {
    Seq::new(t.len(), |i: int| (t[i].0@, t[i].1.deep_view()))
}

/// The abstract value of an outstanding-request table held as executable
/// pairs.
pub open spec fn cb_view(s: Seq<(usize, String)>) -> Seq<(int, Seq<char>)> {
    Seq::new(s.len(), |i: int| (s[i].0 as int, s[i].1@))
}

/// First-match lookup of a key in a topology list.
pub open spec fn topo_get(
    t: Seq<(Seq<char>, Seq<Seq<char>>)>,
    key: Seq<char>,
) -> Option<Seq<Seq<char>>>
    decreases t.len(),
{
    if t.len() == 0 {
        None
    } else if t[0].0 == key {
        Some(t[0].1)
    } else {
        topo_get(t.drop_first(), key)
    }
}

/// The fan-out recipients of a broadcast: the node's neighbors in order,
/// with the immediate sender excluded.
pub open spec fn targets(neigh: Seq<Seq<char>>, src: Seq<char>) -> Seq<Seq<char>>
    decreases neigh.len(),
{
    if neigh.len() == 0 {
        Seq::empty()
    } else {
        let rest = targets(neigh.drop_last(), src);
        if neigh.last() == src {
            rest
        } else {
            rest.push(neigh.last())
        }
    }
}

/// A fan-out never reaches more peers than the node has neighbors.
pub proof fn lemma_targets_len(neigh: Seq<Seq<char>>, src: Seq<char>)
    ensures
        targets(neigh, src).len() <= neigh.len(),
    decreases neigh.len(),
{
    if neigh.len() > 0 {
        lemma_targets_len(neigh.drop_last(), src);
    }
}

/// Every fan-out recipient is a neighbor other than the immediate sender.
pub proof fn lemma_targets_members(neigh: Seq<Seq<char>>, src: Seq<char>)
    ensures
        forall|k: int|
            0 <= k < targets(neigh, src).len() ==> neigh.contains(#[trigger] targets(neigh, src)[k])
                && targets(neigh, src)[k] != src,
    decreases neigh.len(),
{
    if neigh.len() > 0 {
        let dl = neigh.drop_last();
        let rest = targets(dl, src);
        let t = targets(neigh, src);
        lemma_targets_members(dl, src);
        assert forall|x: Seq<char>| dl.contains(x) implies neigh.contains(x) by {
            let j = choose|j: int| 0 <= j < dl.len() && dl[j] == x;
            assert(neigh[j] == x);
        }
        assert forall|k: int| 0 <= k < t.len() implies neigh.contains(#[trigger] t[k]) && t[k]
            != src by {
            if neigh.last() == src || k < rest.len() {
                assert(t[k] == rest[k]);
                assert(dl.contains(rest[k]));
            } else {
                assert(t[k] == neigh.last());
                assert(neigh.contains(neigh.last()));
            }
        }
    }
}

/// The outstanding-request entries a fan-out creates: one per recipient,
/// with consecutive correlation ids starting two past the counter value the
/// handler found (the first increment is spent on the acknowledgment).
pub open spec fn fanout_callbacks(last: int, t: Seq<Seq<char>>) -> Seq<(int, Seq<char>)> {
    Seq::new(t.len(), |k: int| (last + 2 + k, t[k]))
}

/// Whether an outstanding-request table holds an entry for a correlation id.
pub open spec fn has_key(cb: Seq<(int, Seq<char>)>, key: int) -> bool {
    exists|i: int| 0 <= i < cb.len() && #[trigger] cb[i].0 == key
}

/// The table with the entries for a correlation id removed; when ids are
/// unique this drops exactly one entry and keeps every other in order.
pub open spec fn remove_key(cb: Seq<(int, Seq<char>)>, key: int) -> Seq<(int, Seq<char>)>
    decreases cb.len(),
{
    if cb.len() == 0 {
        Seq::empty()
    } else {
        let rest = remove_key(cb.drop_last(), key);
        if cb.last().0 == key {
            rest
        } else {
            rest.push(cb.last())
        }
    }
}

/// Every entry surviving a removal stood in the table before, under a
/// correlation id other than the removed one.
pub proof fn lemma_remove_key_contains(cb: Seq<(int, Seq<char>)>, key: int)
    ensures
        remove_key(cb, key).len() <= cb.len(),
        forall|i: int|
            0 <= i < remove_key(cb, key).len() ==> cb.contains(#[trigger] remove_key(cb, key)[i])
                && remove_key(cb, key)[i].0 != key,
    decreases cb.len(),
{
    if cb.len() > 0 {
        let dl = cb.drop_last();
        let rest = remove_key(dl, key);
        lemma_remove_key_contains(dl, key);
        assert forall|x: (int, Seq<char>)| dl.contains(x) implies cb.contains(x) by {
            let j = choose|j: int| 0 <= j < dl.len() && dl[j] == x;
            assert(cb[j] == x);
        }
        if cb.last().0 != key {
            assert(cb.contains(cb.last()));
            assert(forall|i: int|
                0 <= i < rest.len() ==> #[trigger] rest.push(cb.last())[i] == rest[i]);
        }
    }
}

/// Removal keeps correlation ids pairwise distinct.
pub proof fn lemma_remove_key_unique(cb: Seq<(int, Seq<char>)>, key: int)
    requires
        forall|i: int, j: int| 0 <= i < j < cb.len() ==> cb[i].0 != cb[j].0,
    ensures
        forall|i: int, j: int|
            0 <= i < j < remove_key(cb, key).len() ==> remove_key(cb, key)[i].0 != remove_key(
                cb,
                key,
            )[j].0,
    decreases cb.len(),
{
    if cb.len() > 0 {
        let dl = cb.drop_last();
        let rest = remove_key(dl, key);
        assert(forall|i: int| 0 <= i < dl.len() ==> dl[i] == #[trigger] cb[i]);
        lemma_remove_key_unique(dl, key);
        lemma_remove_key_contains(dl, key);
        if cb.last().0 != key {
            assert forall|i: int, j: int|
                0 <= i < j < rest.push(cb.last()).len() implies rest.push(cb.last())[i].0 != rest
                .push(cb.last())[j].0 by {
                if j == rest.len() {
                    let x = rest[i];
                    assert(dl.contains(x));
                    let ji = choose|ji: int| 0 <= ji < dl.len() && dl[ji] == x;
                    assert(cb[ji].0 != cb[cb.len() - 1].0);
                }
            }
        }
    }
}

/// With pairwise-distinct correlation ids, removing one id drops exactly
/// the matching entry: a table without the id is unchanged, a table with it
/// shrinks by one, and every entry under another id survives.
pub proof fn lemma_remove_key_exact(cb: Seq<(int, Seq<char>)>, key: int)
    requires
        forall|i: int, j: int| 0 <= i < j < cb.len() ==> cb[i].0 != cb[j].0,
    ensures
        !has_key(cb, key) ==> remove_key(cb, key) == cb,
        has_key(cb, key) ==> remove_key(cb, key).len() == cb.len() - 1,
        forall|i: int|
            0 <= i < cb.len() && (#[trigger] cb[i]).0 != key ==> remove_key(cb, key).contains(
                cb[i],
            ),
    decreases cb.len(),
{
    if cb.len() > 0 {
        let dl = cb.drop_last();
        let rest = remove_key(dl, key);
        assert(forall|i: int| 0 <= i < dl.len() ==> dl[i] == #[trigger] cb[i]);
        lemma_remove_key_exact(dl, key);
        if !has_key(cb, key) {
            assert(!has_key(dl, key)) by {
                if has_key(dl, key) {
                    let j = choose|j: int| 0 <= j < dl.len() && dl[j].0 == key;
                    assert(cb[j].0 == key);
                }
            }
            assert(cb.last().0 != key) by {
                if cb.last().0 == key {
                    assert(cb[cb.len() - 1].0 == key);
                }
            }
            assert(rest.push(cb.last()) =~= cb);
        } else {
            if cb.last().0 == key {
                assert(!has_key(dl, key)) by {
                    if has_key(dl, key) {
                        let j = choose|j: int| 0 <= j < dl.len() && dl[j].0 == key;
                        assert(cb[j].0 != cb[cb.len() - 1].0);
                    }
                }
            } else {
                assert(has_key(dl, key)) by {
                    let j = choose|j: int| 0 <= j < cb.len() && cb[j].0 == key;
                    assert(dl[j] == cb[j]);
                }
            }
        }
        assert forall|i: int|
            0 <= i < cb.len() && (#[trigger] cb[i]).0 != key implies remove_key(cb, key).contains(
            cb[i],
        ) by {
            if i < dl.len() {
                assert(dl[i] == cb[i]);
                assert(rest.contains(cb[i]));
                let j = choose|j: int| 0 <= j < rest.len() && rest[j] == cb[i];
                if cb.last().0 != key {
                    assert(rest.push(cb.last())[j] == cb[i]);
                }
            } else {
                assert(cb[i] == cb.last());
                assert(rest.push(cb.last())[rest.len() as int] == cb.last());
            }
        }
    }
}

/// The state after handling a broadcast of value `v` from sender `src`: the
/// counter moves once for the acknowledgment; a value seen before changes
/// nothing else; a new value is recorded and fanned out, spending one more
/// counter step and one outstanding-request entry per recipient.
pub open spec fn broadcast_post(m: NodeModel, src: Seq<char>, v: usize) -> NodeModel {
    if m.messages.contains(v) {
        (NodeModel { last_msg_id: m.last_msg_id + 1, ..m })
    } else {
        let t = targets(topo_get(m.topology, m.id).unwrap(), src);
        (NodeModel {
            last_msg_id: m.last_msg_id + 1 + t.len(),
            messages: m.messages.push(v),
            callbacks: m.callbacks + fanout_callbacks(m.last_msg_id, t),
            ..m
        })
    }
}

/// The fan-out recipients a broadcast of `v` from `src` reaches: none when
/// the value was seen before, the sender-excluded neighbor list otherwise.
pub open spec fn broadcast_fanout(m: NodeModel, src: Seq<char>, v: usize) -> Seq<Seq<char>> {
    if m.messages.contains(v) {
        Seq::empty()
    } else {
        targets(topo_get(m.topology, m.id).unwrap(), src)
    }
}

} // verus!
