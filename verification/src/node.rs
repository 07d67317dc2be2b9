//! The node's mutable state: identity, cluster member list, correlation-id
//! counter, gossip topology, delivered-value set, and the table of in-flight
//! outbound requests awaiting acknowledgment. All handlers of one process
//! share a single value of this type behind one exclusion mechanism; the
//! contracts here describe each operation against the abstract model.

use vstd::prelude::*;
use crate::model::NodeModel;
use crate::model::cb_view;
use crate::model::has_key;
use crate::model::remove_key;
use crate::model::topo_get;
use crate::model::topo_view;
use crate::uid::push_decimal;
use crate::uid::unique_id_of;

verus! {

/// The single shared record of a node's state. Constructed once, by the
/// initialization handshake, before any other message is processed.
pub struct Node {
    id: String,
    node_ids: Vec<String>,
    last_msg_id: usize,
    topology: Vec<(String, Vec<String>)>,
    messages: Vec<usize>,
    callbacks: Vec<(usize, String)>,
}

impl View for Node {
    type V = NodeModel;

    closed spec fn view(&self) -> NodeModel {
        NodeModel {
            id: self.id@,
            node_ids: self.node_ids.deep_view(),
            last_msg_id: self.last_msg_id as int,
            topology: topo_view(self.topology@),
            messages: self.messages@,
            callbacks: cb_view(self.callbacks@),
        }
    }
}

impl Node {
    /// A fresh node: the given identity, an untouched counter, and empty
    /// topology, delivered-value set and outstanding-request table.
    pub fn new(id: String, node_ids: Vec<String>) -> (r: Node)
        ensures
            r@ == NodeModel::init(id@, node_ids.deep_view()),
            r@.wf(),
    {
        let r = Node {
            id,
            node_ids,
            last_msg_id: 0,
            topology: Vec::new(),
            messages: Vec::new(),
            callbacks: Vec::new(),
        };
        proof {
            assert(r@.topology =~= Seq::<(Seq<char>, Seq<Seq<char>>)>::empty());
            assert(r@.callbacks =~= Seq::<(int, Seq<char>)>::empty());
            assert(r@ =~= NodeModel::init(r.id@, r.node_ids.deep_view()));
        }
        r
    }

    /// The node's own identifier.
    pub fn id(&self) -> (r: &String)
        ensures
            r@ == self@.id,
    {
        &self.id
    }

    /// The correlation-id counter's current reading: the last id drawn, or
    /// zero before the first.
    pub fn last_msg_id(&self) -> (r: usize)
        ensures
            r == self@.last_msg_id,
    {
        self.last_msg_id
    }

    /// Draws the next correlation id: strictly increasing, starting at one.
    pub fn next_msg_id(&mut self) -> (r: usize)
        requires
            old(self)@.last_msg_id < usize::MAX,
        ensures
            final(self)@ == (NodeModel { last_msg_id: old(self)@.last_msg_id + 1, ..old(self)@ }),
            r == old(self)@.last_msg_id + 1,
    {
        self.last_msg_id = self.last_msg_id + 1;
        proof {
            assert(self@ =~= (NodeModel { last_msg_id: old(self)@.last_msg_id + 1, ..old(self)@ }));
        }
        self.last_msg_id
    }

    /// Replaces the gossip topology wholesale; a re-supply overwrites the
    /// previous mapping.
    pub fn set_topology(&mut self, topology: Vec<(String, Vec<String>)>)
        ensures
            final(self)@ == (NodeModel { topology: topo_view(topology@), ..old(self)@ }),
    {
        self.topology = topology;
        proof {
            assert(self@ =~= (NodeModel { topology: topo_view(self.topology@), ..old(self)@ }));
        }
    }

    /// Looks the given identifier up in the topology and hands back a copy
    /// of its neighbor list, or nothing when the topology has no entry for
    /// it.
    pub fn neighbors(&self, key: &String) -> (r: Option<Vec<String>>)
        ensures
            match r {
                Some(v) => topo_get(self@.topology, key@) == Some(v.deep_view()),
                None => topo_get(self@.topology, key@) is None,
            },
    {
        let ghost t = self@.topology;
        let n = self.topology.len();
        let mut i: usize = 0;
        proof {
            assert(t.skip(0) =~= t);
        }
        while i < n
            invariant
                i <= n,
                n == self.topology.len(),
                t == self@.topology,
                topo_get(t, key@) == topo_get(t.skip(i as int), key@),
            decreases n - i,
        {
            proof {
                assert(t.skip(i as int)[0] == t[i as int]);
                assert(t.skip(i as int).drop_first() =~= t.skip(i as int + 1));
            }
            if self.topology[i].0 == *key {
                return Some(clone_string_vec(&self.topology[i].1));
            }
            i = i + 1;
        }
        proof {
            assert(t.skip(n as int) =~= Seq::<(Seq<char>, Seq<Seq<char>>)>::empty());
        }
        None
    }

    /// Whether a broadcast value was delivered at this node before.
    pub fn contains_message(&self, v: usize) -> (r: bool)
        ensures
            r == self@.messages.contains(v),
    {
        let n = self.messages.len();
        let mut i: usize = 0;
        while i < n
            invariant
                i <= n,
                n == self.messages.len(),
                forall|j: int| 0 <= j < i ==> self.messages@[j] != v,
            decreases n - i,
        {
            if self.messages[i] == v {
                return true;
            }
            i = i + 1;
        }
        proof {
            if self@.messages.contains(v) {
                let j = choose|j: int| 0 <= j < self@.messages.len() && self@.messages[j] == v;
                assert(false);
            }
        }
        false
    }

    /// Insert-and-test-membership for the delivered-value set: records the
    /// value and reports whether it is new. The set only ever grows, and a
    /// value already present is left alone, so each value enters at most
    /// once.
    pub fn observe(&mut self, v: usize) -> (r: bool)
        ensures
            r == !old(self)@.messages.contains(v),
            final(self)@ == (NodeModel {
                messages: if old(self)@.messages.contains(v) {
                    old(self)@.messages
                } else {
                    old(self)@.messages.push(v)
                },
                ..old(self)@
            }),
    {
        if self.contains_message(v) {
            proof {
                assert(self@ =~= (NodeModel { messages: old(self)@.messages, ..old(self)@ }));
            }
            false
        } else {
            self.messages.push(v);
            proof {
                assert(self@ =~= (NodeModel {
                    messages: old(self)@.messages.push(v),
                    ..old(self)@
                }));
            }
            true
        }
    }

    /// A snapshot of the delivered-value set, in delivery order.
    pub fn read_messages(&self) -> (r: Vec<usize>)
        ensures
            r@ == self@.messages,
    {
        let n = self.messages.len();
        let mut r: Vec<usize> = Vec::new();
        let mut i: usize = 0;
        while i < n
            invariant
                i <= n,
                n == self.messages.len(),
                r@ == self.messages@.take(i as int),
            decreases n - i,
        {
            r.push(self.messages[i]);
            proof {
                assert(self.messages@.take(i as int).push(self.messages@[i as int]) =~= self
                    .messages@
                    .take(i as int + 1));
            }
            i = i + 1;
        }
        proof {
            assert(self.messages@.take(n as int) =~= self.messages@);
        }
        r
    }

    /// Creates one outstanding-request entry: the correlation id of a
    /// request just sent, mapped to the peer it went to.
    pub fn register_callback(&mut self, key: usize, dest: String)
        ensures
            final(self)@ == (NodeModel {
                callbacks: old(self)@.callbacks.push((key as int, dest@)),
                ..old(self)@
            }),
    {
        let ghost pre = self@.callbacks;
        self.callbacks.push((key, dest));
        proof {
            assert(cb_view(self.callbacks@) =~= pre.push((key as int, dest@)));
            assert(self@ =~= (NodeModel {
                callbacks: old(self)@.callbacks.push((key as int, dest@)),
                ..old(self)@
            }));
        }
    }

    /// Whether an outstanding-request entry exists for a correlation id.
    pub fn has_callback(&self, key: usize) -> (r: bool)
        ensures
            r == has_key(self@.callbacks, key as int),
    {
        let n = self.callbacks.len();
        let mut i: usize = 0;
        while i < n
            invariant
                i <= n,
                n == self.callbacks.len(),
                forall|j: int| 0 <= j < i ==> self.callbacks@[j].0 as int != key as int,
            decreases n - i,
        {
            if self.callbacks[i].0 == key {
                proof {
                    assert(self@.callbacks[i as int].0 == key as int);
                }
                return true;
            }
            i = i + 1;
        }
        proof {
            if has_key(self@.callbacks, key as int) {
                let j = choose|j: int|
                    0 <= j < self@.callbacks.len() && self@.callbacks[j].0 == key as int;
                assert(self.callbacks@[j].0 as int == key as int);
            }
        }
        false
    }

    /// Destroys the outstanding-request entries for a correlation id,
    /// keeping every other entry in order, and reports whether any entry
    /// matched. Under well-formedness the ids are unique, so a match drops
    /// exactly one entry.
    pub fn resolve_callback(&mut self, key: usize) -> (r: bool)
        ensures
            r == has_key(old(self)@.callbacks, key as int),
            final(self)@ == (NodeModel {
                callbacks: remove_key(old(self)@.callbacks, key as int),
                ..old(self)@
            }),
    {
        let (out, found) = filter_callbacks(&self.callbacks, key);
        self.callbacks = out;
        proof {
            assert(self@ =~= (NodeModel {
                callbacks: remove_key(old(self)@.callbacks, key as int),
                ..old(self)@
            }));
        }
        found
    }

    /// A value unique across the cluster for the process lifetime: the
    /// node's identifier followed by the counter's current reading. Peers
    /// never collide because identifiers are cluster-unique; two calls at
    /// this node never collide as long as the counter moved in between.
    pub fn gen_unique_id(&mut self) -> (r: String)
        ensures
            *final(self) == *old(self),
            r@ == unique_id_of(old(self)@.id, old(self)@.last_msg_id),
    {
        let mut copied_node_id = self.id.clone();
        push_decimal(&mut copied_node_id, self.last_msg_id);
        copied_node_id
    }
}

/// An element-for-element copy of a list of identifiers.
fn clone_string_vec(v: &Vec<String>) -> (r: Vec<String>)
    ensures
        r@ == v@,
{
    let n = v.len();
    let mut r: Vec<String> = Vec::new();
    let mut i: usize = 0;
    while i < n
        invariant
            i <= n,
            n == v.len(),
            r@ == v@.take(i as int),
        decreases n - i,
    {
        r.push(v[i].clone());
        proof {
            assert(v@.take(i as int).push(v@[i as int]) =~= v@.take(i as int + 1));
        }
        i = i + 1;
    }
    proof {
        assert(v@.take(n as int) =~= v@);
    }
    r
}

/// Splits an outstanding-request table into the entries whose correlation
/// id differs from `key`, reporting whether any entry matched.
fn filter_callbacks(cb: &Vec<(usize, String)>, key: usize) -> (r: (Vec<(usize, String)>, bool))
    ensures
        cb_view(r.0@) == remove_key(cb_view(cb@), key as int),
        r.1 == has_key(cb_view(cb@), key as int),
{
    let n = cb.len();
    let mut out: Vec<(usize, String)> = Vec::new();
    let mut found = false;
    let mut i: usize = 0;
    proof {
        assert(cb_view(cb@.take(0)) =~= Seq::<(int, Seq<char>)>::empty());
        assert(cb_view(out@) =~= remove_key(cb_view(cb@.take(0)), key as int));
        assert(!has_key(cb_view(cb@.take(0)), key as int));
    }
    while i < n
        invariant
            i <= n,
            n == cb.len(),
            cb_view(out@) == remove_key(cb_view(cb@.take(i as int)), key as int),
            found == has_key(cb_view(cb@.take(i as int)), key as int),
        decreases n - i,
    {
        let ghost pre = cb_view(cb@.take(i as int));
        let ghost cur = ((cb@[i as int].0 as int, cb@[i as int].1@));
        proof {
            assert(cb_view(cb@.take(i as int + 1)) =~= pre.push(cur));
            assert(pre.push(cur).drop_last() =~= pre);
            assert(has_key(pre.push(cur), key as int) == (has_key(pre, key as int) || cur.0
                == key as int)) by {
                if has_key(pre, key as int) {
                    let j = choose|j: int| 0 <= j < pre.len() && pre[j].0 == key as int;
                    assert(pre.push(cur)[j].0 == key as int);
                }
                if cur.0 == key as int {
                    assert(pre.push(cur)[pre.len() as int].0 == key as int);
                }
                if has_key(pre.push(cur), key as int) {
                    let j = choose|j: int|
                        0 <= j < pre.push(cur).len() && pre.push(cur)[j].0 == key as int;
                    if j < pre.len() {
                        assert(pre[j].0 == key as int);
                    }
                }
            }
        }
        if cb[i].0 != key {
            out.push((cb[i].0, cb[i].1.clone()));
            proof {
                assert(cb_view(out@) =~= remove_key(pre, key as int).push(cur));
                assert(remove_key(pre.push(cur), key as int) == remove_key(pre, key as int).push(
                    cur,
                ));
            }
        } else {
            found = true;
        }
        i = i + 1;
    }
    proof {
        assert(cb@.take(n as int) =~= cb@);
    }
    (out, found)
}

} // verus!
