use gossip_node::dispatch::handle_message;
use gossip_node::node::Node;
use gossip_node::protocol::{HandlerError, Message, Payload};

fn strings(v: &[&str]) -> Vec<String> {
    v.iter().map(|s| s.to_string()).collect()
}

fn node_with_topology(id: &str, neighbors: &[&str]) -> Node {
    let mut node = Node::new(id.to_string(), strings(&[id]));
    let topo = vec![(id.to_string(), strings(neighbors))];
    let out = handle_message(&mut node, "c0".to_string(), Payload::Topology {
        topology: topo,
        msg_id: 1,
    })
    .expect("topology must be accepted");
    assert_eq!(out.len(), 1);
    node
}

#[test]
fn topology_reply_correlates() {
    let mut node = Node::new("n1".to_string(), strings(&["n1", "n2"]));
    let topo = vec![("n1".to_string(), strings(&["n2"]))];
    let out = handle_message(&mut node, "c0".to_string(), Payload::Topology {
        topology: topo,
        msg_id: 8,
    })
    .expect("topology must be accepted");
    assert_eq!(out.len(), 1);
    match &out[0].body {
        Payload::TopologyOk { msg_id, in_reply_to } => {
            assert_eq!(*msg_id, 1);
            assert_eq!(*in_reply_to, 8);
        }
        _ => panic!("expected topology_ok reply"),
    }
}

#[test]
fn broadcast_fans_out_to_all_but_sender() {
    let mut node = node_with_topology("n1", &["n2", "n3"]);
    let out = handle_message(&mut node, "n2".to_string(), Payload::Broadcast {
        msg_id: 30,
        message: 5,
    })
    .expect("broadcast must be accepted");
    assert_eq!(out.len(), 2);
    assert_eq!(out[0].dest, "n2");
    match &out[0].body {
        Payload::BroadcastOk { in_reply_to, .. } => assert_eq!(*in_reply_to, 30),
        _ => panic!("first output must be the acknowledgment"),
    }
    assert_eq!(out[1].src, "n1");
    assert_eq!(out[1].dest, "n3");
    match &out[1].body {
        Payload::Broadcast { message, .. } => assert_eq!(*message, 5),
        _ => panic!("fan-out must carry the broadcast value"),
    }
}

#[test]
fn duplicate_broadcast_is_not_refanned() {
    let mut node = node_with_topology("n1", &["n2", "n3"]);
    let first = handle_message(&mut node, "n2".to_string(), Payload::Broadcast {
        msg_id: 30,
        message: 5,
    })
    .expect("broadcast must be accepted");
    assert_eq!(first.len(), 2);
    let second = handle_message(&mut node, "n3".to_string(), Payload::Broadcast {
        msg_id: 31,
        message: 5,
    })
    .expect("a repeated value is still acknowledged");
    assert_eq!(second.len(), 1);
    match &second[0].body {
        Payload::BroadcastOk { in_reply_to, .. } => assert_eq!(*in_reply_to, 31),
        _ => panic!("repeat delivery gets only the acknowledgment"),
    }
    let read = handle_message(&mut node, "c1".to_string(), Payload::Read { msg_id: 40 })
        .expect("read must be accepted");
    match &read[0].body {
        Payload::ReadOk { messages, .. } => assert_eq!(messages, &vec![5]),
        _ => panic!("expected read_ok reply"),
    }
}

#[test]
fn read_returns_all_injected_values() {
    let mut node = node_with_topology("n1", &["n2"]);
    for (sender, value) in [("c1", 7usize), ("n2", 11), ("n3", 13)] {
        handle_message(&mut node, sender.to_string(), Payload::Broadcast {
            msg_id: 50,
            message: value,
        })
        .expect("broadcast must be accepted");
    }
    let read = handle_message(&mut node, "c1".to_string(), Payload::Read { msg_id: 60 })
        .expect("read must be accepted");
    match &read[0].body {
        Payload::ReadOk { messages, .. } => {
            let mut got = messages.clone();
            got.sort();
            assert_eq!(got, vec![7, 11, 13]);
        }
        _ => panic!("expected read_ok reply"),
    }
}

#[test]
fn ack_correlation_removes_exactly_one_entry() {
    let mut node = node_with_topology("n1", &["n2", "n3"]);
    let out = handle_message(&mut node, "n2".to_string(), Payload::Broadcast {
        msg_id: 30,
        message: 5,
    })
    .expect("broadcast must be accepted");
    let fanout_id = match &out[1].body {
        Payload::Broadcast { msg_id, .. } => *msg_id,
        _ => panic!("fan-out must be a broadcast"),
    };
    let acked = handle_message(&mut node, "n3".to_string(), Payload::BroadcastOk {
        msg_id: 1,
        in_reply_to: fanout_id,
    })
    .expect("matching acknowledgment must be accepted");
    assert!(acked.is_empty());
    match handle_message(&mut node, "n3".to_string(), Payload::BroadcastOk {
        msg_id: 2,
        in_reply_to: fanout_id,
    }) {
        Err(e) => assert_eq!(e, HandlerError::ProtocolViolation),
        Ok(_) => panic!("the entry was removed once and must be gone"),
    }
}

#[test]
fn unmatched_ack_is_protocol_violation() {
    let mut node = node_with_topology("n1", &["n2"]);
    match handle_message(&mut node, "n2".to_string(), Payload::BroadcastOk {
        msg_id: 1,
        in_reply_to: 99,
    }) {
        Err(e) => assert_eq!(e, HandlerError::ProtocolViolation),
        Ok(_) => panic!("an acknowledgment with no matching entry must be refused"),
    }
}

#[test]
fn fresh_broadcast_without_topology_entry_is_refused() {
    let mut node = Node::new("n1".to_string(), strings(&["n1", "n2"]));
    match handle_message(&mut node, "n2".to_string(), Payload::Broadcast {
        msg_id: 3,
        message: 9,
    }) {
        Err(e) => assert_eq!(e, HandlerError::ProtocolViolation),
        Ok(_) => panic!("fan-out of a fresh value needs the node's topology entry"),
    }
    assert_eq!(node.last_msg_id(), 0);
}

#[test]
fn broadcast_from_only_neighbor_is_acked_without_fanout() {
    let mut node = node_with_topology("n1", &["n2"]);
    let out = handle_message(&mut node, "n2".to_string(), Payload::Broadcast {
        msg_id: 12,
        message: 6,
    })
    .expect("broadcast must be accepted");
    assert_eq!(out.len(), 1);
    let read = handle_message(&mut node, "c1".to_string(), Payload::Read { msg_id: 13 })
        .expect("read must be accepted");
    match &read[0].body {
        Payload::ReadOk { messages, .. } => assert_eq!(messages, &vec![6]),
        _ => panic!("expected read_ok reply"),
    }
}

#[test]
fn broadcast_with_empty_neighbor_list_is_acked() {
    let mut node = node_with_topology("n1", &[]);
    let out = handle_message(&mut node, "c1".to_string(), Payload::Broadcast {
        msg_id: 2,
        message: 3,
    })
    .expect("broadcast must be accepted");
    assert_eq!(out.len(), 1);
}

#[test]
fn local_injection_fans_out_to_every_neighbor() {
    let mut node = node_with_topology("n1", &["n2", "n3"]);
    let out = handle_message(&mut node, "c7".to_string(), Payload::Broadcast {
        msg_id: 20,
        message: 8,
    })
    .expect("broadcast must be accepted");
    assert_eq!(out.len(), 3);
    assert_eq!(out[1].dest, "n2");
    assert_eq!(out[2].dest, "n3");
}

#[test]
fn topology_resupply_overwrites() {
    let mut node = node_with_topology("n1", &["n2"]);
    handle_message(&mut node, "c0".to_string(), Payload::Topology {
        topology: vec![("n1".to_string(), strings(&["n3"]))],
        msg_id: 2,
    })
    .expect("a topology re-supply must be accepted");
    let out = handle_message(&mut node, "c1".to_string(), Payload::Broadcast {
        msg_id: 3,
        message: 4,
    })
    .expect("broadcast must be accepted");
    assert_eq!(out.len(), 2);
    assert_eq!(out[1].dest, "n3");
}

#[test]
fn distinct_values_are_neither_lost_nor_duplicated() {
    let mut node = node_with_topology("n1", &["n2"]);
    let senders = ["n2", "c1", "n3", "c2"];
    for k in 0..20usize {
        handle_message(
            &mut node,
            senders[k % senders.len()].to_string(),
            Payload::Broadcast { msg_id: 100 + k, message: 1000 + k },
        )
        .expect("broadcast must be accepted");
    }
    let read = handle_message(&mut node, "c1".to_string(), Payload::Read { msg_id: 500 })
        .expect("read must be accepted");
    match &read[0].body {
        Payload::ReadOk { messages, .. } => {
            let mut got = messages.clone();
            got.sort();
            got.dedup();
            assert_eq!(got.len(), 20);
            assert_eq!(got, (0..20).map(|k| 1000 + k).collect::<Vec<usize>>());
        }
        _ => panic!("expected read_ok reply"),
    }
}
