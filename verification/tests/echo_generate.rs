use gossip_node::dispatch::handle_message;
use gossip_node::node::Node;
use gossip_node::protocol::{Message, Payload};

fn strings(v: &[&str]) -> Vec<String> {
    v.iter().map(|s| s.to_string()).collect()
}

fn one_reply(r: Result<Vec<Message>, gossip_node::protocol::HandlerError>) -> Message {
    let mut out = r.expect("handler must accept this payload");
    assert_eq!(out.len(), 1);
    out.pop().unwrap()
}

#[test]
fn echo_replies_with_same_payload() {
    let mut node = Node::new("n1".to_string(), strings(&["n1", "n2"]));
    let body = Payload::Echo { msg_id: 42, echo: "hello there".to_string() };
    let reply = one_reply(handle_message(&mut node, "c2".to_string(), body));
    assert_eq!(reply.src, "n1");
    assert_eq!(reply.dest, "c2");
    match reply.body {
        Payload::EchoOk { msg_id, in_reply_to, echo } => {
            assert_eq!(msg_id, 1);
            assert_eq!(in_reply_to, 42);
            assert_eq!(echo, "hello there");
        }
        _ => panic!("expected echo_ok reply"),
    }
}

#[test]
fn generate_replies_correlate() {
    let mut node = Node::new("n1".to_string(), strings(&["n1"]));
    let reply = one_reply(handle_message(&mut node, "c9".to_string(), Payload::Generate {
        msg_id: 17,
    }));
    match reply.body {
        Payload::GenerateOk { msg_id, in_reply_to, id } => {
            assert_eq!(msg_id, 1);
            assert_eq!(in_reply_to, 17);
            assert_eq!(id, "n11");
        }
        _ => panic!("expected generate_ok reply"),
    }
}

#[test]
fn generate_ids_are_pairwise_distinct() {
    let mut node = Node::new("n4".to_string(), strings(&["n4"]));
    let mut ids: Vec<String> = Vec::new();
    for k in 0..12usize {
        let reply = one_reply(handle_message(&mut node, "c1".to_string(), Payload::Generate {
            msg_id: 100 + k,
        }));
        match reply.body {
            Payload::GenerateOk { id, .. } => ids.push(id),
            _ => panic!("expected generate_ok reply"),
        }
    }
    for i in 0..ids.len() {
        for j in 0..ids.len() {
            if i != j {
                assert_ne!(ids[i], ids[j]);
            }
        }
    }
}

#[test]
fn unique_id_is_node_id_and_counter() {
    let mut node = Node::new("n7".to_string(), strings(&["n7"]));
    node.next_msg_id();
    node.next_msg_id();
    node.next_msg_id();
    assert_eq!(node.gen_unique_id(), "n73");
    assert_eq!(node.last_msg_id(), 3);
    let mut fresh = Node::new("n7".to_string(), strings(&["n7"]));
    assert_eq!(fresh.gen_unique_id(), "n70");
}

#[test]
fn next_msg_id_is_strictly_increasing_from_one() {
    let mut node = Node::new("n1".to_string(), strings(&["n1"]));
    assert_eq!(node.next_msg_id(), 1);
    assert_eq!(node.next_msg_id(), 2);
    assert_eq!(node.next_msg_id(), 3);
    assert_eq!(node.last_msg_id(), 3);
}

#[test]
fn reply_only_tags_are_discarded_silently() {
    let mut node = Node::new("n1".to_string(), strings(&["n1"]));
    let acks = vec![
        Payload::EchoOk { msg_id: 1, in_reply_to: 1, echo: "x".to_string() },
        Payload::GenerateOk { msg_id: 2, in_reply_to: 1, id: "a1".to_string() },
        Payload::TopologyOk { msg_id: 3, in_reply_to: 2 },
        Payload::ReadOk { msg_id: 4, in_reply_to: 3, messages: vec![1, 2] },
    ];
    for body in acks {
        let out = handle_message(&mut node, "n2".to_string(), body)
            .expect("reply-only tags are not errors");
        assert!(out.is_empty());
    }
    assert_eq!(node.last_msg_id(), 0);
}
