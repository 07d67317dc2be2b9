use gossip_node::dispatch::{handle_init, handle_message};
use gossip_node::node::Node;
use gossip_node::protocol::{HandlerError, Message, Payload};

fn strings(v: &[&str]) -> Vec<String> {
    v.iter().map(|s| s.to_string()).collect()
}

#[test]
fn init_builds_node_and_acknowledges() {
    let first = Message {
        src: "c0".to_string(),
        dest: "n1".to_string(),
        body: Payload::Init {
            msg_id: 1,
            node_id: "n1".to_string(),
            node_ids: strings(&["n1", "n2", "n3"]),
        },
    };
    let (node, reply) = handle_init(first).expect("init must be accepted");
    assert_eq!(node.id(), "n1");
    assert_eq!(node.last_msg_id(), 0);
    assert_eq!(reply.src, "n1");
    assert_eq!(reply.dest, "c0");
    match reply.body {
        Payload::InitOk { in_reply_to } => assert_eq!(in_reply_to, 1),
        _ => panic!("expected init_ok reply"),
    }
}

#[test]
fn init_gating_rejects_other_first_message() {
    let first = Message {
        src: "c0".to_string(),
        dest: "n1".to_string(),
        body: Payload::Echo { msg_id: 3, echo: "early".to_string() },
    };
    match handle_init(first) {
        Err(e) => assert_eq!(e, HandlerError::SequencingViolation),
        Ok(_) => panic!("a non-init first message must be refused"),
    }
}

#[test]
fn init_gating_rejects_broadcast_first() {
    let first = Message {
        src: "n2".to_string(),
        dest: "n1".to_string(),
        body: Payload::Broadcast { msg_id: 9, message: 5 },
    };
    match handle_init(first) {
        Err(e) => assert_eq!(e, HandlerError::SequencingViolation),
        Ok(_) => panic!("a non-init first message must be refused"),
    }
}

#[test]
fn init_after_init_is_protocol_violation() {
    let mut node = Node::new("n1".to_string(), strings(&["n1"]));
    let body = Payload::Init {
        msg_id: 2,
        node_id: "n1".to_string(),
        node_ids: strings(&["n1"]),
    };
    match handle_message(&mut node, "c0".to_string(), body) {
        Err(e) => assert_eq!(e, HandlerError::ProtocolViolation),
        Ok(_) => panic!("a second init must be refused"),
    }
    assert_eq!(node.last_msg_id(), 0);
}
