use std::rc::Rc;

use gossip_node::link_kv::LinkKv;
use gossip_node::message::{Body, Message, Payload};
use gossip_node::message_queue::MessageQueue;
use gossip_node::node::Node;
use gossip_node::node_state::NodeState;

fn msg(src: &str, dst: &str, id: Option<usize>, in_reply_to: Option<usize>, payload: Payload) -> Message {
    Message::new(src.to_string(), dst.to_string(), Body::new(id, in_reply_to, payload))
}

fn new_node() -> Node {
    Node::new(MessageQueue::new(), LinkKv::new())
}

fn init(node: &mut Node, me: &str, all: &[&str]) -> Vec<Rc<Message>> {
    node.step(msg(
        "c0",
        me,
        Some(1),
        None,
        Payload::Init { node_id: me.to_string(), node_ids: all.iter().map(|s| s.to_string()).collect() },
    ));
    node.deliver(false)
}

#[test]
fn init_is_answered_with_init_ok() {
    let mut node = new_node();
    let out = init(&mut node, "n1", &["n1", "n2"]);
    assert_eq!(out.len(), 1);
    assert!(matches!(out[0].get_payload(), Payload::InitOk));
    assert_eq!(out[0].get_src(), "n1");
    assert_eq!(out[0].get_dst(), "c0");
    assert_eq!(out[0].get_in_reply_to(), Some(1));
    assert_eq!(out[0].get_message_id(), Some(0));
    assert_eq!(node.name(), "n1");
    assert_eq!(node.peers().len(), 2);
    assert_eq!(node.next_msg_id(), 1);
}

#[test]
fn echo_is_answered() {
    let mut node = new_node();
    init(&mut node, "n1", &["n1"]);
    node.step(msg("c1", "n1", Some(5), None, Payload::Echo { echo: "hi".to_string() }));
    let out = node.deliver(false);
    assert_eq!(out.len(), 1);
    assert!(matches!(out[0].get_payload(), Payload::EchoOk { echo } if echo == "hi"));
    assert_eq!(out[0].get_in_reply_to(), Some(5));
    assert_eq!(out[0].get_message_id(), Some(1));
}

#[test]
fn send_allocates_offset_zero_and_poll_returns_it() {
    let mut node = new_node();
    let out = init(&mut node, "n1", &["n1", "n2"]);
    assert!(matches!(out[0].get_payload(), Payload::InitOk));

    node.step(msg("c1", "n1", Some(2), None, Payload::Send { key: "k1".to_string(), msg: 5 }));
    assert!(node.awaiting_kv());
    let out = node.deliver(false);
    assert_eq!(out.len(), 1);
    assert_eq!(out[0].get_dst(), "lin-kv");
    assert_eq!(out[0].get_src(), "n1");
    assert!(matches!(out[0].get_payload(), Payload::Read { key } if key == "k1"));
    let read_id = out[0].get_message_id().unwrap();

    node.on_kv_reply(msg(
        "lin-kv",
        "n1",
        None,
        Some(read_id),
        Payload::Error { code: 20, text: "key does not exist".to_string() },
    ));
    assert!(node.awaiting_kv());
    let out = node.deliver(false);
    assert_eq!(out.len(), 1);
    assert!(matches!(out[0].get_payload(), Payload::Write { key, value: 0 } if key == "k1"));
    let write_id = out[0].get_message_id().unwrap();

    node.on_kv_reply(msg("lin-kv", "n1", None, Some(write_id), Payload::WriteOk));
    assert!(!node.awaiting_kv());
    let out = node.deliver(false);
    assert_eq!(out.len(), 1);
    assert!(matches!(out[0].get_payload(), Payload::SendOk { offset: 0 }));
    assert_eq!(out[0].get_dst(), "c1");
    assert_eq!(out[0].get_in_reply_to(), Some(2));

    node.flush_gossip();
    let out = node.deliver(false);
    assert_eq!(out.len(), 1);
    assert_eq!(out[0].get_dst(), "n2");
    assert!(matches!(out[0].get_payload(), Payload::Gossip { .. }));

    node.step(msg("c1", "n1", Some(3), None, Payload::Poll { offsets: vec![("k1".to_string(), 0)] }));
    let out = node.deliver(false);
    assert_eq!(out.len(), 1);
    match out[0].get_payload() {
        Payload::PollOk { msgs } => {
            assert_eq!(msgs.len(), 1);
            assert_eq!(msgs[0].0, "k1");
            assert_eq!(msgs[0].1, vec![(0, 5)]);
        }
        other => panic!("unexpected reply {:?}", other),
    }
}

#[test]
fn a_stale_service_reply_is_ignored() {
    let mut node = new_node();
    init(&mut node, "n1", &["n1"]);
    node.step(msg("c1", "n1", Some(2), None, Payload::Send { key: "k".to_string(), msg: 1 }));
    node.deliver(false);
    node.on_kv_reply(msg("lin-kv", "n1", None, Some(999), Payload::ReadOk { value: 3 }));
    assert!(node.awaiting_kv());
    assert!(node.deliver(false).is_empty());
}

#[test]
fn reply_to_own_message_counts_as_ack() {
    let mut node = new_node();
    init(&mut node, "n1", &["n1"]);
    node.step(msg("n2", "n1", Some(4), Some(0), Payload::GossipOk));
    assert!(node.deliver(false).is_empty());
    assert_eq!(node.next_msg_id(), 1);
}

#[test]
fn commit_and_list_offsets_through_the_node() {
    let mut node = new_node();
    init(&mut node, "n1", &["n1"]);
    node.step(msg("c1", "n1", Some(2), None, Payload::CommitOffsets { offsets: vec![("k1".to_string(), 3)] }));
    let out = node.deliver(false);
    assert!(matches!(out[0].get_payload(), Payload::CommitOffsetsOk));
    node.step(msg("c1", "n1", Some(3), None, Payload::ListCommittedOffsets { keys: vec!["k1".to_string(), "k2".to_string()] }));
    let out = node.deliver(false);
    match out[0].get_payload() {
        Payload::ListCommittedOffsetsOk { offsets } => assert_eq!(offsets, &vec![("k1".to_string(), 3)]),
        other => panic!("unexpected reply {:?}", other),
    }
}

#[test]
fn gossip_is_merged_and_answered() {
    let mut a = new_node();
    init(&mut a, "n1", &["n1", "n2"]);
    let mut b = new_node();
    init(&mut b, "n2", &["n1", "n2"]);
    a.step(msg("c1", "n1", Some(2), None, Payload::Txn { txn: vec![gossip_node::message::TxnEntry(gossip_node::message::TxnType::W, 1, Some(42))] }));
    let replies = a.deliver(true);
    let snapshot = replies
        .into_iter()
        .find(|m| matches!(m.get_payload(), Payload::Gossip { .. }))
        .expect("a snapshot for n2");
    let snapshot = Rc::try_unwrap(snapshot).ok();
    let snapshot = match snapshot {
        Some(m) => m,
        None => panic!("snapshot still shared"),
    };
    assert_eq!(snapshot.get_dst(), "n2");
    b.step(snapshot);
    let out = b.deliver(false);
    assert!(matches!(out[0].get_payload(), Payload::GossipOk));
    assert_eq!(b.state().key_value_store.get(&1), Some(&42));
}

#[test]
fn topology_is_recorded() {
    let mut node = new_node();
    init(&mut node, "n1", &["n1", "n2", "n3"]);
    node.step(msg(
        "c0",
        "n1",
        Some(2),
        None,
        Payload::Topology {
            topology: vec![
                ("n1".to_string(), vec!["n2".to_string()]),
                ("n2".to_string(), vec!["n1".to_string(), "n3".to_string()]),
            ],
        },
    ));
    let out = node.deliver(false);
    assert!(matches!(out[0].get_payload(), Payload::TopologyOk));
    // A change heard from n2 reaches n3 through n2, so only n2 itself, which
    // no walk from n2 returns to without passing through n1, gets a relay.
    node.step(msg("n2", "n1", Some(9), None, Payload::Txn { txn: vec![] }));
    node.flush_gossip();
    let out = node.deliver(false);
    assert_eq!(out.len(), 2);
    assert!(matches!(out[0].get_payload(), Payload::TxnOk { .. }));
    assert!(matches!(out[1].get_payload(), Payload::Gossip { .. }));
    assert_eq!(out[1].get_dst(), "n2");
}

#[test]
fn an_offset_already_written_is_allocated_again() {
    let mut node = new_node();
    init(&mut node, "n1", &["n1", "n2"]);
    let mut remote = NodeState::new();
    remote.log.add_message(&"k1".to_string(), 0, 9);
    node.step(msg("n2", "n1", Some(1), None, Payload::Gossip { received_state: remote }));
    node.deliver(true);

    node.step(msg("c1", "n1", Some(2), None, Payload::Send { key: "k1".to_string(), msg: 5 }));
    let read = node.deliver(false);
    let id = read[0].get_message_id();
    node.on_kv_reply(msg("lin-kv", "n1", None, id, Payload::Error { code: 20, text: "missing".to_string() }));
    let write = node.deliver(false);
    assert!(matches!(write[0].get_payload(), Payload::Write { value: 0, .. }));
    node.on_kv_reply(msg("lin-kv", "n1", None, write[0].get_message_id(), Payload::WriteOk));
    // Offset 0 already holds 9 here: no acknowledgement, a fresh read instead.
    assert!(node.awaiting_kv());
    let again = node.deliver(false);
    assert_eq!(again.len(), 1);
    assert!(matches!(again[0].get_payload(), Payload::Read { key } if key == "k1"));
    node.on_kv_reply(msg("lin-kv", "n1", None, again[0].get_message_id(), Payload::ReadOk { value: 0 }));
    let cas = node.deliver(false);
    assert!(matches!(cas[0].get_payload(), Payload::Cas { from: 0, to: 1, .. }));
    node.on_kv_reply(msg("lin-kv", "n1", None, cas[0].get_message_id(), Payload::CasOk));
    let out = node.deliver(false);
    assert!(matches!(out[0].get_payload(), Payload::SendOk { offset: 1 }));
    assert_eq!(out[0].get_in_reply_to(), Some(2));
}

#[test]
fn ids_count_up_by_one_per_message() {
    let mut node = new_node();
    init(&mut node, "n1", &["n1", "n2", "n3"]);
    node.step(msg("c1", "n1", Some(2), None, Payload::Poll { offsets: vec![] }));
    node.step(msg("c1", "n1", Some(3), None, Payload::ListCommittedOffsets { keys: vec![] }));
    node.step(msg("c1", "n1", Some(4), None, Payload::CommitOffsets { offsets: vec![] }));
    assert_eq!(node.next_msg_id(), 6);
    let mut ids: Vec<usize> = node.deliver(true).iter().map(|m| m.get_message_id().unwrap()).collect();
    ids.sort();
    assert_eq!(ids, vec![1, 2, 3, 4, 5]);
}
