use gossip_node::link_kv::{is_kv_reply, AllocPhase, KvOp, LinkKVResponse, LinkKv, OffsetAllocation};
use gossip_node::message::{Body, Message};
use gossip_node::message::Payload;

#[test]
fn replies_are_interpreted() {
    assert_eq!(LinkKVResponse::from_read_reply(&Payload::ReadOk { value: 4 }), LinkKVResponse::Value(4));
    assert_eq!(
        LinkKVResponse::from_read_reply(&Payload::Error { code: 20, text: "not found".to_string() }),
        LinkKVResponse::KeyNotFound
    );
    assert_eq!(
        LinkKVResponse::from_read_reply(&Payload::Error { code: 11, text: "x".to_string() }),
        LinkKVResponse::Failed
    );
    assert_eq!(LinkKVResponse::from_read_reply(&Payload::CasOk), LinkKVResponse::Failed);
    assert_eq!(LinkKVResponse::from_cas_reply(&Payload::CasOk), LinkKVResponse::Success);
    assert_eq!(
        LinkKVResponse::from_cas_reply(&Payload::Error { code: 21, text: "x".to_string() }),
        LinkKVResponse::CompareFailed
    );
    assert_eq!(
        LinkKVResponse::from_cas_reply(&Payload::Error { code: 20, text: "x".to_string() }),
        LinkKVResponse::KeyNotFound
    );
    assert_eq!(
        LinkKVResponse::from_cas_reply(&Payload::Error { code: 13, text: "x".to_string() }),
        LinkKVResponse::Failed
    );
}

#[test]
fn requests_go_to_the_service() {
    let mut kv = LinkKv::new();
    assert_eq!(kv.node_name, "default");
    kv.set_node_name("n1".to_string());
    let m = kv.compare_and_set("k".to_string(), 3, 4, 9);
    assert_eq!(m.get_src(), "n1");
    assert_eq!(m.get_dst(), "lin-kv");
    assert_eq!(m.get_message_id(), Some(9));
    assert!(matches!(m.get_payload(), Payload::Cas { key, from: 3, to: 4 } if key == "k"));
    assert!(matches!(kv.get("k".to_string(), 1).get_payload(), Payload::Read { key } if key == "k"));
    assert!(matches!(kv.set("k".to_string(), 0, 2).get_payload(), Payload::Write { key, value: 0 } if key == "k"));
}

#[test]
fn allocation_on_a_missing_key_initializes_it() {
    let mut a = OffsetAllocation::new("k1".to_string());
    assert_eq!(a.next_op(), KvOp::Read);
    assert_eq!(a.on_reply(LinkKVResponse::KeyNotFound), None);
    assert_eq!(a.next_op(), KvOp::Write { value: 0 });
    assert_eq!(a.on_reply(LinkKVResponse::Success), Some(0));
    assert_eq!(a.phase, AllocPhase::Finished);
}

#[test]
fn allocation_retries_after_a_lost_race() {
    let mut a = OffsetAllocation::new("k1".to_string());
    assert_eq!(a.on_reply(LinkKVResponse::Value(4)), None);
    assert_eq!(a.next_op(), KvOp::Cas { from: 4, to: 5 });
    assert_eq!(a.on_reply(LinkKVResponse::CompareFailed), None);
    assert_eq!(a.next_op(), KvOp::Read);
    assert_eq!(a.on_reply(LinkKVResponse::Failed), None);
    assert_eq!(a.next_op(), KvOp::Read);
    assert_eq!(a.on_reply(LinkKVResponse::Value(6)), None);
    assert_eq!(a.on_reply(LinkKVResponse::Success), Some(7));
}

#[test]
fn allocation_at_the_largest_value_reads_again() {
    let mut a = OffsetAllocation::new("k1".to_string());
    assert_eq!(a.on_reply(LinkKVResponse::Value(usize::MAX)), None);
    assert_eq!(a.next_op(), KvOp::Read);
}

fn apply(store: &mut Option<usize>, op: KvOp) -> LinkKVResponse {
    match op {
        KvOp::Read => match store {
            Some(v) => LinkKVResponse::Value(*v),
            None => LinkKVResponse::KeyNotFound,
        },
        KvOp::Write { value } => {
            *store = Some(value);
            LinkKVResponse::Success
        }
        KvOp::Cas { from, to } => match store {
            Some(v) if *v == from => {
                *store = Some(to);
                LinkKVResponse::Success
            }
            Some(_) => LinkKVResponse::CompareFailed,
            None => LinkKVResponse::KeyNotFound,
        },
    }
}

#[test]
fn concurrent_allocations_get_distinct_offsets() {
    let mut store = Some(0usize);
    let mut allocs: Vec<OffsetAllocation> = (0..5).map(|_| OffsetAllocation::new("k".to_string())).collect();
    let mut got = Vec::new();
    let mut turn = 0usize;
    while got.len() < 5 {
        let i = (turn * 3 + turn / 2) % 5;
        turn += 1;
        if allocs[i].phase == AllocPhase::Finished {
            continue;
        }
        let op = allocs[i].next_op();
        let reply = apply(&mut store, op);
        if let Some(o) = allocs[i].on_reply(reply) {
            got.push(o);
        }
    }
    assert_eq!(got, vec![1, 2, 3, 4, 5]);
    assert_eq!(store, Some(5));
}

#[test]
fn service_replies_are_told_apart() {
    let reply = Message::new("lin-kv".to_string(), "n1".to_string(), Body::new(None, Some(1), Payload::CasOk));
    let other = Message::new("c1".to_string(), "n1".to_string(), Body::new(Some(1), None, Payload::InitOk));
    assert!(is_kv_reply(&reply));
    assert!(!is_kv_reply(&other));
}
