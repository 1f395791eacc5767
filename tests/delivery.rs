use gossip_node::message::{Body, Message, Payload};
use gossip_node::message_queue::MessageQueue;
use gossip_node::node_state::NodeState;

fn echo(id: usize, dst: &str) -> Message {
    Message::new(
        "n1".to_string(),
        dst.to_string(),
        Body::new(Some(id), None, Payload::Echo { echo: format!("m{}", id) }),
    )
}

fn gossip(id: usize, dst: &str) -> Message {
    Message::new(
        "n1".to_string(),
        dst.to_string(),
        Body::new(Some(id), None, Payload::Gossip { received_state: NodeState::new() }),
    )
}

fn ids(out: &[std::rc::Rc<Message>]) -> Vec<Option<usize>> {
    out.iter().map(|m| m.get_message_id()).collect()
}

#[test]
fn best_effort_sends_go_out_once_in_order() {
    let mut q = MessageQueue::new();
    q.add(echo(1, "c1"));
    q.add(echo(2, "c2"));
    let out = q.cycle(false);
    assert_eq!(ids(&out), vec![Some(1), Some(2)]);
    assert_eq!(q.pending_len(), 0);
    assert!(q.cycle(false).is_empty());
}

#[test]
fn until_acked_is_resent_every_cycle() {
    let mut q = MessageQueue::new();
    q.add_and_check(echo(7, "n2"));
    for _ in 0..5 {
        let out = q.cycle(false);
        assert_eq!(ids(&out), vec![Some(7)]);
        assert_eq!(q.pending_len(), 1);
    }
}

#[test]
fn acked_message_is_dropped_on_next_cycle() {
    let mut q = MessageQueue::new();
    q.add_and_check(echo(7, "n2"));
    q.add_and_check(echo(8, "n3"));
    assert_eq!(ids(&q.cycle(false)), vec![Some(7), Some(8)]);
    q.recieved_response(7);
    assert_eq!(ids(&q.cycle(false)), vec![Some(8)]);
    assert_eq!(ids(&q.cycle(false)), vec![Some(8)]);
    assert_eq!(q.pending_len(), 1);
}

#[test]
fn three_gossips_to_one_destination_send_the_last() {
    let mut q = MessageQueue::new();
    q.add(gossip(1, "n2"));
    q.add(gossip(2, "n2"));
    q.add(gossip(3, "n2"));
    assert_eq!(q.gossip_len(), 1);
    assert!(q.cycle(false).is_empty());
    q.flush();
    let out = q.cycle(false);
    assert_eq!(ids(&out), vec![Some(3)]);
    assert_eq!(q.gossip_len(), 0);
    assert!(q.cycle(true).is_empty());
}

#[test]
fn gossip_waits_for_the_window_and_goes_once_per_destination() {
    let mut q = MessageQueue::new();
    q.add(gossip(1, "n2"));
    q.add(gossip(2, "n3"));
    q.add(echo(3, "c1"));
    let first = q.cycle(false);
    assert_eq!(ids(&first), vec![Some(3)]);
    let mut second = ids(&q.cycle(true));
    second.sort();
    assert_eq!(second, vec![Some(1), Some(2)]);
}
