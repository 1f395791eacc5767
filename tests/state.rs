use gossip_node::log::LogState;
use gossip_node::message::{TxnEntry, TxnType};
use gossip_node::node_state::{GCounter, IncrementRecord, NodeState};

fn counter_of(records: &[(&str, u64)]) -> GCounter {
    let mut c = GCounter::new();
    for (id, delta) in records {
        c.apply(IncrementRecord::new(id.to_string(), *delta));
    }
    c
}

fn ids_of(c: &GCounter) -> Vec<String> {
    let mut ids: Vec<String> = c.records().iter().map(|r| r.id.clone()).collect();
    ids.sort();
    ids
}

#[test]
fn counter_applies_each_record_once() {
    let mut c = counter_of(&[("n1_0_3", 3)]);
    c.apply(IncrementRecord::new("n1_0_3".to_string(), 3));
    c.apply(IncrementRecord::new("n1_1_4".to_string(), 4));
    assert_eq!(c.total(), 7);
    assert_eq!(ids_of(&c), vec!["n1_0_3", "n1_1_4"]);
    assert!(c.contains_id(&"n1_1_4".to_string()));
    assert!(!c.contains_id(&"n2_0_2".to_string()));
}

#[test]
fn counter_merge_with_itself_changes_nothing() {
    let mut c = counter_of(&[("n1_0_3", 3), ("n1_1_4", 4)]);
    let copy = c.duplicate();
    assert!(c.merge(&copy));
    assert_eq!(c.total(), 7);
    assert_eq!(ids_of(&c), vec!["n1_0_3", "n1_1_4"]);
}

#[test]
fn replicas_converge_after_mutual_sync() {
    let mut a = counter_of(&[("n1_0_3", 3), ("n1_1_4", 4)]);
    let mut b = counter_of(&[("n1_0_3", 3), ("n2_0_2", 2)]);
    let a0 = a.duplicate();
    let b0 = b.duplicate();
    assert!(a.merge(&b0));
    assert!(b.merge(&a0));
    assert_eq!(a.total(), 9);
    assert_eq!(b.total(), 9);
    let want = vec!["n1_0_3", "n1_1_4", "n2_0_2"];
    assert_eq!(ids_of(&a), want);
    assert_eq!(ids_of(&b), want);
}

#[test]
fn counter_merge_order_and_duplicates_do_not_matter() {
    let x = counter_of(&[("a", 1), ("b", 2)]);
    let y = counter_of(&[("b", 2), ("c", 5)]);
    let z = counter_of(&[("d", 7)]);
    let mut left = x.duplicate();
    left.merge(&y);
    left.merge(&z);
    left.merge(&y);
    let mut right = z.duplicate();
    right.merge(&y);
    right.merge(&x);
    assert_eq!(left.total(), 15);
    assert_eq!(right.total(), 15);
    assert_eq!(ids_of(&left), ids_of(&right));
}

#[test]
fn counter_merge_reports_overflow() {
    let mut a = counter_of(&[("a", u64::MAX - 1)]);
    let b = counter_of(&[("b", 2)]);
    assert!(!a.merge(&b));
    assert_eq!(a.total(), u64::MAX - 1);
    assert_eq!(ids_of(&a), vec!["a"]);
}

#[test]
fn transaction_reads_the_store_before_its_writes() {
    let mut s = NodeState::new();
    let first = s.process_transaction(vec![TxnEntry(TxnType::W, 1, Some(10)), TxnEntry(TxnType::R, 1, None)]);
    assert_eq!(first, vec![TxnEntry(TxnType::W, 1, Some(10)), TxnEntry(TxnType::R, 1, None)]);
    let second = s.process_transaction(vec![
        TxnEntry(TxnType::R, 1, None),
        TxnEntry(TxnType::W, 2, None),
        TxnEntry(TxnType::R, 3, None),
    ]);
    assert_eq!(
        second,
        vec![TxnEntry(TxnType::R, 1, Some(10)), TxnEntry(TxnType::W, 2, None), TxnEntry(TxnType::R, 3, None)]
    );
    assert_eq!(s.key_value_store.get(&1), Some(&10));
    assert_eq!(s.key_value_store.get(&2), Some(&0));
}

#[test]
fn sync_replaces_store_and_merges_the_rest() {
    let mut local = NodeState::new();
    local.key_value_store.insert(1, 1);
    local.counter.apply(IncrementRecord::new("n1_0_3".to_string(), 3));
    local.log.add_message(&"k".to_string(), 0, 5);
    let mut remote = NodeState::new();
    remote.key_value_store.insert(2, 2);
    remote.counter.apply(IncrementRecord::new("n2_0_2".to_string(), 2));
    remote.log.add_message(&"k".to_string(), 0, 99);
    remote.log.add_message(&"k".to_string(), 1, 6);
    assert!(local.sync(&remote));
    assert_eq!(local.key_value_store.len(), 1);
    assert_eq!(local.key_value_store.get(&2), Some(&2));
    assert_eq!(local.counter.total(), 5);
    assert_eq!(local.log.messages_from(&"k".to_string(), 0), vec![(0, 5), (1, 6)]);
}

#[test]
fn log_offsets_are_written_once() {
    let mut l = LogState::new();
    let k = "k1".to_string();
    assert!(l.add_message(&k, 0, 5));
    assert!(!l.add_message(&k, 0, 7));
    assert_eq!(l.messages_from(&k, 0), vec![(0, 5)]);
}

#[test]
fn log_merge_never_replaces_a_write() {
    let mut a = LogState::new();
    let k = "k".to_string();
    a.add_message(&k, 0, 1);
    a.add_message(&k, 2, 3);
    let mut b = LogState::new();
    b.add_message(&k, 0, 100);
    b.add_message(&k, 1, 2);
    b.add_message(&"other".to_string(), 0, 9);
    a.merge(&b);
    assert_eq!(a.messages_from(&k, 0), vec![(0, 1), (1, 2), (2, 3)]);
    assert_eq!(a.messages_from(&"other".to_string(), 0), vec![(0, 9)]);
}

#[test]
fn committed_offsets_only_grow() {
    let mut a = LogState::new();
    let k = "k".to_string();
    let c1 = "c1".to_string();
    a.commit(&k, &c1, 5);
    a.commit(&k, &c1, 3);
    assert_eq!(a.get_offsets(&c1, &vec![k.clone()]), vec![(k.clone(), 5)]);
    let mut b = LogState::new();
    b.commit(&k, &c1, 8);
    b.commit(&k, &"c2".to_string(), 1);
    a.merge(&b);
    assert_eq!(a.get_offsets(&c1, &vec![k.clone()]), vec![(k.clone(), 8)]);
    assert_eq!(a.get_offsets(&"c2".to_string(), &vec![k.clone()]), vec![(k.clone(), 1)]);
    let mut c = LogState::new();
    c.commit(&k, &c1, 2);
    a.merge(&c);
    assert_eq!(a.get_offsets(&c1, &vec![k.clone()]), vec![(k.clone(), 8)]);
}

#[test]
fn poll_and_list_committed_offsets() {
    let mut l = LogState::new();
    let k1 = "k1".to_string();
    let k2 = "k2".to_string();
    l.add_message(&k1, 0, 10);
    l.add_message(&k1, 1, 11);
    l.add_message(&k1, 2, 12);
    l.add_message(&k2, 0, 20);
    let polled = l.poll(&vec![(k1.clone(), 1), (k2.clone(), 0), ("k3".to_string(), 0)]);
    assert_eq!(polled.len(), 3);
    assert_eq!(polled[0].0, "k1");
    assert_eq!(polled[0].1, vec![(1, 11), (2, 12)]);
    assert_eq!(polled[1].1, vec![(0, 20)]);
    assert!(polled[2].1.is_empty());
    let c = "c".to_string();
    l.commit_offsets(&c, &vec![(k1.clone(), 1), (k2.clone(), 0)]);
    assert_eq!(
        l.get_offsets(&c, &vec![k2.clone(), "k3".to_string(), k1.clone()]),
        vec![(k2.clone(), 0), (k1.clone(), 1)]
    );
}

#[test]
fn poll_lists_offsets_in_ascending_order() {
    let mut l = LogState::new();
    let k = "k".to_string();
    l.add_message(&k, 5, 50);
    l.add_message(&k, 1, 10);
    let mut remote = LogState::new();
    remote.add_message(&k, 3, 30);
    remote.add_message(&k, 0, 0);
    l.merge(&remote);
    assert_eq!(l.messages_from(&k, 0), vec![(0, 0), (1, 10), (3, 30), (5, 50)]);
    assert_eq!(l.poll(&vec![(k.clone(), 2)])[0].1, vec![(3, 30), (5, 50)]);
}
