use gossip_node::fanout::{contains_name, unreached_peers};

fn names(v: &[&str]) -> Vec<String> {
    v.iter().map(|s| s.to_string()).collect()
}

fn sorted(mut v: Vec<String>) -> Vec<String> {
    v.sort();
    v
}

fn line_topology() -> Vec<(String, Vec<String>)> {
    vec![
        ("n1".to_string(), names(&["n2"])),
        ("n2".to_string(), names(&["n1", "n3"])),
        ("n3".to_string(), names(&["n2", "n4"])),
        ("n4".to_string(), names(&["n3"])),
    ]
}

#[test]
fn empty_topology_floods_every_other_peer() {
    let peers = names(&["n1", "n2", "n3"]);
    let r = unreached_peers(&peers, &vec![], &"n1".to_string(), &"c1".to_string());
    assert_eq!(sorted(r), names(&["n2", "n3"]));
}

#[test]
fn peers_reachable_from_the_sender_are_skipped() {
    let peers = names(&["n1", "n2", "n3", "n4"]);
    // n2 heard from n3; n3 reaches n4 and itself without passing through n2.
    let r = unreached_peers(&peers, &line_topology(), &"n2".to_string(), &"n3".to_string());
    assert_eq!(sorted(r), names(&["n1"]));
}

#[test]
fn tree_wavefront_reaches_each_peer_once() {
    let peers = names(&["n1", "n2", "n3", "n4"]);
    let topo = line_topology();
    // A client writes to n1: n1 relays to everyone it cannot rule out.
    let from_client = unreached_peers(&peers, &topo, &"n1".to_string(), &"c1".to_string());
    assert_eq!(sorted(from_client), names(&["n2", "n3", "n4"]));
    // n2 hears from n1: every walk from n1 passes through n2, so n2 relays
    // to n3 and n4, and back to n1, which no walk reaches either.
    let from_n1 = unreached_peers(&peers, &topo, &"n2".to_string(), &"n1".to_string());
    assert_eq!(sorted(from_n1), names(&["n1", "n3", "n4"]));
}

#[test]
fn duplicate_peers_are_listed_once() {
    let peers = names(&["n2", "n2", "n1"]);
    let r = unreached_peers(&peers, &vec![], &"n1".to_string(), &"n1".to_string());
    assert_eq!(r, names(&["n2"]));
}

#[test]
fn name_lookup() {
    let v = names(&["a", "b"]);
    assert!(contains_name(&v, &"b".to_string()));
    assert!(!contains_name(&v, &"c".to_string()));
}
