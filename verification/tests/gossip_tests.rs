use distkit::gossip::Broadcaster;

#[test]
fn broadcast_reports_new_values() {
    let mut b = Broadcaster::new();
    assert!(b.try_add_msg(7));
    assert!(!b.try_add_msg(7));
    assert!(b.try_add_msg(8));
    let mut seen = b.get_messages();
    seen.sort();
    assert_eq!(seen, vec![7, 8]);
}

#[test]
fn gossip_unions_peer_state() {
    let mut b = Broadcaster::new();
    b.try_add_msg(1);
    b.receive_gossip(&vec![2, 3, 3, 1]);
    let mut seen = b.get_messages();
    seen.sort();
    assert_eq!(seen, vec![1, 2, 3]);
}

#[test]
fn read_snapshot_has_no_duplicates() {
    let mut b = Broadcaster::new();
    b.receive_gossip(&vec![5, 5, 5]);
    assert_eq!(b.get_messages(), vec![5]);
}

#[test]
fn neighbors_are_set_once() {
    let mut b = Broadcaster::new();
    let first = vec![String::from("n1"), String::from("n2")];
    let second = vec![String::from("n3")];
    assert!(b.set_neighbors(first.clone()));
    assert!(!b.set_neighbors(second));
    assert_eq!(b.neighbors().clone(), first);
}

#[test]
fn value_reaches_every_node_along_a_path() {
    // A line n0 - n1 - n2: a value broadcast at n0 reaches n2 after each
    // hop has delivered one full-state gossip round.
    let mut nodes = vec![Broadcaster::new(), Broadcaster::new(), Broadcaster::new()];
    nodes[0].try_add_msg(42);
    let payload = nodes[0].get_messages();
    nodes[1].receive_gossip(&payload);
    let payload = nodes[1].get_messages();
    nodes[2].receive_gossip(&payload);
    for node in &nodes {
        assert!(node.get_messages().contains(&42));
    }
}
