use distkit::membership::Membership;

#[test]
fn peers_are_all_nodes_but_self() {
    let nodes = vec![String::from("n0"), String::from("n1"), String::from("n2")];
    let m = Membership::new(nodes, String::from("n1"));
    assert_eq!(m.peers(), vec![String::from("n0"), String::from("n2")]);
    assert!(m.is_self(&String::from("n1")));
    assert!(!m.is_self(&String::from("n0")));
}

#[test]
fn nodes_are_kept_in_delivery_order() {
    let nodes = vec![String::from("b"), String::from("a")];
    let m = Membership::new(nodes, String::from("a"));
    assert_eq!(m.node_count(), 2);
    assert_eq!(m.node_at(0), &String::from("b"));
    assert_eq!(m.self_id(), &String::from("a"));
}
