use skip_list::node::Node;

#[test]
fn node_new_holds_key_and_value() {
    let node: Node<i32, String> = Node::new(4, "four".to_string(), 3);
    assert_eq!(node.get_key(), Some(&4));
    assert_eq!(node.get_value(), Some(&"four".to_string()));
    assert!(!node.is_head());
}

#[test]
fn node_new_has_one_link_per_level() {
    let node: Node<i32, i32> = Node::new(1, 2, 3);
    assert_eq!(node.forward.len(), 4);
    assert!(node.forward.iter().all(|link| link.is_none()));
    let flat: Node<i32, i32> = Node::new(1, 2, 0);
    assert_eq!(flat.forward.len(), 1);
}

#[test]
fn node_set_value_replaces_the_value_only() {
    let mut node: Node<u8, &str> = Node::new(9, "old", 2);
    node.set_value("new");
    assert_eq!(node.get_value(), Some(&"new"));
    assert_eq!(node.get_key(), Some(&9));
    assert_eq!(node.forward.len(), 3);
    assert!(!node.is_head());
}

#[test]
fn node_head_has_no_key_and_no_value() {
    let head: Node<i32, String> = Node::head(6);
    assert!(head.is_head());
    assert_eq!(head.get_key(), None);
    assert_eq!(head.get_value(), None);
    assert_eq!(head.forward.len(), 7);
    assert!(head.forward.iter().all(|link| link.is_none()));
}

#[test]
fn node_head_of_level_zero_has_one_link() {
    let head: Node<i32, i32> = Node::head(0);
    assert!(head.is_head());
    assert_eq!(head.forward.len(), 1);
}
