use psykan::entities::asset::Asset;
use psykan::graph::node::Node;

type Content = Asset<fn() -> i32, i32>;

#[test]
fn test_node_creation() {
    let node: Node<Content> = Node::new("root".to_string(), None);
    assert_eq!(node.key(), "root");
    assert!(node.get_parents().is_empty());
    assert!(node.get_children().is_empty());
}

#[test]
fn test_add_child() {
    let mut parent: Node<Content> = Node::new("parent".to_string(), None);
    let mut child: Node<Content> = Node::new("child".to_string(), None);
    Node::add_child(&mut parent, &mut child);

    assert_eq!(parent.get_children().len(), 1);
    assert_eq!(parent.get_children()[0], "child");
    assert_eq!(child.get_parents()[0], "parent");
}

#[test]
fn test_remove_child() {
    let mut parent: Node<Content> = Node::new("parent".to_string(), None);
    let mut child1: Node<Content> = Node::new("child1".to_string(), None);
    let mut child2: Node<Content> = Node::new("child2".to_string(), None);

    Node::add_child(&mut parent, &mut child1);
    Node::add_child(&mut parent, &mut child2);

    assert_eq!(parent.get_children().len(), 2);

    let removed = Node::remove_child(&mut parent, "child1".to_string());
    assert!(removed.is_some());
    assert_eq!(removed.unwrap(), "child1".to_string());

    assert_eq!(parent.get_children().len(), 1);
    assert_eq!(parent.get_children()[0], "child2".to_string());
}

#[test]
fn remove_child_missing_key_returns_none() {
    let mut parent: Node<Content> = Node::new("parent".to_string(), None);
    let mut child: Node<Content> = Node::new("child".to_string(), None);
    Node::add_child(&mut parent, &mut child);

    let removed = Node::remove_child(&mut parent, "other".to_string());
    assert!(removed.is_none());
    assert_eq!(parent.get_children().len(), 1);
}

#[test]
fn get_children_sorted_regardless_of_insertion_order() {
    let mut parent: Node<Content> = Node::new("parent".to_string(), None);
    let mut c = Node::new("c".to_string(), None);
    let mut a = Node::new("a".to_string(), None);
    let mut b = Node::new("b".to_string(), None);

    Node::add_child(&mut parent, &mut c);
    Node::add_child(&mut parent, &mut a);
    Node::add_child(&mut parent, &mut b);

    assert_eq!(
        parent.get_children(),
        vec!["a".to_string(), "b".to_string(), "c".to_string()]
    );
}

#[test]
fn get_parents_sorted_regardless_of_insertion_order() {
    let mut child: Node<Content> = Node::new("child".to_string(), None);
    child.add_parent("zeta".to_string());
    child.add_parent("alpha".to_string());
    assert_eq!(child.get_parents(), vec!["alpha".to_string(), "zeta".to_string()]);
}

#[test]
fn nodes_equal_iff_keys_equal() {
    let one: Node<Content> = Node::new("same".to_string(), None);
    let mut two: Node<Content> = Node::new("same".to_string(), None);
    let mut other: Node<Content> = Node::new("other".to_string(), None);
    // differing children do not matter, only the key does
    Node::add_child(&mut two, &mut other);
    assert!(one == two);
    assert!(!(one == other));
}
