use psykan::entities::asset::Asset;
use psykan::errors::GraphError;
use psykan::graph::graph::Graph;
use psykan::graph::node::Node;

type Content = Asset<fn() -> i32, i32>;

fn create_simple_graph() -> Graph<Content> {
    let mut graph: Graph<Content> = Graph::new();
    let mut root: Node<Content> = Node::new("root".to_string(), None);
    let mut child1: Node<Content> = Node::new("child1".to_string(), None);
    let mut child2: Node<Content> = Node::new("child2".to_string(), None);

    Node::add_child(&mut root, &mut child1);
    Node::add_child(&mut root, &mut child2);

    assert!(graph.add_root_node(root).is_ok());
    assert!(graph.add_node(child1).is_ok());
    assert!(graph.add_node(child2).is_ok());
    graph
}

fn create_complex_graph() -> Graph<Content> {
    let mut graph: Graph<Content> = Graph::new();
    let mut root1: Node<Content> = Node::new("root1".to_string(), None);
    let mut root2: Node<Content> = Node::new("root2".to_string(), None);
    let mut child1: Node<Content> = Node::new("child1".to_string(), None);
    let mut child2: Node<Content> = Node::new("child2".to_string(), None);
    let mut grandchild: Node<Content> = Node::new("grandchild".to_string(), None);

    Node::add_child(&mut root1, &mut child1);
    Node::add_child(&mut child1, &mut grandchild);
    Node::add_child(&mut root2, &mut child2);

    assert!(graph.add_root_node(root1).is_ok());
    assert!(graph.add_root_node(root2).is_ok());
    assert!(graph.add_node(child1).is_ok());
    assert!(graph.add_node(grandchild).is_ok());
    assert!(graph.add_node(child2).is_ok());
    graph
}

#[test]
fn test_graph_creation() {
    let graph: Graph<Content> = Graph::new();
    assert!(graph.root_keys().is_empty());
}

#[test]
fn test_add_root_node() {
    let mut graph: Graph<Content> = Graph::new();
    let node: Node<Content> = Node::new("root".to_string(), None);
    assert!(graph.add_root_node(node).is_ok());
    assert_eq!(graph.root_keys().len(), 1);
    assert_eq!(graph.root_keys()[0], "root");
}

#[test]
fn test_visitation_order() {
    let mut graph = create_simple_graph();

    let order = graph.visitation_order();
    assert_eq!(order.len(), 3);
    assert_eq!(order[0].key(), "root".to_string());
    assert_eq!(order[1].key(), "child1".to_string());
    assert_eq!(order[2].key(), "child2".to_string());
}

#[test]
fn test_complex_visitation_order() {
    let mut graph = create_complex_graph();

    let order = graph.visitation_order();
    assert_eq!(order.len(), 5);
    assert_eq!(order[0].key(), "root1".to_string());
    assert_eq!(order[1].key(), "root2".to_string());
    assert_eq!(order[2].key(), "child1".to_string());
    assert_eq!(order[3].key(), "child2".to_string());
    assert_eq!(order[4].key(), "grandchild".to_string());
}

#[test]
fn test_nodes_by_key() {
    let mut graph = create_complex_graph();

    let nodes_by_key = graph.nodes_by_key();
    assert_eq!(nodes_by_key.len(), 5);
    assert!(nodes_by_key.contains(&"root1".to_string()));
    assert!(nodes_by_key.contains(&"root2".to_string()));
    assert!(nodes_by_key.contains(&"child1".to_string()));
    assert!(nodes_by_key.contains(&"child2".to_string()));
    assert!(nodes_by_key.contains(&"grandchild".to_string()));

    assert!(graph.get_node("root1").unwrap().get_parents().is_empty());
    assert_eq!(
        graph.get_node("root1").unwrap().get_children(),
        vec!["child1".to_string()]
    );
}

#[test]
fn visitation_levels_follow_distance_from_roots() {
    let mut graph = create_complex_graph();

    let order = graph.visitation_order();
    assert_eq!(order[0].level(), 0);
    assert_eq!(order[1].level(), 0);
    assert_eq!(order[2].level(), 1);
    assert_eq!(order[3].level(), 1);
    assert_eq!(order[4].level(), 2);

    assert_eq!(graph.get_level("root1"), Some(0));
    assert_eq!(graph.get_level("grandchild"), Some(2));
    assert_eq!(graph.get_level("absent"), None);
}

#[test]
fn add_node_duplicate_key_leaves_graph_unchanged() {
    let mut graph: Graph<Content> = Graph::new();
    let root: Node<Content> = Node::new("root".to_string(), None);
    let mut child: Node<Content> = Node::new("child".to_string(), None);
    child.add_parent("root".to_string());
    assert!(graph.add_node(root).is_ok());
    assert!(graph.add_node(child).is_ok());

    let roots_before = graph.root_keys().clone();
    let children_before = graph.get_node("root").unwrap().get_children();

    let duplicate: Node<Content> = Node::new("child".to_string(), None);
    let result = graph.add_node(duplicate);
    assert_eq!(
        result,
        Err(GraphError::DuplicateNodeKey { key: "child".to_string() })
    );

    // root and child counts are untouched by the failed insertion
    assert_eq!(graph.root_keys(), &roots_before);
    assert_eq!(graph.node_count(), 2);
    assert_eq!(graph.get_node("root").unwrap().get_children(), children_before);
}

#[test]
fn add_node_missing_parent_is_rejected_before_linking() {
    let mut graph: Graph<Content> = Graph::new();
    let root: Node<Content> = Node::new("root".to_string(), None);
    assert!(graph.add_node(root).is_ok());

    let mut orphan: Node<Content> = Node::new("orphan".to_string(), None);
    orphan.add_parent("root".to_string());
    orphan.add_parent("absent".to_string());
    let result = graph.add_node(orphan);
    assert_eq!(
        result,
        Err(GraphError::MissingParent { key: "absent".to_string() })
    );

    // nothing was linked: the graph still holds a single childless root
    assert_eq!(graph.node_count(), 1);
    assert!(graph.get_node("root").unwrap().get_children().is_empty());
}

#[test]
fn repeated_reads_return_equal_results() {
    let mut graph = create_complex_graph();

    let first_order = graph.visitation_order();
    let second_order = graph.visitation_order();
    assert_eq!(first_order.len(), second_order.len());
    for i in 0..first_order.len() {
        assert_eq!(first_order[i].key(), second_order[i].key());
        assert_eq!(first_order[i].level(), second_order[i].level());
    }

    let first_keys = graph.nodes_by_key();
    let second_keys = graph.nodes_by_key();
    assert_eq!(first_keys, second_keys);
}

#[test]
fn mutation_invalidates_cached_views() {
    let mut graph: Graph<Content> = Graph::new();
    let root: Node<Content> = Node::new("root".to_string(), None);
    assert!(graph.add_root_node(root).is_ok());
    assert_eq!(graph.visitation_order().len(), 1);
    assert_eq!(graph.nodes_by_key().len(), 1);

    // a later insertion must show up in the next read
    let mut late: Node<Content> = Node::new("late".to_string(), None);
    late.add_parent("root".to_string());
    assert!(graph.add_node(late).is_ok());

    let order = graph.visitation_order();
    assert_eq!(order.len(), 2);
    assert_eq!(order[1].key(), "late");
    assert_eq!(graph.nodes_by_key().len(), 2);
}

#[test]
fn fan_in_child_is_visited_once() {
    let mut graph: Graph<Content> = Graph::new();
    let a: Node<Content> = Node::new("a".to_string(), None);
    let b: Node<Content> = Node::new("b".to_string(), None);
    let mut shared: Node<Content> = Node::new("shared".to_string(), None);
    shared.add_parent("a".to_string());
    shared.add_parent("b".to_string());

    assert!(graph.add_node(a).is_ok());
    assert!(graph.add_node(b).is_ok());
    assert!(graph.add_node(shared).is_ok());

    let order = graph.visitation_order();
    assert_eq!(order.len(), 3);
    assert_eq!(order[2].key(), "shared");
    assert_eq!(order[2].level(), 1);
    assert_eq!(graph.get_node("a").unwrap().get_children(), vec!["shared".to_string()]);
    assert_eq!(graph.get_node("b").unwrap().get_children(), vec!["shared".to_string()]);
}
