use dungeon_core::graph::Graph;
use dungeon_core::graph::GraphNode;

#[test]
fn node_identity_and_accessors() {
    let n = GraphNode::new(3, -4);
    assert_eq!(n.get_x(), 3);
    assert_eq!(n.get_y(), -4);
    assert_eq!(n, GraphNode::new(3, -4));
    assert_ne!(n, GraphNode::new(4, -4));
}

#[test]
fn distance_squared_is_exact() {
    let a = GraphNode::new(0, 0);
    let b = GraphNode::new(3, 4);
    assert_eq!(a.distance_sq_to(&b), 25);
    assert_eq!(b.distance_sq_to(&a), 25);
    assert_eq!(a.distance_sq_to(&a), 0);
}

#[test]
fn find_node_after_add() {
    let mut g = Graph::new();
    assert!(g.find_node_at(1, 2).is_none());
    g.add_node_at(1, 2);
    let n = g.find_node_at(1, 2).expect("node was added");
    assert_eq!(n.get_x(), 1);
    assert_eq!(n.get_y(), 2);
    assert!(g.find_node_at(2, 1).is_none());
    let t = g.find_node_at_tuple((1, 2)).expect("node was added");
    assert_eq!((t.get_x(), t.get_y()), (1, 2));
    assert_eq!(g.node_count(), 1);
}

#[test]
fn adding_twice_keeps_one_node() {
    let mut g = Graph::new();
    g.add_node_at(5, 5);
    g.add_node_at(5, 5);
    assert_eq!(g.node_count(), 1);
}

#[test]
fn connect_needs_both_endpoints() {
    let mut g = Graph::new();
    g.add_node_at(0, 0);
    assert!(!g.connect_nodes_at(0, 0, 1, 0));
    g.add_node_at(1, 0);
    assert!(g.connect_nodes_at(0, 0, 1, 0));
}

#[test]
fn neighbors_are_mirrored() {
    let mut g = Graph::new();
    g.add_node_at(0, 0);
    g.add_node_at(1, 0);
    g.add_node_at(0, 1);
    assert!(g.connect_nodes_at(0, 0, 1, 0));
    assert!(g.connect_nodes_at(0, 0, 0, 1));
    let center = g.find_node_at(0, 0).unwrap();
    let ns = g.get_neighbors(&center).expect("node exists");
    let mut coords: Vec<(isize, isize)> = ns.iter().map(|n| (n.get_x(), n.get_y())).collect();
    coords.sort();
    assert_eq!(coords, vec![(0, 1), (1, 0)]);
    let right = g.find_node_at(1, 0).unwrap();
    let ns2 = g.get_neighbors(&right).expect("node exists");
    assert_eq!(ns2.len(), 1);
    assert_eq!((ns2[0].get_x(), ns2[0].get_y()), (0, 0));
}

#[test]
fn connecting_twice_keeps_one_entry() {
    let mut g = Graph::new();
    g.add_node_at(0, 0);
    g.add_node_at(1, 1);
    let a = g.find_node_at(0, 0).unwrap();
    let b = g.find_node_at(1, 1).unwrap();
    assert!(g.connect_nodes(&a, &b));
    assert!(g.connect_nodes(&a, &b));
    let ns = g.get_neighbors(&a).unwrap();
    assert_eq!(ns.len(), 1);
}

#[test]
fn neighbors_of_missing_node_are_absent() {
    let g = Graph::new();
    assert!(g.get_neighbors(&GraphNode::new(9, 9)).is_none());
}
