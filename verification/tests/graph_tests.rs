use pixmaze::graph::{Edge, Graph, GraphError, Node};

fn sample_graph() -> (Graph, Node, Node, Node, Node) {
    let mut graph = Graph::new();
    let a = graph.add_node(0, 0, 0);
    let b = graph.add_node(1, 0, 1);
    let c = graph.add_node(2, 0, 2);
    let d = graph.add_node(3, 0, 3);
    graph.add_edge(&a, &b, 20);
    graph.add_edge(&a, &c, 2);
    graph.add_edge(&b, &c, 5);
    graph.add_edge(&c, &a, 5);
    graph.add_edge(&c, &d, 5);
    graph.add_edge(&d, &d, 5);
    (graph, a, b, c, d)
}

fn places(nodes: &[Node]) -> Vec<(u32, u32)> {
    nodes.iter().map(|node| (node.x, node.y)).collect()
}

#[test]
fn graph_test() {
    let mut graph = Graph::new();
    let a = graph.add_node(0, 0, 0);
    let b = graph.add_node(1, 0, 1);
    let c = graph.add_node(2, 0, 2);
    let d = graph.add_node(3, 0, 3);
    assert!(graph.check_if_node_exist(&a));
    assert_eq!(graph.add_edge_by_index(0, 1, 5), Ok(()));
    graph.add_edge(&a, &b, 20);
    graph.add_edge(&a, &c, 2);
    graph.add_edge(&b, &c, 5);
    graph.add_edge(&c, &a, 5);
    graph.add_edge(&c, &d, 5);
    graph.add_edge(&d, &d, 5);
    let bft = graph.bft(&c).unwrap();
    assert_eq!(places(&bft), vec![(2, 0), (0, 0), (3, 0), (1, 0)]);
    let dft = graph.dft(&c).unwrap();
    assert_eq!(places(&dft), vec![(2, 0), (3, 0), (0, 0), (1, 0)]);
}

#[test]
fn node_constructors() {
    let origin = Node::new();
    assert_eq!((origin.x, origin.y, origin.vec_coord), (0, 0, 0));
    let node = Node::from(3, 4, 23);
    assert_eq!((node.x, node.y, node.vec_coord), (3, 4, 23));
}

#[test]
fn nodes_are_equal_by_place() {
    assert!(Node::from(1, 2, 7) == Node::from(1, 2, 9));
    assert!(Node::from(1, 2, 7) != Node::from(2, 1, 7));
}

#[test]
fn edge_constructor() {
    let edge = Edge::from(1, 2, 9);
    assert_eq!(edge, Edge { weight: 9, from: 1, to: 2 });
}

#[test]
fn new_graph_is_empty() {
    let graph = Graph::new();
    assert!(graph.nodes.is_empty());
    assert!(graph.edges.is_empty());
}

#[test]
fn add_node_registers_in_order() {
    let mut graph = Graph::new();
    let first = graph.add_node(5, 6, 11);
    let second = graph.add_node(7, 8, 15);
    assert_eq!((first.x, first.y, first.vec_coord), (5, 6, 11));
    assert_eq!(places(&graph.nodes), vec![(5, 6), (7, 8)]);
    assert_eq!(graph.nodes[1].vec_coord, second.vec_coord);
    assert_eq!(graph.edges.len(), 2);
}

#[test]
fn find_node_xy_gives_the_first_at_the_place() {
    let mut graph = Graph::new();
    graph.add_node(1, 1, 10);
    graph.add_node(2, 2, 20);
    graph.add_node(1, 1, 30);
    let found = graph.find_node_xy(1, 1).unwrap();
    assert_eq!(found.vec_coord, 10);
    assert_eq!(graph.find_node_xy(2, 2).unwrap().vec_coord, 20);
    assert!(graph.find_node_xy(3, 3).is_none());
}

#[test]
fn index_of_gives_the_handle() {
    let mut graph = Graph::new();
    graph.add_node(1, 1, 10);
    graph.add_node(2, 2, 20);
    graph.add_node(1, 1, 30);
    assert_eq!(graph.index_of(&Node::from(1, 1, 0)), Some(0));
    assert_eq!(graph.index_of(&Node::from(2, 2, 0)), Some(1));
    assert_eq!(graph.index_of(&Node::from(9, 9, 0)), None);
}

#[test]
fn check_if_node_exist_goes_by_place() {
    let mut graph = Graph::new();
    let a = graph.add_node(4, 2, 14);
    assert!(graph.check_if_node_exist(&a));
    assert!(graph.check_if_node_exist(&Node::from(4, 2, 99)));
    assert!(!graph.check_if_node_exist(&Node::from(2, 4, 14)));
}

#[test]
fn add_edge_appends_in_order() {
    let (graph, _, _, _, _) = sample_graph();
    assert_eq!(
        graph.edges[0],
        vec![Edge { weight: 20, from: 0, to: 1 }, Edge { weight: 2, from: 0, to: 2 }]
    );
    assert_eq!(graph.edges[1], vec![Edge { weight: 5, from: 1, to: 2 }]);
    assert_eq!(
        graph.edges[2],
        vec![Edge { weight: 5, from: 2, to: 0 }, Edge { weight: 5, from: 2, to: 3 }]
    );
    assert_eq!(graph.edges[3], vec![Edge { weight: 5, from: 3, to: 3 }]);
}

#[test]
fn add_edge_twice_overwrites_the_weight() {
    let mut graph = Graph::new();
    let a = graph.add_node(0, 0, 0);
    let b = graph.add_node(1, 0, 1);
    let c = graph.add_node(2, 0, 2);
    graph.add_edge(&a, &c, 1);
    graph.add_edge(&a, &b, 3);
    graph.add_edge(&a, &b, 8);
    assert_eq!(
        graph.edges[0],
        vec![Edge { weight: 1, from: 0, to: 2 }, Edge { weight: 8, from: 0, to: 1 }]
    );
    let between: Vec<&Edge> = graph.edges[0].iter().filter(|edge| edge.to == 1).collect();
    assert_eq!(between.len(), 1);
    assert_eq!(between[0].weight, 8);
}

#[test]
fn add_edge_between_unknown_nodes_does_nothing() {
    let mut graph = Graph::new();
    let a = graph.add_node(0, 0, 0);
    let stranger = Node::from(9, 9, 99);
    graph.add_edge(&a, &stranger, 4);
    graph.add_edge(&stranger, &a, 4);
    graph.add_edge(&stranger, &stranger, 4);
    assert_eq!(graph.nodes.len(), 1);
    assert!(graph.edges[0].is_empty());
}

#[test]
fn add_edge_by_index_sets_the_edge() {
    let mut graph = Graph::new();
    graph.add_node(0, 0, 0);
    graph.add_node(1, 0, 1);
    assert_eq!(graph.add_edge_by_index(1, 0, 6), Ok(()));
    assert_eq!(graph.add_edge_by_index(1, 0, 7), Ok(()));
    assert!(graph.edges[0].is_empty());
    assert_eq!(graph.edges[1], vec![Edge { weight: 7, from: 1, to: 0 }]);
}

#[test]
fn add_edge_by_index_rejects_unknown_indices() {
    let mut graph = Graph::new();
    graph.add_node(0, 0, 0);
    graph.add_node(1, 0, 1);
    assert_eq!(graph.add_edge_by_index(2, 0, 1), Err(GraphError::NoSuchNode));
    assert_eq!(graph.add_edge_by_index(0, 2, 1), Err(GraphError::NoSuchNode));
    assert!(graph.edges[0].is_empty());
    assert!(graph.edges[1].is_empty());
}

#[test]
fn add_edge_by_index_goes_to_the_handle_of_a_place() {
    let mut graph = Graph::new();
    graph.add_node(0, 0, 0);
    graph.add_node(1, 0, 1);
    graph.add_node(0, 0, 2);
    assert_eq!(graph.add_edge_by_index(2, 1, 4), Ok(()));
    assert_eq!(graph.edges[0], vec![Edge { weight: 4, from: 0, to: 1 }]);
    assert!(graph.edges[2].is_empty());
}

#[test]
fn bft_of_the_sample_graph() {
    let (graph, _, _, c, _) = sample_graph();
    let visit = graph.bft(&c).unwrap();
    assert_eq!(places(&visit), vec![(2, 0), (0, 0), (3, 0), (1, 0)]);
}

#[test]
fn dft_of_the_sample_graph() {
    let (graph, _, _, c, _) = sample_graph();
    let visit = graph.dft(&c).unwrap();
    assert_eq!(places(&visit), vec![(2, 0), (3, 0), (0, 0), (1, 0)]);
}

#[test]
fn traversal_from_an_unknown_node_is_none() {
    let (graph, _, _, _, _) = sample_graph();
    let stranger = Node::from(7, 7, 77);
    assert!(graph.bft(&stranger).is_none());
    assert!(graph.dft(&stranger).is_none());
}

#[test]
fn traversals_visit_the_same_nodes_once() {
    let (graph, a, b, c, d) = sample_graph();
    for start in [a, b, c, d] {
        let mut bft = places(&graph.bft(&start).unwrap());
        let mut dft = places(&graph.dft(&start).unwrap());
        bft.sort();
        dft.sort();
        assert_eq!(bft, dft);
        let mut unique = bft.clone();
        unique.dedup();
        assert_eq!(unique, bft);
    }
}

#[test]
fn traversal_leaves_out_what_cannot_be_reached() {
    let (graph, _, _, _, d) = sample_graph();
    assert_eq!(places(&graph.bft(&d).unwrap()), vec![(3, 0)]);
    assert_eq!(places(&graph.dft(&d).unwrap()), vec![(3, 0)]);
}

#[test]
fn bft_breaks_ties_by_edge_order() {
    let mut graph = Graph::new();
    let root = graph.add_node(0, 0, 0);
    let left = graph.add_node(1, 0, 1);
    let right = graph.add_node(2, 0, 2);
    let deep = graph.add_node(3, 0, 3);
    graph.add_edge(&root, &right, 1);
    graph.add_edge(&root, &left, 1);
    graph.add_edge(&left, &deep, 1);
    graph.add_edge(&right, &deep, 1);
    assert_eq!(places(&graph.bft(&root).unwrap()), vec![(0, 0), (2, 0), (1, 0), (3, 0)]);
    assert_eq!(places(&graph.dft(&root).unwrap()), vec![(0, 0), (1, 0), (3, 0), (2, 0)]);
}
