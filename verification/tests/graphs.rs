use gates::graph::{Graph, GraphError};

#[test]
fn topological_sort_respects_edges() {
    let mut g = Graph::new();
    g.add_node(0);
    g.add_node(1);
    g.add_node(2);
    g.add_edge(2, 1);
    g.add_edge(1, 0);
    let order = g.topological_sort_with_cycle_detection().unwrap();
    let pos = |x: i64| order.iter().position(|&v| v == x).unwrap();
    assert_eq!(order.len(), 3);
    assert!(pos(2) < pos(1));
    assert!(pos(1) < pos(0));
}

#[test]
fn topological_sort_detects_cycle() {
    let mut g = Graph::new();
    g.add_node(10);
    g.add_node(20);
    g.add_edge(10, 20);
    g.add_edge(20, 10);
    let r = g.topological_sort_with_cycle_detection();
    assert!(matches!(r, Err(GraphError::Cycle)));
}

#[test]
fn topological_sort_detects_self_loop() {
    let mut g = Graph::new();
    g.add_node(1);
    g.add_edge(1, 1);
    assert!(g.topological_sort_with_cycle_detection().is_err());
}

#[test]
fn empty_graph_sorts_to_empty_order() {
    let g = Graph::new();
    let order = g.topological_sort_with_cycle_detection().unwrap();
    assert!(order.is_empty());
}

#[test]
fn unconstrained_nodes_keep_declaration_order() {
    let mut g = Graph::new();
    g.add_node(0);
    g.add_node(1);
    g.add_node(2);
    let order = g.topological_sort_with_cycle_detection().unwrap();
    assert_eq!(order, vec![0, 1, 2]);
}
