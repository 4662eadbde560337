use emerge::depgraph::{DepGraph, GraphData};
use emerge::error::Error;

fn s(text: &str) -> String {
    String::from(text)
}

fn graph_of(names: &[&str], edges: &[(&str, &str)]) -> GraphData {
    let mut g = GraphData::new();
    for name in names {
        g.add_node(name).unwrap();
    }
    for (a, b) in edges {
        g.add_edge(a, b).unwrap();
    }
    g
}

fn position(order: &[String], name: &str) -> usize {
    order.iter().position(|n| n == name).unwrap()
}

#[test]
fn new_graph_is_empty() {
    let g = GraphData::new();
    assert_eq!(g.node_count(), 0);
    assert_eq!(g.node_index("a"), None);
    assert!(!g.is_cyclic_directed());
    assert_eq!(g.toposort(), Vec::<String>::new());
}

#[test]
fn nodes_get_identifiers_in_the_order_of_their_coming() {
    let g = graph_of(&["a", "b", "c"], &[]);
    assert_eq!(g.node_count(), 3);
    assert_eq!(g.node_index("a"), Some(0));
    assert_eq!(g.node_index("b"), Some(1));
    assert_eq!(g.node_index("c"), Some(2));
}

#[test]
fn adding_a_node_twice_changes_nothing() {
    let mut g = graph_of(&["a", "b"], &[("a", "b")]);
    assert_eq!(g.add_node("a"), Ok(()));
    assert_eq!(g.node_count(), 2);
    assert_eq!(g.node_index("a"), Some(0));
    assert_eq!(g.node_index("b"), Some(1));
    assert_eq!(g.contains_edge("a", "b"), Ok(true));
    assert_eq!(g.add_node("c"), Ok(()));
    assert_eq!(g.node_index("c"), Some(2));
    assert_eq!(g.add_node("c"), Ok(()));
    assert_eq!(g.node_count(), 3);
    assert_eq!(g.node_index("c"), Some(2));
}

#[test]
fn edge_to_an_unknown_node_fails_and_changes_nothing() {
    let mut g = graph_of(&["a", "b"], &[("a", "b")]);
    assert_eq!(g.add_edge("a", "x"), Err(Error::NodeNotFound(s("x"))));
    assert_eq!(g.add_edge("x", "a"), Err(Error::NodeNotFound(s("x"))));
    assert_eq!(g.add_edge("x", "y"), Err(Error::NodeNotFound(s("x"))));
    assert_eq!(g.node_count(), 2);
    assert_eq!(g.node_index("x"), None);
    assert_eq!(g.node_index("y"), None);
    assert_eq!(g.contains_edge("a", "b"), Ok(true));
    assert_eq!(g.contains_edge("b", "a"), Ok(false));
    assert_eq!(g.is_outgoing_neighbors_exists("b"), Ok(false));
    assert_eq!(g.toposort(), vec![s("a"), s("b")]);
}

#[test]
fn adding_an_edge_twice_changes_nothing() {
    let mut g = graph_of(&["a", "b"], &[("a", "b")]);
    assert_eq!(g.add_edge("a", "b"), Ok(()));
    assert_eq!(g.contains_edge("a", "b"), Ok(true));
    assert_eq!(g.contains_edge("b", "a"), Ok(false));
    assert!(!g.is_cyclic_directed());
    assert_eq!(g.toposort(), vec![s("a"), s("b")]);
}

#[test]
fn edges_are_directed() {
    let g = graph_of(&["a", "b"], &[("b", "a")]);
    assert_eq!(g.contains_edge("b", "a"), Ok(true));
    assert_eq!(g.contains_edge("a", "b"), Ok(false));
    assert_eq!(g.contains_edge("a", "x"), Err(Error::NodeNotFound(s("x"))));
    assert_eq!(g.contains_edge("x", "a"), Err(Error::NodeNotFound(s("x"))));
}

#[test]
fn outgoing_edges_are_found() {
    let g = graph_of(&["a", "b", "c"], &[("a", "b"), ("c", "c")]);
    assert_eq!(g.is_outgoing_neighbors_exists("a"), Ok(true));
    assert_eq!(g.is_outgoing_neighbors_exists("b"), Ok(false));
    assert_eq!(g.is_outgoing_neighbors_exists("c"), Ok(true));
    assert_eq!(
        g.is_outgoing_neighbors_exists("d"),
        Err(Error::NodeNotFound(s("d")))
    );
}

#[test]
fn cycles_are_detected() {
    assert!(!graph_of(&["a", "b", "c"], &[("a", "b"), ("b", "c"), ("a", "c")]).is_cyclic_directed());
    assert!(graph_of(&["a", "b"], &[("a", "b"), ("b", "a")]).is_cyclic_directed());
    assert!(graph_of(&["a", "b", "c"], &[("a", "b"), ("b", "c"), ("c", "a")]).is_cyclic_directed());
    assert!(graph_of(&["a"], &[("a", "a")]).is_cyclic_directed());
}

#[test]
fn toposort_puts_every_source_before_its_target() {
    let names = ["f", "e", "d", "c", "b", "a", "lone"];
    let edges = [("a", "b"), ("a", "c"), ("b", "d"), ("c", "d"), ("d", "e"), ("f", "e"), ("a", "e")];
    let g = graph_of(&names, &edges);
    let order = g.toposort();
    assert_eq!(order.len(), names.len());
    for name in names {
        assert_eq!(order.iter().filter(|n| *n == name).count(), 1);
    }
    for (from, to) in edges {
        assert!(position(&order, from) < position(&order, to), "{} -> {}", from, to);
    }
}

#[test]
fn toposort_of_a_chain_is_the_chain() {
    let g = graph_of(&["c", "a", "b"], &[("a", "b"), ("b", "c")]);
    assert_eq!(g.toposort(), vec![s("a"), s("b"), s("c")]);
}
