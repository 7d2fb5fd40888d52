#![allow(non_snake_case)]

use graphs::edge::Edge;
use graphs::graph::Graph;

#[test]
fn add_edge() {
    let edge1 = Edge::new(1, 2);
    let edge2 = Edge::new(1, 3);
    let edge3 = Edge::new(2, 4);
    let edge4 = Edge::new(3, 4);

    let mut g = Graph::new();
    g.add_edge(edge1);
    g.add_edge(edge2);
    g.add_edge(edge3);
    g.add_edge(edge4);
    assert_eq!(g.get_adjacent_list().capacity(), 3);
    assert_eq!(g.get_adjacent_list().get_key_value(&1), Some((&1, &[2, 3].to_vec())));
}

#[test]
fn Graph_bfs() {
    let edge1 = Edge::new(1, 2);
    let edge2 = Edge::new(1, 3);
    let edge3 = Edge::new(2, 4);
    let edge4 = Edge::new(3, 4);

    let mut g = Graph::new();
    g.add_edge(edge1);
    g.add_edge(edge2);
    g.add_edge(edge3);
    g.add_edge(edge4);
    assert_eq!(g.bfs(1), [1, 2, 3, 4]);
    assert_eq!(g.bfs(5), []);
}

#[test]
fn Graph_dfs() {
    let edge1 = Edge::new(1, 2);
    let edge2 = Edge::new(1, 3);
    let edge3 = Edge::new(2, 4);
    let edge4 = Edge::new(3, 4);

    let mut g = Graph::new();
    g.add_edge(edge1);
    g.add_edge(edge2);
    g.add_edge(edge3);
    g.add_edge(edge4);
    assert_eq!(g.dfs(1), [1, 2, 4, 3]);
    assert_eq!(g.dfs(6), []);
}

#[test]
fn edge_accessors_return_what_was_stored() {
    let e = Edge::new(7, 9);
    assert_eq!(e.get_source(), 7);
    assert_eq!(e.get_sink(), 9);
}

#[test]
fn traversals_are_idempotent_and_agree_on_contents() {
    let mut g = Graph::new();
    g.add_edge(Edge::new(1, 2));
    g.add_edge(Edge::new(1, 3));
    g.add_edge(Edge::new(2, 4));
    g.add_edge(Edge::new(3, 4));

    let b1 = g.bfs(1);
    let b2 = g.bfs(1);
    assert_eq!(b1, b2);
    let d1 = g.dfs(1);
    let d2 = g.dfs(1);
    assert_eq!(d1, d2);

    let mut bs = b1.clone();
    bs.sort();
    let mut ds = d1.clone();
    ds.sort();
    assert_eq!(bs, ds);
}

#[test]
fn sink_only_node_is_no_origin() {
    let mut g = Graph::new();
    g.add_edge(Edge::new(1, 2));
    assert_eq!(g.bfs(2), []);
    assert_eq!(g.dfs(2), []);
}
