#![allow(non_snake_case)]

use std::collections::HashMap;

use graphs::weighted_edge::WeightedEdge;
use graphs::weighted_graph::Node;
use graphs::weighted_graph::WeightedGraph;

#[test]
fn test_format() {
    let edge = WeightedEdge::new(1, 2, 1);
    assert_eq!(
        edge.render(),
        format!(
            "{:?} -- {:2} --> {:?}",
            edge.get_source(),
            edge.get_weight(),
            edge.get_sink()
        )
    );
}

#[test]
fn test_add_edge() {
    let edge1 = WeightedEdge::new(1, 2, 1);
    let edge2 = WeightedEdge::new(1, 3, 1);
    let edge3 = WeightedEdge::new(2, 4, 1);
    let edge4 = WeightedEdge::new(3, 4, 1);

    let mut g = WeightedGraph::new();
    g.add_edge(edge1);
    g.add_edge(edge2);
    g.add_edge(edge3);
    g.add_edge(edge4);

    assert_eq!(g.get_adjacent_list().capacity(), 3);
    assert_eq!(g.get_adjacent_list().get_key_value(&1), Some((&1, &[edge1, edge2].to_vec())));
}

#[test]
fn weighted_graph_bfs() {
    let edge1 = WeightedEdge::new(1, 2, 1);
    let edge2 = WeightedEdge::new(1, 3, 1);
    let edge3 = WeightedEdge::new(2, 4, 1);
    let edge4 = WeightedEdge::new(3, 4, 1);

    let mut g = WeightedGraph::new();
    g.add_edge(edge1);
    g.add_edge(edge2);
    g.add_edge(edge3);
    g.add_edge(edge4);
    assert_eq!(g.bfs(1), [1, 2, 3, 4]);
    assert_eq!(g.bfs(5), []);
}

#[test]
fn weighted_graph_dfs() {
    let edge1 = WeightedEdge::new(1, 2, 1);
    let edge2 = WeightedEdge::new(1, 3, 1);
    let edge3 = WeightedEdge::new(2, 4, 1);
    let edge4 = WeightedEdge::new(3, 4, 1);

    let mut g = WeightedGraph::new();
    g.add_edge(edge1);
    g.add_edge(edge2);
    g.add_edge(edge3);
    g.add_edge(edge4);
    assert_eq!(g.dfs(1), [1, 2, 4, 3]);
    assert_eq!(g.dfs(6), []);
}

#[test]
fn reverse_dijkstra() {
    let edge1 = WeightedEdge::new(1, 2, 1);
    let edge2 = WeightedEdge::new(1, 3, 1);
    let edge3 = WeightedEdge::new(2, 4, 1);
    let edge4 = WeightedEdge::new(3, 4, 1);

    let mut g = WeightedGraph::new();
    g.add_edge(edge1);
    g.add_edge(edge2);
    g.add_edge(edge3);
    g.add_edge(edge4);
    g.reverse_dijkstra(1);
    let mut rhs = HashMap::<u32, u32>::new();
    rhs.insert(1, 0);
    rhs.insert(2, 1);
    rhs.insert(3, 1);
    rhs.insert(4, 2);
    assert_eq!(g.reverse_dijkstra(1), rhs);
    rhs.clear();
    assert_eq!(g.reverse_dijkstra(4), rhs);
    assert_eq!(g.reverse_dijkstra(6), rhs);
    rhs.insert(3, 0);
    rhs.insert(4, 1);
    assert_eq!(g.reverse_dijkstra(3), rhs);
}

#[test]
fn reverse_dijkstra_start_maps_to_zero_and_is_idempotent() {
    let mut g = WeightedGraph::new();
    g.add_edge(WeightedEdge::new(1, 2, 5));
    g.add_edge(WeightedEdge::new(2, 3, 7));

    let first = g.reverse_dijkstra(1);
    let second = g.reverse_dijkstra(1);
    assert_eq!(first, second);
    assert_eq!(first.get(&1), Some(&0));
    assert_eq!(first.get(&2), Some(&5));
    assert_eq!(first.get(&3), Some(&12));
}

#[test]
fn adding_edges_never_removes_reachable_entries() {
    let mut g = WeightedGraph::new();
    g.add_edge(WeightedEdge::new(1, 2, 1));
    let before = g.reverse_dijkstra(1);
    g.add_edge(WeightedEdge::new(2, 3, 1));
    let after = g.reverse_dijkstra(1);
    for key in before.keys() {
        assert!(after.contains_key(key));
    }
    assert_eq!(after.get(&3), Some(&2));
}

#[test]
fn node_new_builds() {
    let _n = Node::new(4, 10);
}

#[test]
fn weighted_edge_accessors_return_what_was_stored() {
    let e = WeightedEdge::new(3, 8, 11);
    assert_eq!(e.get_source(), 3);
    assert_eq!(e.get_sink(), 8);
    assert_eq!(e.get_weight(), 11);
}

#[test]
fn longer_walk_discovered_late_still_wins() {
    let mut g = WeightedGraph::new();
    g.add_edge(WeightedEdge::new(1, 2, 10));
    g.add_edge(WeightedEdge::new(1, 3, 1));
    g.add_edge(WeightedEdge::new(3, 2, 100));

    let m = g.reverse_dijkstra(1);
    assert_eq!(m.get(&1), Some(&0));
    assert_eq!(m.get(&3), Some(&1));
    assert_eq!(m.get(&2), Some(&101));
}

#[test]
fn stored_weighted_edges_keep_their_source() {
    let mut g = WeightedGraph::new();
    g.add_edge(WeightedEdge::new(7, 8, 9));
    let stored = &g.get_adjacent_list().get(&7).expect("key must exist")[0];
    assert_eq!(stored.get_source(), 7);
    assert_eq!(stored.get_sink(), 8);
    assert_eq!(stored.get_weight(), 9);
}
