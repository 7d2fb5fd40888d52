use std::collections::HashMap;
use std::collections::HashSet;
use std::collections::VecDeque;

use vstd::prelude::*;

use crate::graph::adj_len;
use crate::graph::all_sinks_visited;
use crate::graph::stack_has;
use crate::graph::lemma_stack_weight_nonneg;
use crate::graph::stack_weight;
use crate::reach::adj_seq;
use crate::reach::bfs_from;
use crate::reach::bfs_seq;
use crate::reach::discovery_order;
use crate::reach::fresh_sinks;
use crate::reach::distinct_seq;
use crate::reach::edge_to;
use crate::reach::is_path;
use crate::reach::reachable;
use crate::pqueue::pq_change_priority;
use crate::pqueue::pq_contents;
use crate::pqueue::pq_empty;
use crate::pqueue::pq_get_priority;
use crate::pqueue::pq_len;
use crate::pqueue::pq_new;
use crate::pqueue::pq_pop;
use crate::pqueue::pq_push;
use crate::reach::acyclic_from;
use crate::reach::lemma_node_universe_finite;
use crate::reach::lemma_reachable_step;
use crate::reach::node_universe;
use crate::reach::sink_set;
use crate::reach::valid_traversal;
use crate::weighted_edge::WeightedEdge;
use vstd::set_lib::lemma_len_subset;

verus! {

broadcast use vstd::std_specs::hash::group_hash_axioms;

/// The sinks of a weighted adjacency map, with the weights projected
/// away: the graph the traversals walk.
pub open spec fn wsinks(m: Map<u32, Seq<(u32, u32)>>) -> Map<u32, Seq<u32>> {
    m.map_values(|es: Seq<(u32, u32)>| es.map_values(|p: (u32, u32)| p.0))
}


/// `nodes`, joined by edges whose weights are `ws`, is a walk through
/// the weighted adjacency map `g`.
pub open spec fn is_wpath(g: Map<u32, Seq<(u32, u32)>>, nodes: Seq<u32>, ws: Seq<u32>) -> bool {
    &&& nodes.len() == ws.len() + 1
    &&& forall|i: int|
        0 <= i < ws.len() ==> g.contains_key(#[trigger] nodes[i]) && g[nodes[i]].contains(
            (nodes[i + 1], ws[i]),
        )
}

/// The total weight of a walk.
pub open spec fn wsum(ws: Seq<u32>) -> int
    decreases ws.len(),
{
    if ws.len() == 0 {
        0
    } else {
        wsum(ws.drop_last()) + ws.last()
    }
}

/// Walk weights past `u32::MAX` saturate at `u32::MAX`.
pub open spec fn clamped(x: int) -> u32 {
    if x >= u32::MAX {
        u32::MAX
    } else {
        x as u32
    }
}

/// `p` is the saturating total weight of some walk from `start` to `n`.
pub open spec fn is_path_value(g: Map<u32, Seq<(u32, u32)>>, start: u32, n: u32, p: u32) -> bool {
    exists|nodes: Seq<u32>, ws: Seq<u32>|
        #[trigger] is_wpath(g, nodes, ws) && nodes.first() == start && nodes.last() == n && p
            == clamped(wsum(ws))
}

/// A walk's weight is never negative.
pub proof fn lemma_wsum_nonneg(ws: Seq<u32>)
    ensures
        wsum(ws) >= 0,
    decreases ws.len(),
{
    if ws.len() > 0 {
        lemma_wsum_nonneg(ws.drop_last());
    }
}

/// A weighted walk, with the weights projected away, is a walk of the
/// projected graph.
pub proof fn lemma_wpath_is_path(g: Map<u32, Seq<(u32, u32)>>, nodes: Seq<u32>, ws: Seq<u32>)
    requires
        is_wpath(g, nodes, ws),
    ensures
        is_path(wsinks(g), nodes),
{
    assert forall|i: int| 0 <= i < nodes.len() - 1 implies edge_to(
        wsinks(g),
        #[trigger] nodes[i],
        nodes[i + 1],
    ) by {
        assert(g[nodes[i]].contains((nodes[i + 1], ws[i])));
        let k = choose|k: int| 0 <= k < g[nodes[i]].len() && g[nodes[i]][k] == (nodes[i + 1], ws[i]);
        assert(wsinks(g)[nodes[i]][k] == nodes[i + 1]);
        assert(wsinks(g)[nodes[i]].contains(nodes[i + 1]));
    }
}

/// The endpoint of a weighted walk is reachable in the projected graph.
pub proof fn lemma_path_value_reachable(g: Map<u32, Seq<(u32, u32)>>, start: u32, n: u32, p: u32)
    requires
        is_path_value(g, start, n, p),
    ensures
        reachable(wsinks(g), start, n),
{
    let (nodes, ws) = choose|nodes: Seq<u32>, ws: Seq<u32>|
        #[trigger] is_wpath(g, nodes, ws) && nodes.first() == start && nodes.last() == n && p
            == clamped(wsum(ws));
    lemma_wpath_is_path(g, nodes, ws);
}

/// Saturated addition is monotone in its saturated left operand.
pub proof fn lemma_clamped_add_mono(x: int, d: u32, w: u32)
    requires
        0 <= x,
        clamped(x) <= d,
    ensures
        clamped(x + w) <= clamped(d + w),
{
}

/// Every node a walk from `start` passes through is reachable, so on a
/// cycle-free-from-`start` graph the walk never repeats a node and is
/// no longer than any duplicate-free roster of the reachable nodes.
pub proof fn lemma_walk_nodes_bounded(
    g: Map<u32, Seq<(u32, u32)>>,
    start: u32,
    nodes: Seq<u32>,
    ws: Seq<u32>,
    order: Seq<u32>,
)
    requires
        is_wpath(g, nodes, ws),
        nodes.first() == start,
        acyclic_from(wsinks(g), start),
        distinct_seq(order),
        forall|b: u32| reachable(wsinks(g), start, b) ==> order.contains(b),
    ensures
        nodes.len() <= order.len(),
{
    let gs = wsinks(g);
    lemma_wpath_is_path(g, nodes, ws);
    assert forall|a: int| 0 <= a < nodes.len() implies reachable(gs, start, #[trigger] nodes[a]) by {
        let p = nodes.take(a + 1);
        assert forall|i: int| 0 <= i < p.len() - 1 implies edge_to(gs, #[trigger] p[i], p[i + 1]) by {
            assert(p[i] == nodes[i] && p[i + 1] == nodes[i + 1]);
            assert(edge_to(gs, nodes[i], nodes[i + 1]));
        }
        assert(is_path(gs, p));
        assert(p.first() == start && p.last() == nodes[a]);
    }
    assert forall|a: int, b: int| 0 <= a < b < nodes.len() implies nodes[a] != nodes[b] by {
        if nodes[a] == nodes[b] {
            let p = nodes.subrange(a, b + 1);
            assert forall|i: int| 0 <= i < p.len() - 1 implies edge_to(gs, #[trigger] p[i], p[i + 1])
                by {
                assert(p[i] == nodes[a + i] && p[i + 1] == nodes[a + i + 1]);
                assert(edge_to(gs, nodes[a + i], nodes[a + i + 1]));
            }
            assert(is_path(gs, p));
            assert(p.len() >= 2 && p.first() == p.last());
            assert(reachable(gs, start, p.first()));
        }
    }
    broadcast use vstd::seq_lib::seq_to_set_is_finite;

    assert forall|i: int, j: int|
        0 <= i < order.len() && 0 <= j < order.len() && i != j implies order[i] != order[j] by {
        if i < j {
            assert(order[i] != order[j]);
        } else {
            assert(order[j] != order[i]);
        }
    }
    assert(order.no_duplicates());
    order.unique_seq_to_set();
    assert forall|x: u32| nodes.contains(x) implies order.to_set().contains(x) by {
        let a = choose|a: int| 0 <= a < nodes.len() && nodes[a] == x;
        assert(reachable(gs, start, x));
        assert(order.contains(x));
    }
    crate::reach::lemma_distinct_in_set_len(nodes, order.to_set());
}

/// Following one more edge from the end of a weighted walk yields a
/// weighted walk whose saturated weight is the saturated sum.
pub proof fn lemma_path_value_extend(
    g: Map<u32, Seq<(u32, u32)>>,
    start: u32,
    m: u32,
    pm: u32,
    sink: u32,
    w: u32,
)
    requires
        is_path_value(g, start, m, pm),
        g.contains_key(m),
        g[m].contains((sink, w)),
    ensures
        is_path_value(g, start, sink, clamped(pm + w)),
{
    let (nodes, ws) = choose|nodes: Seq<u32>, ws: Seq<u32>|
        #[trigger] is_wpath(g, nodes, ws) && nodes.first() == start && nodes.last() == m && pm
            == clamped(wsum(ws));
    let nodes2 = nodes.push(sink);
    let ws2 = ws.push(w);
    assert forall|i: int|
        0 <= i < ws2.len() implies g.contains_key(#[trigger] nodes2[i]) && g[nodes2[i]].contains(
        (nodes2[i + 1], ws2[i]),
    ) by {
        if i < ws.len() {
            assert(nodes2[i] == nodes[i]);
            assert(nodes2[i + 1] == nodes[i + 1]);
            assert(ws2[i] == ws[i]);
            assert(g.contains_key(nodes[i]) && g[nodes[i]].contains((nodes[i + 1], ws[i])));
        } else {
            assert(nodes2[i] == nodes.last());
            assert(nodes2[i + 1] == sink);
            assert(ws2[i] == w);
        }
    }
    assert(is_wpath(g, nodes2, ws2));
    assert(ws2.drop_last() =~= ws);
    assert(wsum(ws2) == wsum(ws) + w);
    lemma_wsum_nonneg(ws);
    assert(clamped(wsum(ws2)) == clamped(pm + w));
    assert(nodes2.first() == start && nodes2.last() == sink);
    assert(is_path_value(g, start, sink, clamped(pm + w)));
}


/// Any two result maps the longest-path search can return for the same
/// graph and start hold exactly the same keys: repeated queries of an
/// unmodified graph agree on which nodes they map.
pub proof fn lemma_longest_path_runs_agree(
    g: Map<u32, Seq<(u32, u32)>>,
    start: u32,
    m1: Map<u32, u32>,
    m2: Map<u32, u32>,
)
    requires
        g.contains_key(start) ==> (forall|n: u32|
            #[trigger] m1.contains_key(n) <==> reachable(wsinks(g), start, n)),
        !g.contains_key(start) ==> forall|n: u32| !(#[trigger] m1.contains_key(n)),
        g.contains_key(start) ==> (forall|n: u32|
            #[trigger] m2.contains_key(n) <==> reachable(wsinks(g), start, n)),
        !g.contains_key(start) ==> forall|n: u32| !(#[trigger] m2.contains_key(n)),
    ensures
        forall|n: u32| #[trigger] m1.contains_key(n) <==> m2.contains_key(n),
{
    assert forall|n: u32| #[trigger] m1.contains_key(n) == m2.contains_key(n) by {
        if g.contains_key(start) {
            assert(m1.contains_key(n) <==> reachable(wsinks(g), start, n));
            assert(m2.contains_key(n) <==> reachable(wsinks(g), start, n));
        }
    }
}


/// A node's priority map grows: no key is lost and no value falls.
pub open spec fn values_grew(m0: Map<u32, u32>, m1: Map<u32, u32>) -> bool {
    &&& (forall|k: u32| #[trigger] m0.contains_key(k) <==> m1.contains_key(k))
    &&& (forall|k: u32| #[trigger] m0.contains_key(k) ==> m0[k] <= m1[k])
}

/// The working state of the longest-path search once every reachable
/// node is known: `order` is a duplicate-free roster of the keys of
/// `m`, which are exactly the reachable nodes; `start` maps to zero and
/// every entry is the saturating weight of some walk.
pub open spec fn relax_state(
    g: Map<u32, Seq<(u32, u32)>>,
    start: u32,
    order: Seq<u32>,
    m: Map<u32, u32>,
) -> bool {
    &&& m.dom().finite()
    &&& m.contains_key(start)
    &&& m[start] == 0
    &&& distinct_seq(order)
    &&& (forall|b: u32| order.contains(b) <==> m.contains_key(b))
    &&& (forall|n: u32| #[trigger] m.contains_key(n) ==> is_path_value(g, start, n, m[n]))
    &&& (forall|n: u32| #[trigger] m.contains_key(n) <==> reachable(wsinks(g), start, n))
}

/// Every walk from `start` of at most `bound` edges weighs (saturated)
/// no more than the entry of its endpoint.
pub open spec fn covers_walks(
    g: Map<u32, Seq<(u32, u32)>>,
    start: u32,
    m: Map<u32, u32>,
    bound: int,
) -> bool {
    forall|ns: Seq<u32>, ws: Seq<u32>|
        #![trigger is_wpath(g, ns, ws)]
        is_wpath(g, ns, ws) && ns.first() == start && ws.len() <= bound ==> m.contains_key(
            ns.last(),
        ) && clamped(wsum(ws)) <= m[ns.last()]
}

/// Like `covers_walks`, for walks of exactly `bound` edges whose
/// second-to-last node stands among the first `upto` entries of `order`.
pub open spec fn covers_appended_walks(
    g: Map<u32, Seq<(u32, u32)>>,
    start: u32,
    order: Seq<u32>,
    upto: int,
    bound: int,
    m: Map<u32, u32>,
) -> bool {
    forall|ns: Seq<u32>, ws: Seq<u32>, j: int|
        #![trigger is_wpath(g, ns, ws), order[j]]
        is_wpath(g, ns, ws) && ns.first() == start && ws.len() == bound && 0 <= j < upto
            && order[j] == ns[ns.len() - 2] ==> m.contains_key(ns.last()) && clamped(wsum(ws))
            <= m[ns.last()]
}

/// Growth composes.
proof fn lemma_grew_trans(m0: Map<u32, u32>, m1: Map<u32, u32>, m2: Map<u32, u32>)
    requires
        values_grew(m0, m1),
        values_grew(m1, m2),
    ensures
        values_grew(m0, m2),
{
}

/// Raising one existing entry of a relax state to another walk weight
/// keeps the state and only grows the values.
proof fn lemma_relax_state_insert(
    g: Map<u32, Seq<(u32, u32)>>,
    start: u32,
    order: Seq<u32>,
    m: Map<u32, u32>,
    sink: u32,
    cand: u32,
)
    requires
        relax_state(g, start, order, m),
        m.contains_key(sink),
        m[sink] <= cand,
        sink != start,
        is_path_value(g, start, sink, cand),
    ensures
        relax_state(g, start, order, m.insert(sink, cand)),
        values_grew(m, m.insert(sink, cand)),
{
    let m2 = m.insert(sink, cand);
    assert(m2.dom() =~= m.dom());
    assert forall|n: u32| #[trigger] m2.contains_key(n) implies is_path_value(
        g,
        start,
        n,
        m2[n],
    ) by {
        if n != sink {
            assert(m2[n] == m[n]);
        }
    }
}


/// When no cycle is reachable from `start`, two result maps the
/// longest-path search can return for the same graph and start are
/// equal outright: each entry is pinned to the saturating maximum, so
/// repeated queries of an unmodified graph return identical maps.
pub proof fn lemma_longest_path_runs_equal(
    g: Map<u32, Seq<(u32, u32)>>,
    start: u32,
    m1: Map<u32, u32>,
    m2: Map<u32, u32>,
)
    requires
        g.contains_key(start),
        acyclic_from(wsinks(g), start),
        forall|n: u32| #[trigger] m1.contains_key(n) <==> reachable(wsinks(g), start, n),
        forall|n: u32| #[trigger] m1.contains_key(n) ==> is_path_value(g, start, n, m1[n]),
        forall|n: u32, pv: u32|
            #![trigger is_path_value(g, start, n, pv)]
            m1.contains_key(n) && is_path_value(g, start, n, pv) ==> pv <= m1[n],
        forall|n: u32| #[trigger] m2.contains_key(n) <==> reachable(wsinks(g), start, n),
        forall|n: u32| #[trigger] m2.contains_key(n) ==> is_path_value(g, start, n, m2[n]),
        forall|n: u32, pv: u32|
            #![trigger is_path_value(g, start, n, pv)]
            m2.contains_key(n) && is_path_value(g, start, n, pv) ==> pv <= m2[n],
    ensures
        m1 =~= m2,
{
    assert forall|n: u32| #[trigger] m1.contains_key(n) == m2.contains_key(n) by {
        assert(m1.contains_key(n) <==> reachable(wsinks(g), start, n));
        assert(m2.contains_key(n) <==> reachable(wsinks(g), start, n));
    }
    assert forall|n: u32| #[trigger] m1.contains_key(n) implies m1[n] == m2[n] by {
        assert(is_path_value(g, start, n, m1[n]));
        assert(m2.contains_key(n));
        assert(m1[n] <= m2[n]);
        assert(is_path_value(g, start, n, m2[n]));
        assert(m2[n] <= m1[n]);
    }
}

/// Growing a graph by appending edges (same weights, nothing removed)
/// never deletes an entry of the longest-path result and never lowers
/// one: every walk of the smaller graph is a walk of the larger, so a
/// maximal result over the larger graph dominates entry by entry.
pub proof fn lemma_longest_path_value_monotone(
    g1: Map<u32, Seq<(u32, u32)>>,
    g2: Map<u32, Seq<(u32, u32)>>,
    start: u32,
    m1: Map<u32, u32>,
    m2: Map<u32, u32>,
)
    requires
        forall|a: u32| #[trigger] g1.contains_key(a) ==> g2.contains_key(a) && g1[a].is_prefix_of(
            g2[a],
        ),
        forall|n: u32| #[trigger] m1.contains_key(n) ==> is_path_value(g1, start, n, m1[n]),
        forall|n: u32| #[trigger] m2.contains_key(n) <==> reachable(wsinks(g2), start, n),
        forall|n: u32, pv: u32|
            #![trigger is_path_value(g2, start, n, pv)]
            m2.contains_key(n) && is_path_value(g2, start, n, pv) ==> pv <= m2[n],
    ensures
        forall|k: u32| #[trigger] m1.contains_key(k) ==> m2.contains_key(k) && m1[k] <= m2[k],
{
    assert forall|k: u32| #[trigger] m1.contains_key(k) implies m2.contains_key(k) && m1[k]
        <= m2[k] by {
        assert(is_path_value(g1, start, k, m1[k]));
        let (ns, ws) = choose|ns: Seq<u32>, ws: Seq<u32>|
            #[trigger] is_wpath(g1, ns, ws) && ns.first() == start && ns.last() == k && m1[k]
                == clamped(wsum(ws));
        assert forall|a: int|
            0 <= a < ws.len() implies g2.contains_key(#[trigger] ns[a]) && g2[ns[a]].contains(
            (ns[a + 1], ws[a]),
        ) by {
            assert(g1.contains_key(ns[a]) && g1[ns[a]].contains((ns[a + 1], ws[a])));
            let idx = choose|idx: int|
                0 <= idx < g1[ns[a]].len() && g1[ns[a]][idx] == (ns[a + 1], ws[a]);
            assert(g2[ns[a]][idx] == (ns[a + 1], ws[a]));
            assert(g2[ns[a]].contains((ns[a + 1], ws[a])));
        }
        assert(is_wpath(g2, ns, ws));
        assert(is_path_value(g2, start, k, m1[k]));
        lemma_path_value_reachable(g2, start, k, m1[k]);
        assert(m2.contains_key(k));
    }
}

/// A node paired with the weight of some walk that reaches it; a plain
/// record for callers that want to carry both around.
pub struct Node<T> {
    id: T,
    weight: u32,
}

impl<T: Copy> Node<T> {
    pub closed spec fn spec_id(&self) -> T {
        self.id
    }

    pub closed spec fn spec_weight(&self) -> u32 {
        self.weight
    }

    pub fn new(id: T, weight: u32) -> (n: Node<T>)
        ensures
            n.spec_id() == id,
            n.spec_weight() == weight,
    {
        Node { id, weight }
    }
}

/// An adjacency-list container over weighted edges. A node owns an
/// entry if and only if at least one edge has been added with it as
/// source; sink-only nodes are visitable during traversal but own no
/// entry of their own.
pub struct WeightedGraph {
    adjacency_list: HashMap<u32, Vec<WeightedEdge<u32>>>,
}

impl View for WeightedGraph {
    type V = Map<u32, Seq<(u32, u32)>>;

    /// The abstract graph: each source node maps to the sequence of
    /// (sink, weight) pairs of its edges, in insertion order.
    closed spec fn view(&self) -> Map<u32, Seq<(u32, u32)>> {
        self.adjacency_list@.map_values(
            |v: Vec<WeightedEdge<u32>>|
                v@.map_values(|e: WeightedEdge<u32>| (e.spec_sink(), e.spec_weight())),
        )
    }
}

impl WeightedGraph {
    /// The stored edges themselves: each source node maps to the exact
    /// `WeightedEdge` values added with it as source, verbatim, in call
    /// order.
    pub closed spec fn edges_view(&self) -> Map<u32, Seq<WeightedEdge<u32>>> {
        self.adjacency_list@.map_values(|v: Vec<WeightedEdge<u32>>| v@)
    }

    /// An empty graph: no node owns an adjacency entry.
    pub fn new() -> (g: WeightedGraph)
        ensures
            g@ == Map::<u32, Seq<(u32, u32)>>::empty(),
    {
        let g = WeightedGraph { adjacency_list: HashMap::new() };
        proof {
            assert(g@ =~= Map::<u32, Seq<(u32, u32)>>::empty());
        }
        g
    }

    /// Read-only access to the underlying adjacency mapping.
    pub fn get_adjacent_list(&self) -> (m: &HashMap<u32, Vec<WeightedEdge<u32>>>)
        ensures
            m@.dom() =~= self@.dom(),
            m@.dom() =~= self.edges_view().dom(),
            forall|k: u32| #[trigger] m@.contains_key(k) ==> m@[k]@ == self.edges_view()[k],
            forall|k: u32| #[trigger] m@.contains_key(k) ==> self@[k].len() == m@[k]@.len(),
            forall|k: u32, i: int|
                #![trigger m@[k]@[i]]
                m@.contains_key(k) && 0 <= i < m@[k]@.len() ==> self@[k][i] == (
                m@[k]@[i].spec_sink(), m@[k]@[i].spec_weight()),
    {
        &self.adjacency_list
    }

    /// Appends the whole edge to the sequence keyed by its source,
    /// creating the key if it is absent. Any two node values are
    /// accepted; duplicate edges accumulate.
    pub fn add_edge(&mut self, edge: WeightedEdge<u32>)
        ensures
            final(self).edges_view() == (if old(self)@.contains_key(edge.spec_source()) {
                old(self).edges_view().insert(
                    edge.spec_source(),
                    old(self).edges_view()[edge.spec_source()].push(edge),
                )
            } else {
                old(self).edges_view().insert(edge.spec_source(), seq![edge])
            }),
            final(self)@ == (if old(self)@.contains_key(edge.spec_source()) {
                old(self)@.insert(
                    edge.spec_source(),
                    old(self)@[edge.spec_source()].push((edge.spec_sink(), edge.spec_weight())),
                )
            } else {
                old(self)@.insert(
                    edge.spec_source(),
                    seq![(edge.spec_sink(), edge.spec_weight())],
                )
            }),
    {
        let source = edge.get_source();
        let mut sinks: Vec<WeightedEdge<u32>> = match self.adjacency_list.remove(&source) {
            Some(v) => v,
            None => Vec::new(),
        };
        sinks.push(edge);
        self.adjacency_list.insert(source, sinks);
        proof {
            if old(self)@.contains_key(source) {
                assert(self.edges_view() =~= old(self).edges_view().insert(
                    source,
                    old(self).edges_view()[source].push(edge),
                ));
                assert(self@ =~~= old(self)@.insert(
                    source,
                    old(self)@[source].push((edge.spec_sink(), edge.spec_weight())),
                ));
            } else {
                assert(self.edges_view() =~= old(self).edges_view().insert(source, seq![edge]));
                assert(self@ =~~= old(self)@.insert(
                    source,
                    seq![(edge.spec_sink(), edge.spec_weight())],
                ));
            }
        }
    }

    #[verifier::rlimit(100)]
    pub fn bfs(&self, start: u32) -> (result: Vec<u32>)
        ensures
            valid_traversal(wsinks(self@), start, result@),
            result@ == bfs_seq(wsinks(self@), start),
    {
        let mut result = Vec::<u32>::new();
        let mut queue = VecDeque::<u32>::new();
        let mut set = HashSet::<u32>::new();

        if !self.adjacency_list.contains_key(&start) {
            proof {
                assert(!wsinks(self@).contains_key(start));
                assert(result@ =~= Seq::<u32>::empty());
            }
            return result;
        }

        queue.push_back(start);
        set.insert(start);
        let ghost mut d: Seq<u32> = seq![start];
        let ghost gs = wsinks(self@);
        let ghost u = node_universe(gs);
        proof {
            assert(gs.dom() =~= self.adjacency_list@.dom());
            lemma_node_universe_finite(gs);
            assert(u.contains(start));
            seq![start].unique_seq_to_set();
            assert(d.to_set().subset_of(u));
            lemma_len_subset(d.to_set(), u);
            assert(bfs_from(gs, d, 0) == bfs_seq(gs, start));
        }

        while queue.len() != 0
            invariant
                gs == wsinks(self@),
                gs.contains_key(start),
                gs.dom().finite(),
                u == node_universe(gs),
                u.finite(),
                bfs_from(gs, d, result@.len() as int) == bfs_seq(gs, start),
                d == result@ + queue@,
                d.len() >= 1,
                d[0] == start,
                distinct_seq(d),
                discovery_order(gs, d),
                forall|b: u32| d.contains(b) ==> u.contains(b),
                d.len() <= u.len(),
                forall|b: u32| set@.contains(b) <==> d.contains(b),
                forall|i: int, b: u32|
                    0 <= i < result@.len() && #[trigger] edge_to(gs, result@[i], b)
                        ==> set@.contains(b),
            decreases u.len() - d.len(), queue@.len(),
        {
            let ghost d_head = d;
            let popped = match queue.pop_front() {
                Some(p) => p,
                None => {
                    proof {
                        assert(false);
                    }
                    start
                },
            };
            result.push(popped);
            let ghost i0 = result@.len() - 1;
            proof {
                assert(d =~= result@ + queue@);
                assert(d[i0] == popped);
            }
            let ghost d_arm = d;

            match self.adjacency_list.get(&popped) {
                Some(nodes) => {
                    let ghost r_now = result@;
                    proof {
                        assert(gs[popped].skip(0) =~= gs[popped]);
                        assert(d + fresh_sinks(gs[popped].skip(0), d) == d_arm + fresh_sinks(
                            gs[popped],
                            d_arm,
                        ));
                    }
                    let mut k: usize = 0;
                    while k < nodes.len()
                        invariant
                            gs == wsinks(self@),
                            gs.contains_key(start),
                            gs.contains_key(popped),
                            gs.dom().finite(),
                            u == node_universe(gs),
                            u.finite(),
                            bfs_from(gs, d_arm, i0) == bfs_seq(gs, start),
                            0 <= i0 < d_arm.len(),
                            d_arm[i0] == popped,
                            i0 == result@.len() - 1,
                            d + fresh_sinks(gs[popped].skip(k as int), d) == d_arm + fresh_sinks(
                                gs[popped],
                                d_arm,
                            ),
                            nodes@.len() == gs[popped].len(),
                            forall|k2: int|
                                0 <= k2 < nodes@.len() ==> gs[popped][k2] == (
                                #[trigger] nodes@[k2]).spec_sink(),
                            k <= nodes.len(),
                            result@ == r_now,
                            r_now.len() >= 1,
                            r_now.last() == popped,
                            d == result@ + queue@,
                            d[0] == start,
                            d.len() >= d_head.len(),
                            distinct_seq(d),
                            discovery_order(gs, d),
                            forall|b: u32| d.contains(b) ==> u.contains(b),
                            d.len() <= u.len(),
                            forall|b: u32| set@.contains(b) <==> d.contains(b),
                            forall|i: int, b: u32|
                                0 <= i < result@.len() - 1 && #[trigger] edge_to(
                                    gs,
                                    result@[i],
                                    b,
                                ) ==> set@.contains(b),
                            forall|idx: int| 0 <= idx < k ==> set@.contains((#[trigger] nodes@[idx]).spec_sink()),
                        decreases nodes.len() - k,
                    {
                        let node = nodes[k].get_sink();
                        if !set.contains(&node) {
                            queue.push_back(node);
                            set.insert(node);
                            proof {
                                assert(!d.contains(node));
                                let dn = d.push(node);
                                assert(dn =~= result@ + queue@);
                                assert(gs[popped][k as int] == node);
                                assert(gs[popped].contains(node));
                                assert(edge_to(gs, popped, node));
                                assert(sink_set(gs).contains(node));
                                assert(u.contains(node));
                                let j = result@.len() - 1;
                                assert(d[j] == popped);
                                assert(!d.contains(node));
                                crate::reach::lemma_discovery_push(gs, d, j, node);
                                assert forall|b: u32| dn.contains(b) implies u.contains(b) by {
                                    assert(d.contains(b) || b == node);
                                }
                                crate::reach::lemma_distinct_in_set_len(dn, u);
                                assert forall|b: u32| set@.contains(b) <==> dn.contains(b) by {
                                    assert(dn.contains(b) <==> d.contains(b) || b == node);
                                }
                                assert(gs[popped].skip(k as int)[0] == gs[popped][k as int]);
                                assert(gs[popped].skip(k as int).drop_first() =~= gs[popped].skip(
                                    k as int + 1,
                                ));
                                assert(fresh_sinks(gs[popped].skip(k as int), d) == seq![node]
                                    + fresh_sinks(gs[popped].skip(k as int + 1), d.push(node)));
                                assert(d + (seq![node] + fresh_sinks(
                                    gs[popped].skip(k as int + 1),
                                    dn,
                                )) =~= dn + fresh_sinks(gs[popped].skip(k as int + 1), dn));
                                d = dn;
                            }
                        } else {
                            proof {
                                assert(d.contains(node));
                                assert(gs[popped][k as int] == node);
                                assert(gs[popped].skip(k as int)[0] == gs[popped][k as int]);
                                assert(gs[popped].skip(k as int).drop_first() =~= gs[popped].skip(
                                    k as int + 1,
                                ));
                                assert(fresh_sinks(gs[popped].skip(k as int), d) == fresh_sinks(
                                    gs[popped].skip(k as int + 1),
                                    d,
                                ));
                            }
                        }
                        k += 1;
                    }
                    proof {
                        assert forall|b: u32| #[trigger] edge_to(gs, popped, b) implies
                            set@.contains(b) by {
                            let k2 = choose|k2: int|
                                0 <= k2 < gs[popped].len() && gs[popped][k2] == b;
                            assert(nodes@[k2].spec_sink() == b);
                        }
                        assert(gs[popped].skip(gs[popped].len() as int) =~= Seq::<u32>::empty());
                        assert(d + Seq::<u32>::empty() =~= d);
                        assert(d == d_arm + fresh_sinks(gs[popped], d_arm));
                        assert(adj_seq(gs, popped) == gs[popped]);
                        assert(bfs_from(gs, d_arm, i0) == bfs_from(
                            gs,
                            d_arm + fresh_sinks(adj_seq(gs, d_arm[i0]), d_arm),
                            i0 + 1,
                        ));
                        assert(bfs_from(gs, d, result@.len() as int) == bfs_seq(gs, start));
                    }
                },
                None => {
                    proof {
                        assert(!gs.contains_key(popped));
                        assert(adj_seq(gs, popped) =~= Seq::<u32>::empty());
                        assert(fresh_sinks(adj_seq(gs, d_arm[i0]), d_arm) =~= Seq::<u32>::empty());
                        assert(d_arm + fresh_sinks(adj_seq(gs, d_arm[i0]), d_arm) =~= d);
                        assert(bfs_from(gs, d_arm, i0) == bfs_from(
                            gs,
                            d_arm + fresh_sinks(adj_seq(gs, d_arm[i0]), d_arm),
                            i0 + 1,
                        ));
                        assert(bfs_from(gs, d, result@.len() as int) == bfs_seq(gs, start));
                    }
                },
            }
        }
        proof {
            assert(d =~= result@);
            assert forall|i: int, b: u32|
                0 <= i < result@.len() && #[trigger] edge_to(gs, result@[i], b)
                    implies result@.contains(b) by {
                assert(set@.contains(b));
                assert(d.contains(b));
            }
            assert(result@.len() == d.len());
            assert(bfs_from(gs, d, d.len() as int) == d);
            assert(result@ == bfs_seq(gs, start));
        }
        result
    }

    #[verifier::rlimit(100)]
    pub fn dfs(&self, start: u32) -> (result: Vec<u32>)
        ensures
            valid_traversal(wsinks(self@), start, result@),
    {
        let mut result = Vec::<u32>::new();
        let mut set = HashSet::<u32>::new();

        if !self.adjacency_list.contains_key(&start) {
            return result;
        }

        set.insert(start);
        result.push(start);
        let mut stack = Vec::<(u32, usize)>::new();
        stack.push((start, 0));
        let ghost gs = wsinks(self@);
        let ghost u = node_universe(gs);
        proof {
            assert(gs.dom() =~= self.adjacency_list@.dom());
            lemma_node_universe_finite(gs);
            assert(u.contains(start));
            assert(result@.no_duplicates());
            result@.unique_seq_to_set();
            assert forall|b: u32| result@.to_set().contains(b) implies u.contains(b) by {
                assert(result@.contains(b));
                assert(result@[0] == b);
            }
            lemma_len_subset(result@.to_set(), u);
            assert(result@[0] == start);
            assert(result@.contains(start));
            assert(stack@.len() == 1);
            assert(stack@[0] == (start, 0usize));
            assert(stack_has(stack@, start));
        }

        while stack.len() != 0
            invariant
                gs == wsinks(self@),
                gs.contains_key(start),
                u == node_universe(gs),
                u.finite(),
                forall|b: u32| result@.contains(b) ==> u.contains(b),
                result@.len() <= u.len(),
                result@.len() >= 1,
                result@[0] == start,
                distinct_seq(result@),
                discovery_order(gs, result@),
                forall|b: u32| set@.contains(b) <==> result@.contains(b),
                forall|f: int|
                    0 <= f < stack@.len() ==> result@.contains((#[trigger] stack@[f]).0),
                forall|f1: int, f2: int|
                    0 <= f1 < f2 < stack@.len() ==> stack@[f1].0 != stack@[f2].0,
                forall|f: int|
                    0 <= f < stack@.len() ==> 0 <= (#[trigger] stack@[f]).1 <= adj_len(
                        gs,
                        stack@[f].0,
                    ),
                forall|f: int, k: int|
                    #![trigger set@.contains(gs[stack@[f].0][k])]
                    0 <= f < stack@.len() && gs.contains_key(stack@[f].0) && 0 <= k
                        < stack@[f].1 ==> set@.contains(gs[stack@[f].0][k]),
                forall|i: int|
                    0 <= i < result@.len() ==> stack_has(stack@, result@[i]) || all_sinks_visited(
                        gs,
                        #[trigger] result@[i],
                        set@,
                    ),
            decreases u.len() - result@.len(), stack_weight(gs, stack@),
        {
            let ghost pre = stack@;
            let (n, idx) = match stack.pop() {
                Some(f) => f,
                None => {
                    proof {
                        assert(false);
                    }
                    (start, 0)
                },
            };
            let ghost s0 = stack@;
            proof {
                assert(pre =~= s0.push((n, idx)));
                assert(pre.drop_last() =~= s0);
                assert(stack_weight(gs, pre) == stack_weight(gs, s0) + adj_len(gs, n) + 1
                    - idx);
            }

            let elen: usize = match self.adjacency_list.get(&n) {
                Some(nodes) => nodes.len(),
                None => 0,
            };
            proof {
                assert(elen as int == adj_len(gs, n));
            }

            if idx < elen {
                stack.push((n, idx + 1));
                let nodes = match self.adjacency_list.get(&n) {
                    Some(nodes) => nodes,
                    None => {
                        proof {
                            assert(false);
                        }
                        return result;
                    },
                };
                let node = nodes[idx].get_sink();
                proof {
                    assert(gs[n][idx as int] == node);
                    assert(gs[n].contains(node));
                    assert(edge_to(gs, n, node));
                    assert(sink_set(gs).contains(node));
                    assert(u.contains(node));
                }
                if !set.contains(&node) {
                    let ghost r0 = result@;
                    let ghost v0 = set@;
                    set.insert(node);
                    result.push(node);
                    stack.push((node, 0));
                    proof {
                        let r = result@;
                        assert(r.last() == node);
                        assert(pre[pre.len() - 1].0 == n);
                        assert(r0.contains(n));
                        let j = choose|j: int| 0 <= j < r0.len() && r0[j] == n;
                        assert(!r0.contains(node));
                        crate::reach::lemma_discovery_push(gs, r0, j, node);
                        assert forall|b: u32| set@.contains(b) <==> r.contains(b) by {
                            assert(r.contains(b) <==> r0.contains(b) || b == node);
                        }
                        assert forall|i: int|
                            0 <= i < result@.len() implies stack_has(stack@, result@[i])
                            || all_sinks_visited(gs, #[trigger] result@[i], set@) by {
                            if i < r0.len() {
                                assert(result@[i] == r0[i]);
                                if stack_has(pre, r0[i]) {
                                    let f = choose|f: int|
                                        0 <= f < pre.len() && (#[trigger] pre[f]).0 == r0[i];
                                    if f < s0.len() {
                                        assert(stack@[f] == s0[f]);
                                        assert(stack@[f].0 == r0[i]);
                                    } else {
                                        assert(pre[f].0 == n);
                                        assert(stack@[s0.len() as int].0 == n);
                                    }
                                    assert(stack_has(stack@, result@[i]));
                                }
                            } else {
                                assert(result@[i] == node);
                                assert(stack@[stack@.len() - 1].0 == node);
                                assert(stack_has(stack@, result@[i]));
                            }
                        }
                        assert(u.contains(node));
                        assert forall|b: u32| r.contains(b) implies u.contains(b) by {
                            let i = choose|i: int| 0 <= i < r.len() && r[i] == b;
                            if i < r0.len() {
                                assert(r0[i] == b);
                                assert(r0.contains(b));
                            } else {
                                assert(b == node);
                            }
                        }
                        assert(r.no_duplicates());
                        r.unique_seq_to_set();
                        assert forall|b: u32| r.to_set().contains(b) implies u.contains(b) by {
                            assert(r.contains(b));
                        }
                        lemma_len_subset(r.to_set(), u);
                        assert(result@.len() <= u.len());
                        assert forall|f: int|
                            0 <= f < stack@.len() implies r.contains(
                            (#[trigger] stack@[f]).0,
                        ) by {
                            if f < s0.len() {
                                assert(stack@[f] == pre[f]);
                                assert(r0.contains(pre[f].0));
                                let i2 = choose|i2: int|
                                    0 <= i2 < r0.len() && r0[i2] == pre[f].0;
                                assert(r[i2] == stack@[f].0);
                            } else if f == s0.len() {
                                assert(stack@[f].0 == n);
                                assert(pre[pre.len() - 1].0 == n);
                                assert(r0.contains(n));
                                let i2 = choose|i2: int| 0 <= i2 < r0.len() && r0[i2] == n;
                                assert(r[i2] == stack@[f].0);
                            } else {
                                assert(stack@[f].0 == node);
                                assert(r[r.len() - 1] == node);
                            }
                        }
                        assert forall|f1: int, f2: int|
                            0 <= f1 < f2 < stack@.len() implies stack@[f1].0 != stack@[f2].0 by {
                            if f2 <= s0.len() {
                                assert(stack@[f1].0 == pre[f1].0);
                                assert(stack@[f2].0 == pre[f2].0);
                            } else {
                                assert(stack@[f2].0 == node);
                                assert(stack@[f1].0 == pre[f1].0);
                                assert(r0.contains(pre[f1].0));
                                assert(v0.contains(pre[f1].0));
                            }
                        }
                    }
                } else {
                    proof {
                        assert forall|i: int|
                            0 <= i < result@.len() implies stack_has(stack@, result@[i])
                            || all_sinks_visited(gs, #[trigger] result@[i], set@) by {
                            if stack_has(pre, result@[i]) {
                                let f = choose|f: int|
                                    0 <= f < pre.len() && (#[trigger] pre[f]).0 == result@[i];
                                if f < s0.len() {
                                    assert(stack@[f] == s0[f]);
                                    assert(stack@[f].0 == result@[i]);
                                } else {
                                    assert(pre[f].0 == n);
                                    assert(stack@[s0.len() as int].0 == n);
                                }
                                assert(stack_has(stack@, result@[i]));
                            }
                        }
                        assert(stack@.drop_last() =~= s0);
                        assert(stack_weight(gs, stack@) == stack_weight(gs, s0) + adj_len(
                            gs,
                            n,
                        ) + 1 - (idx + 1));
                        assert forall|f: int|
                            0 <= f < stack@.len() implies 0 <= (#[trigger] stack@[f]).1 <= adj_len(
                            gs,
                            stack@[f].0,
                        ) by {
                            if f < s0.len() {
                                assert(stack@[f] == pre[f]);
                            }
                        }
                        lemma_stack_weight_nonneg(gs, stack@);
                        assert(stack_weight(gs, stack@) == stack_weight(gs, pre) - 1);
                        assert forall|f: int|
                            0 <= f < stack@.len() implies result@.contains(
                            (#[trigger] stack@[f]).0,
                        ) by {
                            assert(stack@[f].0 == pre[f].0);
                        }
                        assert forall|f1: int, f2: int|
                            0 <= f1 < f2 < stack@.len() implies stack@[f1].0 != stack@[f2].0 by {
                            assert(stack@[f1].0 == pre[f1].0);
                            assert(stack@[f2].0 == pre[f2].0);
                        }
                    }
                }
            } else {
                proof {
                    assert(idx as int == adj_len(gs, n));
                    assert(all_sinks_visited(gs, n, set@));
                    assert(stack_weight(gs, pre) == stack_weight(gs, stack@) + 1);
                    assert forall|f: int|
                        0 <= f < stack@.len() implies 0 <= (#[trigger] stack@[f]).1 <= adj_len(
                        gs,
                        stack@[f].0,
                    ) by {
                        assert(stack@[f] == pre[f]);
                    }
                    lemma_stack_weight_nonneg(gs, stack@);
                    assert forall|f: int|
                        0 <= f < stack@.len() implies result@.contains(
                        (#[trigger] stack@[f]).0,
                    ) by {
                        assert(stack@[f] == pre[f]);
                    }
                    assert forall|i: int|
                        0 <= i < result@.len() implies stack_has(stack@, result@[i])
                        || all_sinks_visited(gs, #[trigger] result@[i], set@) by {
                        if result@[i] != n && stack_has(pre, result@[i]) {
                            let f = choose|f: int|
                                0 <= f < pre.len() && (#[trigger] pre[f]).0 == result@[i];
                            assert(f < s0.len());
                            assert(stack@[f] == s0[f]);
                            assert(stack_has(stack@, result@[i]));
                        }
                    }
                }
            }
        }
        proof {
            assert forall|i: int, b: u32|
                0 <= i < result@.len() && #[trigger] edge_to(gs, result@[i], b)
                    implies result@.contains(b) by {
                assert(all_sinks_visited(gs, result@[i], set@));
                let k = choose|k: int| 0 <= k < gs[result@[i]].len() && gs[result@[i]][k] == b;
                assert(set@.contains(b));
            }
        }
        result
    }

    /// Single-source longest-path search in two phases. A priority-queue
    /// phase pops the pending node of greatest priority, finalizes it,
    /// and relaxes each outgoing edge upward (`max`, never decreasing a
    /// pending priority), so that the result holds an entry for exactly
    /// the nodes reachable from `start` (none when `start` owns no
    /// adjacency entry) and `start` itself maps to zero. Greedy
    /// finalization alone can under-approximate a longest path, so a
    /// second phase sweeps the finalized nodes once per node, raising
    /// each entry until every edge is relaxed. When no cycle is
    /// reachable from `start` the sweeps reach a fixpoint and every
    /// entry is the exact saturating maximum over all walks from
    /// `start`; when one is, no finite longest path exists and the
    /// entries remain saturating weights of walks — finite lower
    /// bounds, with `start` still at zero. Walk weights past `u32::MAX`
    /// saturate there.
    #[verifier::rlimit(100)]
    pub fn reverse_dijkstra(&self, start: u32) -> (result: HashMap<u32, u32>)
        ensures
            !self@.contains_key(start) ==> forall|n: u32| !(#[trigger] result@.contains_key(n)),
            self@.contains_key(start) ==> (forall|n: u32|
                #[trigger] result@.contains_key(n) <==> reachable(wsinks(self@), start, n)),
            forall|n: u32|
                #[trigger] result@.contains_key(n) ==> is_path_value(self@, start, n, result@[n]),
            self@.contains_key(start) ==> result@.contains_key(start) && result@[start] == 0,
            self@.contains_key(start) && acyclic_from(wsinks(self@), start) ==> (forall|
                n: u32,
                pv: u32,
            |
                #![trigger is_path_value(self@, start, n, pv)]
                result@.contains_key(n) && is_path_value(self@, start, n, pv) ==> pv <= result@[n]),
    {
        let mut result: HashMap<u32, u32> = HashMap::new();
        let ghost gs = wsinks(self@);
        if !self.adjacency_list.contains_key(&start) {
            proof {
                assert(gs.dom() =~= self.adjacency_list@.dom());
                assert(!self@.contains_key(start));
            }
            return result;
        }
        let mut queue = pq_new();
        pq_push(&mut queue, start, 0);
        let mut order: Vec<u32> = Vec::new();
        let ghost u = node_universe(gs);
        proof {
            assert(gs.dom() =~= self.adjacency_list@.dom());
            lemma_node_universe_finite(gs);
            assert(u.contains(start));
            assert(pq_contents(queue) == pq_empty().insert(start, 0u32));
            assert(is_wpath(self@, seq![start], Seq::<u32>::empty()));
            assert(wsum(Seq::<u32>::empty()) == 0);
            assert(clamped(0) == 0);
            assert(is_path_value(self@, start, start, 0));
            assert(pq_contents(queue).dom() =~= Set::<u32>::empty().insert(start));
            assert(result@.dom() =~= Set::<u32>::empty());
            assert(result@.dom().union(pq_contents(queue).dom()) =~= pq_contents(queue).dom());
        }
        while pq_len(&queue) != 0
            invariant
                gs == wsinks(self@),
                gs.contains_key(start),
                self@.contains_key(start),
                u == node_universe(gs),
                u.finite(),
                pq_contents(queue).dom().finite(),
                result@.dom().finite(),
                distinct_seq(order@),
                forall|b: u32| order@.contains(b) <==> result@.contains_key(b),
                forall|n: u32|
                    !(#[trigger] result@.contains_key(n) && pq_contents(queue).dom().contains(n)),
                result@.contains_key(start) || pq_contents(queue).dom().contains(start),
                result@.dom().len() == 0 ==> pq_contents(queue) == pq_empty().insert(start, 0u32),
                result@.dom().len() > 0 ==> result@.contains_key(start) && result@[start] == 0,
                pq_contents(queue).dom().contains(start) ==> pq_contents(queue)[start] == 0,
                forall|n: u32|
                    #[trigger] pq_contents(queue).dom().contains(n) ==> is_path_value(
                        self@,
                        start,
                        n,
                        pq_contents(queue)[n],
                    ) && u.contains(n),
                forall|n: u32|
                    #[trigger] result@.contains_key(n) ==> is_path_value(self@, start, n, result@[n])
                        && u.contains(n),
                forall|n: u32, b: u32|
                    #![trigger edge_to(gs, n, b)]
                    result@.contains_key(n) && edge_to(gs, n, b) ==> result@.contains_key(b)
                        || pq_contents(queue).dom().contains(b),
                result@.dom().len() + pq_contents(queue).dom().len() == result@.dom().union(
                    pq_contents(queue).dom(),
                ).len(),
                result@.dom().union(pq_contents(queue).dom()).subset_of(u),
            decreases
                    u.len() - result@.dom().len() - pq_contents(queue).dom().len(),
                    pq_contents(queue).dom().len(),
        {
            let ghost q_head = pq_contents(queue);
            let ghost r_head = result@;
            let popped = pq_pop(&mut queue);
            let (node, weight) = match popped {
                Some(p) => p,
                None => {
                    proof {
                        assert(false);
                    }
                    (start, 0)
                },
            };
            let ghost o0 = order@;
            result.insert(node, weight);
            order.push(node);
            let ghost q1 = pq_contents(queue);
            let ghost r1 = result@;
            proof {
                assert(!r_head.contains_key(node));
                assert forall|b: u32| order@.contains(b) <==> r1.contains_key(b) by {
                    if order@.contains(b) {
                        let ix = choose|ix: int| 0 <= ix < order@.len() && order@[ix] == b;
                        if ix < o0.len() {
                            assert(o0[ix] == b);
                            assert(o0.contains(b));
                        }
                    }
                    if o0.contains(b) {
                        let ix = choose|ix: int| 0 <= ix < o0.len() && o0[ix] == b;
                        assert(order@[ix] == b);
                        assert(order@.contains(b));
                    }
                    if b == node {
                        assert(order@[order@.len() - 1] == b);
                        assert(order@.contains(b));
                    }
                }
                assert forall|i2: int, j2: int|
                    0 <= i2 < j2 < order@.len() implies order@[i2] != order@[j2] by {
                    if j2 == order@.len() - 1 {
                        assert(order@[i2] == o0[i2]);
                        assert(o0.contains(o0[i2]));
                        assert(r_head.contains_key(order@[i2]));
                    } else {
                        assert(order@[i2] == o0[i2] && order@[j2] == o0[j2]);
                    }
                }
                assert(r1.dom() =~= r_head.dom().insert(node));
                assert(q1.dom() =~= q_head.dom().remove(node));
                assert(r1.dom().union(q1.dom()) =~= r_head.dom().union(q_head.dom()));
                if r_head.dom().len() == 0 {
                    assert(q_head == pq_empty().insert(start, 0u32));
                    assert(q_head.dom().contains(node));
                    assert(q_head.dom() =~= Set::<u32>::empty().insert(start));
                    assert(node == start);
                    assert(weight == 0);
                }
                assert(r1.contains_key(start));
                assert(r1[start] == 0);
                assert(is_path_value(self@, start, node, weight));
                assert forall|n: u32, b: u32|
                    #![trigger edge_to(gs, n, b)]
                    r1.contains_key(n) && n != node && edge_to(gs, n, b) implies r1.contains_key(b)
                    || q1.dom().contains(b) by {
                    assert(r_head.contains_key(n));
                    assert(r_head.contains_key(b) || q_head.dom().contains(b));
                    if q_head.dom().contains(b) && b == node {
                        assert(r1.contains_key(b));
                    }
                }
            }
            match self.adjacency_list.get(&node) {
                Some(edges) => {
                    let mut k: usize = 0;
                    proof {
                        assert(gs.contains_key(node));
                        assert forall|k2: int| 0 <= k2 < edges@.len() implies self@[node][k2] == (
                            (#[trigger] edges@[k2]).spec_sink(),
                            edges@[k2].spec_weight(),
                        ) && gs[node][k2] == edges@[k2].spec_sink() by {
                        }
                    }
                    while k < edges.len()
                        invariant
                            gs == wsinks(self@),
                            gs.contains_key(start),
                            self@.contains_key(start),
                            u == node_universe(gs),
                            u.finite(),
                            pq_contents(queue).dom().finite(),
                            result@.dom().finite(),
                            gs.contains_key(node),
                            self@.contains_key(node),
                            edges@.len() == gs[node].len(),
                            edges@.len() == self@[node].len(),
                            forall|k2: int|
                                0 <= k2 < edges@.len() ==> self@[node][k2] == ((
                                #[trigger] edges@[k2]).spec_sink(), edges@[k2].spec_weight())
                                    && gs[node][k2] == edges@[k2].spec_sink(),
                            k <= edges.len(),
                            result@ == r1,
                            distinct_seq(order@),
                            forall|b: u32| order@.contains(b) <==> result@.contains_key(b),
                            is_path_value(self@, start, node, weight),
                            result@.contains_key(start),
                            result@[start] == 0,
                            result@.contains_key(node),
                            forall|n: u32|
                                !(#[trigger] result@.contains_key(n)
                                    && pq_contents(queue).dom().contains(n)),
                            pq_contents(queue).dom().contains(start) ==> pq_contents(
                                queue,
                            )[start] == 0,
                            forall|n: u32|
                                #[trigger] pq_contents(queue).dom().contains(n) ==> is_path_value(
                                    self@,
                                    start,
                                    n,
                                    pq_contents(queue)[n],
                                ) && u.contains(n),
                            forall|n: u32|
                                #[trigger] result@.contains_key(n) ==> is_path_value(
                                    self@,
                                    start,
                                    n,
                                    result@[n],
                                ) && u.contains(n),
                            forall|n: u32, b: u32|
                                #![trigger edge_to(gs, n, b)]
                                result@.contains_key(n) && n != node && edge_to(gs, n, b)
                                    ==> result@.contains_key(b) || pq_contents(
                                    queue,
                                ).dom().contains(b),
                            forall|k2: int|
                                0 <= k2 < k ==> result@.contains_key(
                                    (#[trigger] edges@[k2]).spec_sink(),
                                ) || pq_contents(queue).dom().contains(edges@[k2].spec_sink()),
                            result@.dom().len() + pq_contents(queue).dom().len() == result@.dom().union(
                                pq_contents(queue).dom(),
                            ).len(),
                            result@.dom().union(pq_contents(queue).dom()).subset_of(u),
                            q1.dom().subset_of(pq_contents(queue).dom()),
                        decreases edges.len() - k,
                    {
                        let e = edges[k];
                        let sink = e.get_sink();
                        let w = e.get_weight();
                        if !result.contains_key(&sink) {
                            let cand = match weight.checked_add(w) {
                                Some(c) => c,
                                None => u32::MAX,
                            };
                            proof {
                                assert(self@[node][k as int] == (sink, w));
                                assert(self@[node].contains((sink, w)));
                                lemma_path_value_extend(self@, start, node, weight, sink, w);
                                assert(cand == clamped(weight + w));
                                assert(is_path_value(self@, start, sink, cand));
                                assert(gs[node][k as int] == sink);
                                assert(gs[node].contains(sink));
                                assert(edge_to(gs, node, sink));
                                assert(sink_set(gs).contains(sink));
                                assert(u.contains(sink));
                                assert(sink != start);
                            }
                            let ghost q_in = pq_contents(queue);
                            match pq_get_priority(&queue, sink) {
                                Some(old_p) => {
                                    let newp = if old_p >= cand {
                                        old_p
                                    } else {
                                        cand
                                    };
                                    proof {
                                        assert(is_path_value(self@, start, sink, newp));
                                    }
                                    pq_change_priority(&mut queue, sink, newp);
                                    proof {
                                        let q2 = pq_contents(queue);
                                        assert(q2 == q_in.insert(sink, newp));
                                        assert(q2.dom() =~= q_in.dom());
                                        assert(result@.dom().union(q2.dom()) =~= result@.dom().union(
                                            q_in.dom(),
                                        ));
                                        assert forall|n: u32|
                                            #[trigger] q2.dom().contains(n) implies is_path_value(
                                            self@,
                                            start,
                                            n,
                                            q2[n],
                                        ) && u.contains(n) by {
                                            if n != sink {
                                                assert(q_in.dom().contains(n));
                                                assert(q2[n] == q_in[n]);
                                            }
                                        }
                                    }
                                },
                                None => {
                                    pq_push(&mut queue, sink, cand);
                                    proof {
                                        let q2 = pq_contents(queue);
                                        assert(q2 == q_in.insert(sink, cand));
                                        assert(q2.dom() =~= q_in.dom().insert(sink));
                                        assert(!result@.dom().contains(sink));
                                        assert(!q_in.dom().contains(sink));
                                        assert(result@.dom().union(q2.dom()) =~= result@.dom().union(
                                            q_in.dom(),
                                        ).insert(sink));
                                        assert forall|n: u32|
                                            #[trigger] q2.dom().contains(n) implies is_path_value(
                                            self@,
                                            start,
                                            n,
                                            q2[n],
                                        ) && u.contains(n) by {
                                            if n != sink {
                                                assert(q_in.dom().contains(n));
                                                assert(q2[n] == q_in[n]);
                                            }
                                        }
                                    }
                                },
                            }
                        }
                        k += 1;
                    }
                    proof {
                        assert forall|b: u32| #[trigger] edge_to(gs, node, b) implies
                            result@.contains_key(b) || pq_contents(queue).dom().contains(b) by {
                            let k2 = choose|k2: int|
                                0 <= k2 < gs[node].len() && gs[node][k2] == b;
                            assert(edges@[k2].spec_sink() == b);
                        }
                        vstd::set_lib::lemma_len_subset(
                            result@.dom().union(pq_contents(queue).dom()),
                            u,
                        );
                    }
                },
                None => {
                    proof {
                        assert(!gs.contains_key(node));
                        vstd::set_lib::lemma_len_subset(
                            result@.dom().union(pq_contents(queue).dom()),
                            u,
                        );
                    }
                },
            }
            proof {
                broadcast use vstd::set::group_set_axioms;

                let q_end = pq_contents(queue);
                assert(q1.dom().subset_of(q_end.dom()));
                vstd::set_lib::lemma_len_subset(q1.dom(), q_end.dom());
                assert(r1.dom().len() == r_head.dom().len() + 1);
                assert(q1.dom().len() == q_head.dom().len() - 1);
            }
        }
        proof {
            pq_contents(queue).dom().lemma_len0_is_empty();
            assert(result@.contains_key(start));
            let s = result@.dom();
            assert forall|a: u32, b: u32| s.contains(a) && #[trigger] edge_to(gs, a, b) implies
                s.contains(b) by {
                assert(result@.contains_key(a));
                assert(!pq_contents(queue).dom().contains(b));
            }
            crate::reach::lemma_reachable_in_closed_set(gs, start, s);
            assert forall|n: u32| #[trigger] result@.contains_key(n) implies reachable(
                gs,
                start,
                n,
            ) by {
                lemma_path_value_reachable(self@, start, n, result@[n]);
            }
            assert(relax_state(self@, start, order@, result@));
            assert forall|ns: Seq<u32>, ws: Seq<u32>|
                #![trigger is_wpath(self@, ns, ws)]
                is_wpath(self@, ns, ws) && ns.first() == start && ws.len()
                    <= 0 implies result@.contains_key(ns.last()) && clamped(wsum(ws))
                <= result@[ns.last()] by {
                assert(ws.len() == 0);
                assert(ns.len() == 1);
                assert(ns.last() == ns.first());
                assert(wsum(ws) == 0);
            }
            assert(covers_walks(self@, start, result@, 0));
        }

        let rounds: usize = order.len();
        let mut pass: usize = 0;
        while pass < rounds
            invariant
                gs == wsinks(self@),
                gs.contains_key(start),
                self@.contains_key(start),
                rounds == order@.len(),
                pass <= rounds,
                relax_state(self@, start, order@, result@),
                acyclic_from(gs, start) ==> covers_walks(self@, start, result@, pass as int),
            decreases rounds - pass,
        {
            let ghost r_pass = result@;
            let mut i: usize = 0;
            while i < order.len()
                invariant
                    gs == wsinks(self@),
                    gs.contains_key(start),
                    self@.contains_key(start),
                    rounds == order@.len(),
                    pass < rounds,
                    i <= rounds,
                    relax_state(self@, start, order@, result@),
                    values_grew(r_pass, result@),
                    acyclic_from(gs, start) ==> covers_walks(self@, start, r_pass, pass as int),
                    acyclic_from(gs, start) ==> covers_appended_walks(
                        self@,
                        start,
                        order@,
                        i as int,
                        pass + 1,
                        result@,
                    ),
                decreases rounds - i,
            {
                let n = order[i];
                proof {
                    assert(order@[i as int] == n);
                    assert(order@.contains(n));
                    assert(result@.contains_key(n));
                }
                let dn = match result.get(&n) {
                    Some(v) => *v,
                    None => {
                        proof {
                            assert(false);
                        }
                        0
                    },
                };
                let ghost d_iter = result@;
                match self.adjacency_list.get(&n) {
                    Some(edges) => {
                        proof {
                            assert(self@.contains_key(n));
                            assert(gs.contains_key(n));
                            assert forall|k2: int| 0 <= k2 < edges@.len() implies self@[n][k2] == (
                                (#[trigger] edges@[k2]).spec_sink(),
                                edges@[k2].spec_weight(),
                            ) && gs[n][k2] == edges@[k2].spec_sink() by {}
                            assert(values_grew(d_iter, result@));
                            assert(r_pass.contains_key(n));
                            assert(r_pass[n] <= d_iter[n]);
                        }
                        let mut k: usize = 0;
                        while k < edges.len()
                            invariant
                                gs == wsinks(self@),
                                gs.contains_key(start),
                                self@.contains_key(start),
                                rounds == order@.len(),
                                pass < rounds,
                                i < rounds,
                                order@[i as int] == n,
                                k <= edges@.len(),
                                self@.contains_key(n),
                                edges@.len() == self@[n].len(),
                                forall|k2: int|
                                    0 <= k2 < edges@.len() ==> self@[n][k2] == ((
                                    #[trigger] edges@[k2]).spec_sink(), edges@[k2].spec_weight())
                                        && gs[n][k2] == edges@[k2].spec_sink(),
                                relax_state(self@, start, order@, result@),
                                values_grew(r_pass, result@),
                                values_grew(d_iter, result@),
                                d_iter.contains_key(n),
                                dn == d_iter[n],
                                r_pass.contains_key(n),
                                r_pass[n] <= dn,
                                is_path_value(self@, start, n, dn),
                                acyclic_from(gs, start) ==> covers_walks(
                                    self@,
                                    start,
                                    r_pass,
                                    pass as int,
                                ),
                                acyclic_from(gs, start) ==> covers_appended_walks(
                                    self@,
                                    start,
                                    order@,
                                    i as int,
                                    pass + 1,
                                    d_iter,
                                ),
                                forall|k2: int|
                                    0 <= k2 < k && (#[trigger] edges@[k2]).spec_sink() != start
                                        ==> result@.contains_key(edges@[k2].spec_sink()) && clamped(
                                        dn + edges@[k2].spec_weight(),
                                    ) <= result@[edges@[k2].spec_sink()],
                            decreases edges@.len() - k,
                        {
                            let e = edges[k];
                            let sink = e.get_sink();
                            let w = e.get_weight();
                            if sink != start {
                                proof {
                                    assert(self@[n][k as int] == (sink, w));
                                    assert(self@[n].contains((sink, w)));
                                    assert(gs[n][k as int] == sink);
                                    assert(gs[n].contains(sink));
                                    assert(edge_to(gs, n, sink));
                                    assert(reachable(gs, start, n));
                                    lemma_reachable_step(gs, start, n, sink);
                                    assert(result@.contains_key(sink));
                                    lemma_path_value_extend(self@, start, n, dn, sink, w);
                                }
                                let cand = match dn.checked_add(w) {
                                    Some(c) => c,
                                    None => u32::MAX,
                                };
                                proof {
                                    assert(cand == clamped(dn + w));
                                    assert(is_path_value(self@, start, sink, cand));
                                }
                                let ds = match result.get(&sink) {
                                    Some(v) => *v,
                                    None => {
                                        proof {
                                            assert(false);
                                        }
                                        0
                                    },
                                };
                                if cand > ds {
                                    let ghost m0 = result@;
                                    result.insert(sink, cand);
                                    proof {
                                        lemma_relax_state_insert(
                                            self@,
                                            start,
                                            order@,
                                            m0,
                                            sink,
                                            cand,
                                        );
                                        assert(result@ == m0.insert(sink, cand));
                                        lemma_grew_trans(r_pass, m0, result@);
                                        lemma_grew_trans(d_iter, m0, result@);
                                        assert forall|k2: int|
                                            0 <= k2 < k && (#[trigger] edges@[k2]).spec_sink()
                                                != start implies result@.contains_key(
                                            edges@[k2].spec_sink(),
                                        ) && clamped(dn + edges@[k2].spec_weight())
                                            <= result@[edges@[k2].spec_sink()] by {
                                            assert(m0.contains_key(edges@[k2].spec_sink()));
                                            assert(clamped(dn + edges@[k2].spec_weight())
                                                <= m0[edges@[k2].spec_sink()]);
                                        }
                                    }
                                }
                                proof {
                                    assert(result@.contains_key(sink));
                                    assert(clamped(dn + w) <= result@[sink]);
                                }
                            }
                            k += 1;
                        }
                        proof {
                            if acyclic_from(gs, start) {
                                assert forall|ns: Seq<u32>, ws: Seq<u32>, j: int|
                                    #![trigger is_wpath(self@, ns, ws), order@[j]]
                                    is_wpath(self@, ns, ws) && ns.first() == start && ws.len()
                                        == pass + 1 && 0 <= j < i + 1 && order@[j] == ns[ns.len()
                                        - 2] implies result@.contains_key(ns.last()) && clamped(
                                    wsum(ws),
                                ) <= result@[ns.last()] by {
                                    if j < i {
                                        assert(d_iter.contains_key(ns.last()) && clamped(wsum(ws))
                                            <= d_iter[ns.last()]);
                                    } else {
                                        assert(ns[ns.len() - 2] == n);
                                        let pn = ns.drop_last();
                                        let pw = ws.drop_last();
                                        assert forall|a: int|
                                            0 <= a < pw.len() implies self@.contains_key(
                                            #[trigger] pn[a],
                                        ) && self@[pn[a]].contains((pn[a + 1], pw[a])) by {
                                            assert(pn[a] == ns[a] && pn[a + 1] == ns[a + 1]
                                                && pw[a] == ws[a]);
                                            assert(self@.contains_key(ns[a]) && self@[ns[a]].contains(
                                                (ns[a + 1], ws[a]),
                                            ));
                                        }
                                        assert(is_wpath(self@, pn, pw));
                                        assert(pn.first() == start);
                                        assert(pn.last() == n);
                                        assert(pw.len() == pass as int);
                                        assert(r_pass.contains_key(n) && clamped(wsum(pw))
                                            <= r_pass[n]);
                                        assert(clamped(wsum(pw)) <= dn);
                                        assert(self@.contains_key(ns[ns.len() - 2])
                                            && self@[ns[ns.len() - 2]].contains(
                                            (ns[ns.len() - 1], ws[ws.len() - 1]),
                                        ));
                                        assert(self@[n].contains((ns.last(), ws.last())));
                                        let k2 = choose|k2: int|
                                            0 <= k2 < self@[n].len() && self@[n][k2] == (
                                            ns.last(),
                                            ws.last(),
                                        );
                                        assert(edges@[k2].spec_sink() == ns.last()
                                            && edges@[k2].spec_weight() == ws.last());
                                        if ns.last() == start {
                                            lemma_wpath_is_path(self@, ns, ws);
                                            let tp = seq![start];
                                            assert(is_path(gs, tp));
                                            assert(tp.first() == start && tp.last() == start);
                                            assert(reachable(gs, start, ns.first()));
                                            assert(ns.len() >= 2);
                                            assert(false);
                                        }
                                        assert(result@.contains_key(ns.last()) && clamped(
                                            dn + ws.last(),
                                        ) <= result@[ns.last()]);
                                        lemma_wsum_nonneg(pw);
                                        lemma_clamped_add_mono(wsum(pw), dn, ws.last());
                                        assert(ws.drop_last() =~= pw);
                                        assert(wsum(ws) == wsum(pw) + ws.last());
                                        assert(clamped(wsum(ws)) <= clamped(dn + ws.last()));
                                    }
                                }
                                assert(covers_appended_walks(
                                    self@,
                                    start,
                                    order@,
                                    i + 1,
                                    pass + 1,
                                    result@,
                                ));
                            }
                        }
                    },
                    None => {
                        proof {
                            assert(!self@.contains_key(n));
                            if acyclic_from(gs, start) {
                                assert forall|ns: Seq<u32>, ws: Seq<u32>, j: int|
                                    #![trigger is_wpath(self@, ns, ws), order@[j]]
                                    is_wpath(self@, ns, ws) && ns.first() == start && ws.len()
                                        == pass + 1 && 0 <= j < i + 1 && order@[j] == ns[ns.len()
                                        - 2] implies result@.contains_key(ns.last()) && clamped(
                                    wsum(ws),
                                ) <= result@[ns.last()] by {
                                    if j < i {
                                        assert(d_iter.contains_key(ns.last()) && clamped(wsum(ws))
                                            <= d_iter[ns.last()]);
                                    } else {
                                        assert(ns[ns.len() - 2] == n);
                                        assert(ws.len() >= 1);
                                        assert(self@.contains_key(ns[ns.len() - 2]));
                                        assert(false);
                                    }
                                }
                                assert(covers_appended_walks(
                                    self@,
                                    start,
                                    order@,
                                    i + 1,
                                    pass + 1,
                                    result@,
                                ));
                            }
                        }
                    },
                }
                i += 1;
            }
            proof {
                if acyclic_from(gs, start) {
                    assert forall|ns: Seq<u32>, ws: Seq<u32>|
                        #![trigger is_wpath(self@, ns, ws)]
                        is_wpath(self@, ns, ws) && ns.first() == start && ws.len() <= pass
                            + 1 implies result@.contains_key(ns.last()) && clamped(wsum(ws))
                        <= result@[ns.last()] by {
                        if ws.len() <= pass {
                            assert(r_pass.contains_key(ns.last()) && clamped(wsum(ws))
                                <= r_pass[ns.last()]);
                        } else {
                            let pn = ns.drop_last();
                            let pw = ws.drop_last();
                            assert forall|a: int|
                                0 <= a < pw.len() implies self@.contains_key(#[trigger] pn[a])
                                    && self@[pn[a]].contains((pn[a + 1], pw[a])) by {
                                assert(pn[a] == ns[a] && pn[a + 1] == ns[a + 1] && pw[a] == ws[a]);
                                assert(self@.contains_key(ns[a]) && self@[ns[a]].contains(
                                    (ns[a + 1], ws[a]),
                                ));
                            }
                            assert(is_wpath(self@, pn, pw));
                            assert(pn.first() == start);
                            assert(pw.len() == pass as int);
                            assert(r_pass.contains_key(pn.last()));
                            assert(result@.contains_key(ns[ns.len() - 2]));
                            assert(order@.contains(ns[ns.len() - 2]));
                            let j = choose|j: int|
                                0 <= j < order@.len() && order@[j] == ns[ns.len() - 2];
                            assert(order@[j] == ns[ns.len() - 2]);
                            assert(result@.contains_key(ns.last()) && clamped(wsum(ws))
                                <= result@[ns.last()]);
                        }
                    }
                    assert(covers_walks(self@, start, result@, pass + 1));
                }
            }
            pass += 1;
        }
        proof {
            if acyclic_from(gs, start) {
                assert(order@.contains(start));
                assert forall|b: u32| reachable(gs, start, b) implies order@.contains(b) by {
                    assert(result@.contains_key(b));
                }
                assert forall|n: u32, pv: u32|
                    #![trigger is_path_value(self@, start, n, pv)]
                    result@.contains_key(n) && is_path_value(self@, start, n, pv) implies pv
                    <= result@[n] by {
                    let (ns, ws) = choose|ns: Seq<u32>, ws: Seq<u32>|
                        #[trigger] is_wpath(self@, ns, ws) && ns.first() == start && ns.last() == n
                            && pv == clamped(wsum(ws));
                    lemma_walk_nodes_bounded(self@, start, ns, ws, order@);
                    assert(ws.len() <= rounds);
                    assert(result@.contains_key(ns.last()) && clamped(wsum(ws))
                        <= result@[ns.last()]);
                }
            }
        }
        result
    }
}

} // verus!
