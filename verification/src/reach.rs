use vstd::prelude::*;

verus! {

/// There is an edge from `a` to `b` in the adjacency map `g`, which sends
/// each source node to its ordered sequence of sinks.
pub open spec fn edge_to(g: Map<u32, Seq<u32>>, a: u32, b: u32) -> bool {
    g.contains_key(a) && g[a].contains(b)
}

/// `p` is a walk through `g`: consecutive elements are joined by edges.
/// A single node is a trivial walk.
pub open spec fn is_path(g: Map<u32, Seq<u32>>, p: Seq<u32>) -> bool {
    &&& p.len() >= 1
    &&& forall|i: int| 0 <= i < p.len() - 1 ==> edge_to(g, #[trigger] p[i], p[i + 1])
}

/// `b` can be reached from `a` by following zero or more edges.
pub open spec fn reachable(g: Map<u32, Seq<u32>>, a: u32, b: u32) -> bool {
    exists|p: Seq<u32>| is_path(g, p) && p.first() == a && p.last() == b
}

/// No walk of two or more nodes that begins at a node reachable from
/// `start` returns to its origin: the part of `g` that `start` can see
/// is cycle-free.
pub open spec fn acyclic_from(g: Map<u32, Seq<u32>>, start: u32) -> bool {
    forall|p: Seq<u32>|
        #[trigger] is_path(g, p) && p.len() >= 2 && reachable(g, start, p.first()) ==> p.first()
            != p.last()
}

/// What a traversal promises of its result `r`:
/// - a start node that owns no adjacency entry yields the empty sequence;
/// - otherwise the sequence opens with `start`;
/// - no node appears twice;
/// - every later node is the sink of an edge leaving an earlier one, so the
///   sequence is a genuine discovery order;
/// - the sequence is closed under outgoing edges, which together with the
///   previous points pins its contents to exactly the nodes reachable from
///   `start`.
pub open spec fn valid_traversal(g: Map<u32, Seq<u32>>, start: u32, r: Seq<u32>) -> bool {
    &&& (!g.contains_key(start) ==> r.len() == 0)
    &&& (g.contains_key(start) ==> r.len() > 0 && r[0] == start)
    &&& distinct_seq(r)
    &&& discovery_order(g, r)
    &&& edge_closed(g, r)
}

/// No node appears twice in `s`.
pub open spec fn distinct_seq(s: Seq<u32>) -> bool {
    forall|i: int, j: int| 0 <= i < j < s.len() ==> s[i] != s[j]
}

/// Element `i` of `s` was discovered through an edge out of an earlier
/// element.
pub open spec fn discovered_from(g: Map<u32, Seq<u32>>, s: Seq<u32>, i: int) -> bool {
    exists|j: int| 0 <= j < i && #[trigger] edge_to(g, s[j], s[i])
}

/// Every element after the first is the sink of an edge leaving an
/// earlier element: `s` is a genuine discovery order over `g`.
pub open spec fn discovery_order(g: Map<u32, Seq<u32>>, s: Seq<u32>) -> bool {
    forall|i: int| 0 < i < s.len() ==> #[trigger] discovered_from(g, s, i)
}

/// `s` is closed under following edges out of its members.
pub open spec fn edge_closed(g: Map<u32, Seq<u32>>, s: Seq<u32>) -> bool {
    forall|i: int, b: u32| 0 <= i < s.len() && #[trigger] edge_to(g, s[i], b) ==> s.contains(b)
}

/// All nodes that some edge of `g` enters.
pub open spec fn sink_set(g: Map<u32, Seq<u32>>) -> Set<u32> {
    Set::new(|b: u32| exists|a: u32| #[trigger] edge_to(g, a, b))
}

/// The nodes a traversal can ever touch: sources and sinks together.
pub open spec fn node_universe(g: Map<u32, Seq<u32>>) -> Set<u32> {
    g.dom().union(sink_set(g))
}

/// A graph with finitely many adjacency entries has finitely many sinks.
pub proof fn lemma_sink_set_finite(g: Map<u32, Seq<u32>>)
    requires
        g.dom().finite(),
    ensures
        sink_set(g).finite(),
    decreases g.dom().len(),
{
    broadcast use vstd::seq_lib::seq_to_set_is_finite;

    if g.dom().is_empty() {
        assert forall|b: u32| !sink_set(g).contains(b) by {
            if exists|a: u32| #[trigger] edge_to(g, a, b) {
                let a = choose|a: u32| #[trigger] edge_to(g, a, b);
                assert(g.dom().contains(a));
            }
        }
        assert(sink_set(g) =~= Set::<u32>::empty());
    } else {
        assert(exists|x: u32| g.dom().contains(x)) by {
            if !(exists|x: u32| g.dom().contains(x)) {
                assert(g.dom() =~= Set::<u32>::empty());
            }
        }
        let a = g.dom().choose();
        assert(g.dom().contains(a));
        let g2 = g.remove(a);
        assert(g2.dom() =~= g.dom().remove(a));
        lemma_sink_set_finite(g2);
        assert forall|b: u32|
            sink_set(g).contains(b) == sink_set(g2).union(g[a].to_set()).contains(b) by {
            if sink_set(g).contains(b) {
                let x = choose|x: u32| #[trigger] edge_to(g, x, b);
                if x == a {
                    assert(g[a].contains(b));
                    assert(g[a].to_set().contains(b));
                } else {
                    assert(edge_to(g2, x, b));
                    assert(sink_set(g2).contains(b));
                }
            }
            if sink_set(g2).contains(b) {
                let x = choose|x: u32| #[trigger] edge_to(g2, x, b);
                assert(edge_to(g, x, b));
                assert(sink_set(g).contains(b));
            }
            if g[a].to_set().contains(b) {
                assert(g[a].contains(b));
                assert(edge_to(g, a, b));
                assert(sink_set(g).contains(b));
            }
        }
        assert(sink_set(g) =~= sink_set(g2).union(g[a].to_set()));
    }
}

/// A graph with finitely many adjacency entries has a finite node universe.
pub proof fn lemma_node_universe_finite(g: Map<u32, Seq<u32>>)
    requires
        g.dom().finite(),
    ensures
        node_universe(g).finite(),
{
    lemma_sink_set_finite(g);
}


/// The sinks a node owns, in insertion order (none when it owns no
/// adjacency entry).
pub open spec fn adj_seq(g: Map<u32, Seq<u32>>, n: u32) -> Seq<u32> {
    if g.contains_key(n) {
        g[n]
    } else {
        Seq::empty()
    }
}

/// The members of `s` not in `seen`, first occurrences only, in order:
/// what a traversal enqueues while scanning the sink list `s`.
pub open spec fn fresh_sinks(s: Seq<u32>, seen: Seq<u32>) -> Seq<u32>
    decreases s.len(),
{
    if s.len() == 0 {
        Seq::empty()
    } else if seen.contains(s[0]) {
        fresh_sinks(s.drop_first(), seen)
    } else {
        seq![s[0]] + fresh_sinks(s.drop_first(), seen.push(s[0]))
    }
}

/// `fresh_sinks` yields a duplicate-free selection of `s` disjoint from
/// `seen`.
pub proof fn lemma_fresh_sinks_props(s: Seq<u32>, seen: Seq<u32>)
    ensures
        forall|x: u32| #[trigger] fresh_sinks(s, seen).contains(x) ==> s.contains(x)
            && !seen.contains(x),
        distinct_seq(fresh_sinks(s, seen)),
    decreases s.len(),
{
    let f = fresh_sinks(s, seen);
    if s.len() == 0 {
    } else if seen.contains(s[0]) {
        lemma_fresh_sinks_props(s.drop_first(), seen);
        assert forall|x: u32| #[trigger] f.contains(x) implies s.contains(x) && !seen.contains(
            x,
        ) by {
            assert(s.drop_first().contains(x));
            let ix = choose|ix: int| 0 <= ix < s.drop_first().len() && s.drop_first()[ix] == x;
            assert(s[ix + 1] == x);
        }
    } else {
        let seen2 = seen.push(s[0]);
        lemma_fresh_sinks_props(s.drop_first(), seen2);
        let rest = fresh_sinks(s.drop_first(), seen2);
        assert forall|x: u32| #[trigger] f.contains(x) implies s.contains(x) && !seen.contains(
            x,
        ) by {
            let ix = choose|ix: int| 0 <= ix < f.len() && f[ix] == x;
            if ix == 0 {
                assert(x == s[0]);
            } else {
                assert(rest[ix - 1] == x);
                assert(rest.contains(x));
                assert(s.drop_first().contains(x));
                let iy = choose|iy: int| 0 <= iy < s.drop_first().len() && s.drop_first()[iy] == x;
                assert(s[iy + 1] == x);
                assert(!seen2.contains(x));
                if seen.contains(x) {
                    let iz = choose|iz: int| 0 <= iz < seen.len() && seen[iz] == x;
                    assert(seen2[iz] == x);
                    assert(seen2.contains(x));
                }
            }
        }
        assert forall|i: int, j: int| 0 <= i < j < f.len() implies f[i] != f[j] by {
            if i == 0 {
                assert(f[j] == rest[j - 1]);
                assert(rest.contains(rest[j - 1]));
                assert(!seen2.contains(rest[j - 1]));
                assert(seen2[seen2.len() - 1] == s[0]);
                if rest[j - 1] == s[0] {
                    assert(seen2.contains(s[0]));
                }
            } else {
                assert(f[i] == rest[i - 1] && f[j] == rest[j - 1]);
            }
        }
    }
}

/// One step of breadth-first expansion: starting from the discovery
/// sequence `d`, whose first `i` entries are fully processed, scan the
/// sinks of `d[i]` and append the fresh ones; the sequence is complete
/// once every entry is processed. The result is the full discovery
/// sequence, in the order first reached.
pub open spec fn bfs_from(g: Map<u32, Seq<u32>>, d: Seq<u32>, i: int) -> Seq<u32>
    decreases
            node_universe(g).union(d.to_set()).len() - d.to_set().len(),
            d.len() - i,
        when 0 <= i <= d.len() && g.dom().finite()
        via bfs_from_decreases
{
    if i >= d.len() {
        d
    } else {
        bfs_from(g, d + fresh_sinks(adj_seq(g, d[i]), d), i + 1)
    }
}

#[via_fn]
proof fn bfs_from_decreases(g: Map<u32, Seq<u32>>, d: Seq<u32>, i: int) {
    broadcast use vstd::seq_lib::seq_to_set_is_finite;

    lemma_node_universe_finite(g);
    if i < d.len() {
        let f = fresh_sinks(adj_seq(g, d[i]), d);
        lemma_fresh_sinks_props(adj_seq(g, d[i]), d);
        let d2 = d + f;
        assert forall|x: u32| #[trigger] d2.to_set().contains(x) implies node_universe(g).union(
            d.to_set(),
        ).contains(x) by {
            assert(d2.contains(x));
            let ix = choose|ix: int| 0 <= ix < d2.len() && d2[ix] == x;
            if ix < d.len() {
                assert(d[ix] == x);
                assert(d.to_set().contains(x));
            } else {
                assert(f[ix - d.len()] == x);
                assert(f.contains(x));
                assert(adj_seq(g, d[i]).contains(x));
                assert(g.contains_key(d[i]));
                assert(edge_to(g, d[i], x));
                assert(sink_set(g).contains(x));
            }
        }
        assert forall|x: u32| #[trigger] d.to_set().contains(x) implies d2.to_set().contains(x) by {
            assert(d.contains(x));
            let ix = choose|ix: int| 0 <= ix < d.len() && d[ix] == x;
            assert(d2[ix] == x);
            assert(d2.contains(x));
        }
        assert(node_universe(g).union(d2.to_set()) =~= node_universe(g).union(d.to_set()));
        vstd::set_lib::lemma_len_subset(d2.to_set(), node_universe(g).union(d.to_set()));
        if f.len() == 0 {
            assert(d2 =~= d);
        } else {
            assert(f.contains(f[0]));
            assert(!d.contains(f[0]));
            assert(d2[d.len() as int] == f[0]);
            assert(d2.to_set().contains(f[0]));
            assert(!d.to_set().contains(f[0]));
            d.to_set().lemma_subset_not_in_lt(d2.to_set(), f[0]);
            assert(d.to_set().len() < d2.to_set().len());
        }
    }
}

/// The breadth-first discovery sequence of `g` from `start`: empty when
/// `start` owns no adjacency entry.
pub open spec fn bfs_seq(g: Map<u32, Seq<u32>>, start: u32) -> Seq<u32> {
    if g.contains_key(start) {
        bfs_from(g, seq![start], 0)
    } else {
        Seq::empty()
    }
}

/// Appending a fresh node discovered through an edge out of `d[j]`
/// keeps a discovery order distinct and discovery-ordered.
pub proof fn lemma_discovery_push(g: Map<u32, Seq<u32>>, d: Seq<u32>, j: int, node: u32)
    requires
        distinct_seq(d),
        discovery_order(g, d),
        0 <= j < d.len(),
        edge_to(g, d[j], node),
        !d.contains(node),
    ensures
        distinct_seq(d.push(node)),
        discovery_order(g, d.push(node)),
        forall|b: u32| d.push(node).contains(b) <==> d.contains(b) || b == node,
{
    let dn = d.push(node);
    assert forall|i: int, j2: int| 0 <= i < j2 < dn.len() implies dn[i] != dn[j2] by {
        if j2 == dn.len() - 1 {
            assert(dn[i] == d[i]);
            assert(d.contains(d[i]));
        } else {
            assert(dn[i] == d[i] && dn[j2] == d[j2]);
        }
    }
    assert forall|i: int| 0 < i < dn.len() implies #[trigger] discovered_from(g, dn, i) by {
        if i < d.len() {
            assert(dn[i] == d[i]);
            assert(discovered_from(g, d, i));
            let jj = choose|jj: int| 0 <= jj < i && #[trigger] edge_to(g, d[jj], d[i]);
            assert(dn[jj] == d[jj]);
            assert(edge_to(g, dn[jj], dn[i]));
        } else {
            assert(dn[j] == d[j]);
            assert(dn[i] == node);
            assert(edge_to(g, dn[j], dn[i]));
        }
    }
    assert forall|b: u32| dn.contains(b) <==> (d.contains(b) || b == node) by {
        if dn.contains(b) {
            let i = choose|i: int| 0 <= i < dn.len() && dn[i] == b;
            if i < d.len() {
                assert(d[i] == b);
                assert(d.contains(b));
            }
        }
        if d.contains(b) {
            let i = choose|i: int| 0 <= i < d.len() && d[i] == b;
            assert(dn[i] == b);
            assert(dn.contains(b));
        }
        if b == node {
            assert(dn[dn.len() - 1] == b);
            assert(dn.contains(b));
        }
    }
    assert(distinct_seq(dn));
    assert(discovery_order(g, dn));
    assert forall|b: u32| d.push(node).contains(b) <==> d.contains(b) || b == node by {
        assert(d.push(node) == dn);
        assert(dn.contains(b) <==> d.contains(b) || b == node);
    }
}

/// A duplicate-free sequence drawn from a finite set is no longer than
/// that set.
pub proof fn lemma_distinct_in_set_len(s: Seq<u32>, u: Set<u32>)
    requires
        distinct_seq(s),
        u.finite(),
        forall|b: u32| s.contains(b) ==> u.contains(b),
    ensures
        s.len() <= u.len(),
{
    assert forall|i: int, j: int|
        0 <= i < s.len() && 0 <= j < s.len() && i != j implies s[i] != s[j] by {
        if i < j {
            assert(s[i] != s[j]);
        } else {
            assert(s[j] != s[i]);
        }
    }
    assert(s.no_duplicates());
    s.unique_seq_to_set();
    assert forall|b: u32| s.to_set().contains(b) implies u.contains(b) by {
        assert(s.contains(b));
    }
    vstd::set_lib::lemma_len_subset(s.to_set(), u);
}

/// Reachability extends across one more edge.
pub proof fn lemma_reachable_step(g: Map<u32, Seq<u32>>, start: u32, a: u32, b: u32)
    requires
        reachable(g, start, a),
        edge_to(g, a, b),
    ensures
        reachable(g, start, b),
{
    let p = choose|p: Seq<u32>| is_path(g, p) && p.first() == start && p.last() == a;
    let q = p.push(b);
    assert forall|i: int| 0 <= i < q.len() - 1 implies edge_to(g, #[trigger] q[i], q[i + 1]) by {
        if i < p.len() - 1 {
            assert(edge_to(g, p[i], p[i + 1]));
            assert(q[i] == p[i] && q[i + 1] == p[i + 1]);
        } else {
            assert(q[i] == p.last() && q[i + 1] == b);
        }
    }
    assert(is_path(g, q));
    assert(q.first() == start && q.last() == b);
}

/// A walk that starts inside a set closed under following edges ends
/// inside that set.
pub proof fn lemma_path_stays_in_closed_set(g: Map<u32, Seq<u32>>, p: Seq<u32>, s: Set<u32>)
    requires
        is_path(g, p),
        s.contains(p.first()),
        forall|a: u32, b: u32| s.contains(a) && #[trigger] edge_to(g, a, b) ==> s.contains(b),
    ensures
        s.contains(p.last()),
    decreases p.len(),
{
    if p.len() > 1 {
        assert(edge_to(g, p[0], p[1]));
        let q = p.drop_first();
        assert forall|i: int| 0 <= i < q.len() - 1 implies edge_to(g, #[trigger] q[i], q[i + 1]) by {
            assert(edge_to(g, p[i + 1], p[i + 2]));
        }
        assert(s.contains(q.first()));
        lemma_path_stays_in_closed_set(g, q, s);
        assert(q.last() == p.last());
    }
}

/// A set that contains `start` and is closed under following edges
/// contains every node reachable from `start`.
pub proof fn lemma_reachable_in_closed_set(g: Map<u32, Seq<u32>>, start: u32, s: Set<u32>)
    requires
        s.contains(start),
        forall|a: u32, b: u32| s.contains(a) && #[trigger] edge_to(g, a, b) ==> s.contains(b),
    ensures
        forall|b: u32| #[trigger] reachable(g, start, b) ==> s.contains(b),
{
    assert forall|b: u32| #[trigger] reachable(g, start, b) implies s.contains(b) by {
        let p = choose|p: Seq<u32>| is_path(g, p) && p.first() == start && p.last() == b;
        lemma_path_stays_in_closed_set(g, p, s);
    }
}

/// Each entry of a valid traversal is reachable from `start`.
pub proof fn lemma_traversal_entry_reachable(
    g: Map<u32, Seq<u32>>,
    start: u32,
    r: Seq<u32>,
    i: int,
)
    requires
        valid_traversal(g, start, r),
        g.contains_key(start),
        0 <= i < r.len(),
    ensures
        reachable(g, start, r[i]),
    decreases i,
{
    if i == 0 {
        let p = seq![start];
        assert(is_path(g, p));
        assert(p.first() == start && p.last() == r[0]);
    } else {
        assert(discovered_from(g, r, i));
        let j = choose|j: int| 0 <= j < i && #[trigger] edge_to(g, r[j], r[i]);
        lemma_traversal_entry_reachable(g, start, r, j);
        let p = choose|p: Seq<u32>| is_path(g, p) && p.first() == start && p.last() == r[j];
        let q = p.push(r[i]);
        assert forall|k: int| 0 <= k < q.len() - 1 implies edge_to(g, #[trigger] q[k], q[k + 1]) by {
            if k < p.len() - 1 {
                assert(edge_to(g, p[k], p[k + 1]));
            } else {
                assert(q[k] == p.last() && q[k + 1] == r[i]);
            }
        }
        assert(is_path(g, q));
        assert(q.first() == start && q.last() == r[i]);
    }
}

/// A valid traversal records exactly the nodes reachable from `start`,
/// each exactly once (the traversal is duplicate-free by definition).
pub proof fn lemma_traversal_exactly_reachable(g: Map<u32, Seq<u32>>, start: u32, r: Seq<u32>)
    requires
        valid_traversal(g, start, r),
        g.contains_key(start),
    ensures
        forall|b: u32| r.contains(b) <==> #[trigger] reachable(g, start, b),
{
    assert forall|b: u32| r.contains(b) implies #[trigger] reachable(g, start, b) by {
        let i = choose|i: int| 0 <= i < r.len() && r[i] == b;
        lemma_traversal_entry_reachable(g, start, r, i);
    }
    let s = Set::new(|b: u32| r.contains(b));
    assert(r[0] == start);
    assert(s.contains(start));
    assert forall|a: u32, b: u32| s.contains(a) && #[trigger] edge_to(g, a, b) implies s.contains(
        b,
    ) by {
        let i = choose|i: int| 0 <= i < r.len() && r[i] == a;
        assert(edge_to(g, r[i], b));
        assert(r.contains(b));
    }
    lemma_reachable_in_closed_set(g, start, s);
    assert forall|b: u32| reachable(g, start, b) implies r.contains(b) by {
        assert(s.contains(b));
    }
}

/// Any two valid traversals from the same start visit the same set of
/// nodes: the order may differ, the contents may not.
#[verifier::rlimit(60)]
pub proof fn lemma_traversals_visit_same_nodes(
    g: Map<u32, Seq<u32>>,
    start: u32,
    r1: Seq<u32>,
    r2: Seq<u32>,
)
    requires
        valid_traversal(g, start, r1),
        valid_traversal(g, start, r2),
    ensures
        forall|b: u32| r1.contains(b) <==> r2.contains(b),
        r1.to_set() =~= r2.to_set(),
{
    if g.contains_key(start) {
        lemma_traversal_exactly_reachable(g, start, r1);
        lemma_traversal_exactly_reachable(g, start, r2);
    } else {
        assert(r1.len() == 0 && r2.len() == 0);
    }
    assert forall|b: u32| #[trigger] r1.contains(b) == r2.contains(b) by {
        if g.contains_key(start) {
            if r1.contains(b) {
                assert(reachable(g, start, b));
                assert(r2.contains(b));
            }
            if r2.contains(b) {
                assert(reachable(g, start, b));
                assert(r1.contains(b));
            }
        }
    }
    assert forall|b: u32| #[trigger] r1.to_set().contains(b) == r2.to_set().contains(b) by {
        assert(r1.to_set().contains(b) <==> r1.contains(b));
        assert(r2.to_set().contains(b) <==> r2.contains(b));
    }
    assert(r1.to_set() =~= r2.to_set());
}

/// Growing a graph only ever grows what is reachable: every node
/// reachable before new edges are appended is still reachable after.
pub proof fn lemma_reachable_monotone(g1: Map<u32, Seq<u32>>, g2: Map<u32, Seq<u32>>, start: u32)
    requires
        forall|a: u32| #[trigger] g1.contains_key(a) ==> g2.contains_key(a) && g1[a].is_prefix_of(
            g2[a],
        ),
    ensures
        forall|b: u32| #[trigger] reachable(g1, start, b) ==> reachable(g2, start, b),
{
    assert forall|b: u32| #[trigger] reachable(g1, start, b) implies reachable(g2, start, b) by {
        let p = choose|p: Seq<u32>| is_path(g1, p) && p.first() == start && p.last() == b;
        assert forall|i: int| 0 <= i < p.len() - 1 implies edge_to(g2, #[trigger] p[i], p[i + 1]) by {
            assert(edge_to(g1, p[i], p[i + 1]));
            let k = choose|k: int| 0 <= k < g1[p[i]].len() && g1[p[i]][k] == p[i + 1];
            assert(g2[p[i]][k] == p[i + 1]);
            assert(g2[p[i]].contains(p[i + 1]));
        }
        assert(is_path(g2, p));
    }
}

} // verus!
