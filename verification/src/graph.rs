use std::collections::HashMap;
use std::collections::HashSet;
use std::collections::VecDeque;

use vstd::prelude::*;

use crate::edge::Edge;
use crate::reach::adj_seq;
use crate::reach::bfs_from;
use crate::reach::bfs_seq;
use crate::reach::discovery_order;
use crate::reach::fresh_sinks;
use crate::reach::distinct_seq;
use crate::reach::edge_closed;
use crate::reach::edge_to;
use crate::reach::lemma_node_universe_finite;
use crate::reach::node_universe;
use crate::reach::sink_set;
use crate::reach::valid_traversal;
use vstd::set_lib::lemma_len_subset;

verus! {

broadcast use vstd::std_specs::hash::group_hash_axioms;

/// How many sinks `n` owns in `g` (none if it owns no entry).
pub open spec fn adj_len(g: Map<u32, Seq<u32>>, n: u32) -> int {
    if g.contains_key(n) {
        g[n].len() as int
    } else {
        0
    }
}

/// Every sink of `n` is already a member of `vs`.
pub open spec fn all_sinks_visited(g: Map<u32, Seq<u32>>, n: u32, vs: Set<u32>) -> bool {
    g.contains_key(n) ==> forall|k: int| 0 <= k < g[n].len() ==> vs.contains(#[trigger] g[n][k])
}

/// Some stack frame carries node `n`.
pub open spec fn stack_has(s: Seq<(u32, usize)>, n: u32) -> bool {
    exists|f: int| 0 <= f < s.len() && (#[trigger] s[f]).0 == n
}

/// How much work the depth-first stack still owes: one unit per frame
/// plus one per sink the frame has not yet examined.
pub open spec fn stack_weight(g: Map<u32, Seq<u32>>, s: Seq<(u32, usize)>) -> int
    decreases s.len(),
{
    if s.len() == 0 {
        0
    } else {
        stack_weight(g, s.drop_last()) + adj_len(g, s.last().0) + 1 - s.last().1
    }
}

pub proof fn lemma_stack_weight_nonneg(g: Map<u32, Seq<u32>>, s: Seq<(u32, usize)>)
    requires
        forall|f: int| 0 <= f < s.len() ==> 0 <= (#[trigger] s[f]).1 <= adj_len(g, s[f].0),
    ensures
        stack_weight(g, s) >= 0,
    decreases s.len(),
{
    if s.len() > 0 {
        let t = s.drop_last();
        assert forall|f: int| 0 <= f < t.len() implies 0 <= (#[trigger] t[f]).1 <= adj_len(
            g,
            t[f].0,
        ) by {
            assert(t[f] == s[f]);
        }
        lemma_stack_weight_nonneg(g, t);
        assert(s[s.len() - 1].1 <= adj_len(g, s.last().0));
    }
}

/// An adjacency-list container over unweighted edges. A node owns an
/// entry if and only if at least one edge has been added with it as
/// source; sink-only nodes are visitable during traversal but own no
/// entry of their own.
pub struct Graph {
    adjacency_list: HashMap<u32, Vec<u32>>,
}

impl View for Graph {
    type V = Map<u32, Seq<u32>>;

    /// The abstract graph: each source node maps to the sequence of the
    /// sinks of its edges, in insertion order.
    closed spec fn view(&self) -> Map<u32, Seq<u32>> {
        self.adjacency_list@.map_values(|v: Vec<u32>| v@)
    }
}

impl Graph {
    /// An empty graph: no node owns an adjacency entry.
    pub fn new() -> (g: Graph)
        ensures
            g@ == Map::<u32, Seq<u32>>::empty(),
    {
        let g = Graph { adjacency_list: HashMap::new() };
        proof {
            assert(g@ =~= Map::<u32, Seq<u32>>::empty());
        }
        g
    }

    /// Read-only access to the underlying adjacency mapping.
    pub fn get_adjacent_list(&self) -> (m: &HashMap<u32, Vec<u32>>)
        ensures
            m@.dom() =~= self@.dom(),
            forall|k: u32| #[trigger] m@.contains_key(k) ==> m@[k]@ == self@[k],
    {
        &self.adjacency_list
    }

    /// Appends the edge's sink to the sequence keyed by its source,
    /// creating the key if it is absent. Any two node values are
    /// accepted; duplicate edges accumulate.
    pub fn add_edge(&mut self, edge: Edge<u32>)
        ensures
            final(self)@ == (if old(self)@.contains_key(edge.spec_source()) {
                old(self)@.insert(
                    edge.spec_source(),
                    old(self)@[edge.spec_source()].push(edge.spec_sink()),
                )
            } else {
                old(self)@.insert(edge.spec_source(), seq![edge.spec_sink()])
            }),
    {
        let source = edge.get_source();
        let sink = edge.get_sink();
        let mut sinks: Vec<u32> = match self.adjacency_list.remove(&source) {
            Some(v) => v,
            None => Vec::new(),
        };
        sinks.push(sink);
        self.adjacency_list.insert(source, sinks);
        proof {
            if old(self)@.contains_key(source) {
                assert(self@ =~= old(self)@.insert(source, old(self)@[source].push(sink)));
            } else {
                assert(self@ =~= old(self)@.insert(source, seq![sink]));
            }
        }
    }

    /// Breadth-first traversal from `start`. A start node that owns no
    /// adjacency entry yields the empty sequence; otherwise the result
    /// lists each node reachable from `start` exactly once, in the order
    /// first reached.
    #[verifier::rlimit(100)]
    pub fn bfs(&self, start: u32) -> (result: Vec<u32>)
        ensures
            valid_traversal(self@, start, result@),
            result@ == bfs_seq(self@, start),
    {
        let mut result = Vec::<u32>::new();
        let mut queue = VecDeque::<u32>::new();
        let mut set = HashSet::<u32>::new();

        if !self.adjacency_list.contains_key(&start) {
            proof {
                assert(!self@.contains_key(start));
                assert(result@ =~= Seq::<u32>::empty());
            }
            return result;
        }

        queue.push_back(start);
        set.insert(start);
        let ghost mut d: Seq<u32> = seq![start];
        let ghost u = node_universe(self@);
        proof {
            assert(self@.dom() =~= self.adjacency_list@.dom());
            lemma_node_universe_finite(self@);
            assert(u.contains(start));
            seq![start].unique_seq_to_set();
            assert(d.to_set().subset_of(u));
            lemma_len_subset(d.to_set(), u);
            assert(bfs_from(self@, d, 0) == bfs_seq(self@, start));
        }

        while queue.len() != 0
            invariant
                self@.contains_key(start),
                self@.dom().finite(),
                u == node_universe(self@),
                u.finite(),
                bfs_from(self@, d, result@.len() as int) == bfs_seq(self@, start),
                d == result@ + queue@,
                d.len() >= 1,
                d[0] == start,
                distinct_seq(d),
                discovery_order(self@, d),
                forall|b: u32| d.contains(b) ==> u.contains(b),
                d.len() <= u.len(),
                forall|b: u32| set@.contains(b) <==> d.contains(b),
                forall|i: int, b: u32|
                    0 <= i < result@.len() && #[trigger] edge_to(self@, result@[i], b)
                        ==> set@.contains(b),
            decreases u.len() - d.len(), queue@.len(),
        {
            let ghost d_head = d;
            let popped = match queue.pop_front() {
                Some(p) => p,
                None => {
                    proof {
                        assert(false);
                    }
                    start
                },
            };
            result.push(popped);
            let ghost i0 = result@.len() - 1;
            proof {
                assert(d =~= result@ + queue@);
                assert(d[i0] == popped);
            }
            let ghost d_arm = d;

            match self.adjacency_list.get(&popped) {
                Some(nodes) => {
                    let ghost r_now = result@;
                    proof {
                        assert(nodes@.skip(0) =~= nodes@);
                        assert(d + fresh_sinks(nodes@.skip(0), d) == d_arm + fresh_sinks(
                            nodes@,
                            d_arm,
                        ));
                    }
                    let mut k: usize = 0;
                    while k < nodes.len()
                        invariant
                            self@.contains_key(start),
                            self@.contains_key(popped),
                            self@.dom().finite(),
                            u == node_universe(self@),
                            u.finite(),
                            bfs_from(self@, d_arm, i0) == bfs_seq(self@, start),
                            0 <= i0 < d_arm.len(),
                            d_arm[i0] == popped,
                            i0 == result@.len() - 1,
                            d + fresh_sinks(nodes@.skip(k as int), d) == d_arm + fresh_sinks(
                                nodes@,
                                d_arm,
                            ),
                            nodes@ == self@[popped],
                            k <= nodes.len(),
                            result@ == r_now,
                            r_now.len() >= 1,
                            r_now.last() == popped,
                            d == result@ + queue@,
                            d[0] == start,
                            d.len() >= d_head.len(),
                            distinct_seq(d),
                            discovery_order(self@, d),
                            forall|b: u32| d.contains(b) ==> u.contains(b),
                            d.len() <= u.len(),
                            forall|b: u32| set@.contains(b) <==> d.contains(b),
                            forall|i: int, b: u32|
                                0 <= i < result@.len() - 1 && #[trigger] edge_to(
                                    self@,
                                    result@[i],
                                    b,
                                ) ==> set@.contains(b),
                            forall|idx: int| 0 <= idx < k ==> set@.contains(#[trigger] nodes@[idx]),
                        decreases nodes.len() - k,
                    {
                        let node = nodes[k];
                        if !set.contains(&node) {
                            queue.push_back(node);
                            set.insert(node);
                            proof {
                                assert(!d.contains(node));
                                let dn = d.push(node);
                                assert(dn =~= result@ + queue@);
                                assert(self@[popped][k as int] == node);
                                assert(self@[popped].contains(node));
                                assert(edge_to(self@, popped, node));
                                assert(sink_set(self@).contains(node));
                                assert(u.contains(node));
                                let j = result@.len() - 1;
                                assert(d[j] == popped);
                                assert(!d.contains(node));
                                crate::reach::lemma_discovery_push(self@, d, j, node);
                                assert forall|b: u32| dn.contains(b) implies u.contains(b) by {
                                    assert(d.contains(b) || b == node);
                                }
                                crate::reach::lemma_distinct_in_set_len(dn, u);
                                assert forall|b: u32| set@.contains(b) <==> dn.contains(b) by {
                                    assert(dn.contains(b) <==> d.contains(b) || b == node);
                                }
                                assert(nodes@.skip(k as int)[0] == nodes@[k as int]);
                                assert(nodes@.skip(k as int).drop_first() =~= nodes@.skip(
                                    k as int + 1,
                                ));
                                assert(fresh_sinks(nodes@.skip(k as int), d) == seq![node]
                                    + fresh_sinks(nodes@.skip(k as int + 1), d.push(node)));
                                assert(d + (seq![node] + fresh_sinks(
                                    nodes@.skip(k as int + 1),
                                    dn,
                                )) =~= dn + fresh_sinks(nodes@.skip(k as int + 1), dn));
                                d = dn;
                            }
                        } else {
                            proof {
                                assert(d.contains(node));
                                assert(nodes@.skip(k as int)[0] == nodes@[k as int]);
                                assert(nodes@.skip(k as int).drop_first() =~= nodes@.skip(
                                    k as int + 1,
                                ));
                                assert(fresh_sinks(nodes@.skip(k as int), d) == fresh_sinks(
                                    nodes@.skip(k as int + 1),
                                    d,
                                ));
                            }
                        }
                        k += 1;
                    }
                    proof {
                        assert forall|b: u32| #[trigger] edge_to(self@, popped, b) implies
                            set@.contains(b) by {
                            let k2 = choose|k2: int|
                                0 <= k2 < self@[popped].len() && self@[popped][k2] == b;
                            assert(nodes@[k2] == b);
                        }
                        assert(nodes@.skip(nodes@.len() as int) =~= Seq::<u32>::empty());
                        assert(d + Seq::<u32>::empty() =~= d);
                        assert(d == d_arm + fresh_sinks(nodes@, d_arm));
                        assert(adj_seq(self@, popped) == nodes@);
                        assert(bfs_from(self@, d_arm, i0) == bfs_from(
                            self@,
                            d_arm + fresh_sinks(adj_seq(self@, d_arm[i0]), d_arm),
                            i0 + 1,
                        ));
                        assert(bfs_from(self@, d, result@.len() as int) == bfs_seq(self@, start));
                    }
                },
                None => {
                    proof {
                        assert(!self@.contains_key(popped));
                        assert(adj_seq(self@, popped) =~= Seq::<u32>::empty());
                        assert(fresh_sinks(adj_seq(self@, d_arm[i0]), d_arm)
                            =~= Seq::<u32>::empty());
                        assert(d_arm + fresh_sinks(adj_seq(self@, d_arm[i0]), d_arm) =~= d);
                        assert(bfs_from(self@, d_arm, i0) == bfs_from(
                            self@,
                            d_arm + fresh_sinks(adj_seq(self@, d_arm[i0]), d_arm),
                            i0 + 1,
                        ));
                        assert(bfs_from(self@, d, result@.len() as int) == bfs_seq(self@, start));
                    }
                },
            }
        }
        proof {
            assert(d =~= result@);
            assert forall|i: int, b: u32|
                0 <= i < result@.len() && #[trigger] edge_to(self@, result@[i], b)
                    implies result@.contains(b) by {
                assert(set@.contains(b));
                assert(d.contains(b));
            }
            assert(result@.len() == d.len());
            assert(bfs_from(self@, d, d.len() as int) == d);
            assert(result@ == bfs_seq(self@, start));
        }
        result
    }

    /// Depth-first pre-order traversal from `start`, driven by an
    /// explicit stack of (node, next-sink-index) frames so the depth of
    /// recursion never exceeds the explicit stack. Same empty-start
    /// handling and same visit-each-reachable-node-once guarantee as
    /// `bfs`; only the order differs.
    #[verifier::rlimit(100)]
    pub fn dfs(&self, start: u32) -> (result: Vec<u32>)
        ensures
            valid_traversal(self@, start, result@),
    {
        let mut result = Vec::<u32>::new();
        let mut set = HashSet::<u32>::new();

        if !self.adjacency_list.contains_key(&start) {
            return result;
        }

        set.insert(start);
        result.push(start);
        let mut stack = Vec::<(u32, usize)>::new();
        stack.push((start, 0));
        let ghost u = node_universe(self@);
        proof {
            assert(self@.dom() =~= self.adjacency_list@.dom());
            lemma_node_universe_finite(self@);
            assert(u.contains(start));
            assert(result@.no_duplicates());
            result@.unique_seq_to_set();
            assert forall|b: u32| result@.to_set().contains(b) implies u.contains(b) by {
                assert(result@.contains(b));
                assert(result@[0] == b);
            }
            lemma_len_subset(result@.to_set(), u);
            assert(result@[0] == start);
            assert(result@.contains(start));
            assert(stack@.len() == 1);
            assert(stack@[0] == (start, 0usize));
            assert(stack_has(stack@, start));
        }

        while stack.len() != 0
            invariant
                self@.contains_key(start),
                u == node_universe(self@),
                u.finite(),
                forall|b: u32| result@.contains(b) ==> u.contains(b),
                result@.len() <= u.len(),
                result@.len() >= 1,
                result@[0] == start,
                distinct_seq(result@),
                discovery_order(self@, result@),
                forall|b: u32| set@.contains(b) <==> result@.contains(b),
                forall|f: int|
                    0 <= f < stack@.len() ==> result@.contains((#[trigger] stack@[f]).0),
                forall|f1: int, f2: int|
                    0 <= f1 < f2 < stack@.len() ==> stack@[f1].0 != stack@[f2].0,
                forall|f: int|
                    0 <= f < stack@.len() ==> 0 <= (#[trigger] stack@[f]).1 <= adj_len(
                        self@,
                        stack@[f].0,
                    ),
                forall|f: int, k: int|
                    #![trigger set@.contains(self@[stack@[f].0][k])]
                    0 <= f < stack@.len() && self@.contains_key(stack@[f].0) && 0 <= k
                        < stack@[f].1 ==> set@.contains(self@[stack@[f].0][k]),
                forall|i: int|
                    0 <= i < result@.len() ==> stack_has(stack@, result@[i]) || all_sinks_visited(
                        self@,
                        #[trigger] result@[i],
                        set@,
                    ),
            decreases u.len() - result@.len(), stack_weight(self@, stack@),
        {
            let ghost pre = stack@;
            let (n, idx) = match stack.pop() {
                Some(f) => f,
                None => {
                    proof {
                        assert(false);
                    }
                    (start, 0)
                },
            };
            let ghost s0 = stack@;
            proof {
                assert(pre =~= s0.push((n, idx)));
                assert(pre.drop_last() =~= s0);
                assert(stack_weight(self@, pre) == stack_weight(self@, s0) + adj_len(self@, n) + 1
                    - idx);
            }

            let elen: usize = match self.adjacency_list.get(&n) {
                Some(nodes) => nodes.len(),
                None => 0,
            };
            proof {
                assert(elen as int == adj_len(self@, n));
            }

            if idx < elen {
                stack.push((n, idx + 1));
                let nodes = match self.adjacency_list.get(&n) {
                    Some(nodes) => nodes,
                    None => {
                        proof {
                            assert(false);
                        }
                        return result;
                    },
                };
                let node = nodes[idx];
                proof {
                    assert(self@[n][idx as int] == node);
                    assert(self@[n].contains(node));
                    assert(edge_to(self@, n, node));
                    assert(sink_set(self@).contains(node));
                    assert(u.contains(node));
                }
                if !set.contains(&node) {
                    let ghost r0 = result@;
                    let ghost v0 = set@;
                    set.insert(node);
                    result.push(node);
                    stack.push((node, 0));
                    proof {
                        let r = result@;
                        assert(r.last() == node);
                        assert(pre[pre.len() - 1].0 == n);
                        assert(r0.contains(n));
                        let j = choose|j: int| 0 <= j < r0.len() && r0[j] == n;
                        assert(!r0.contains(node));
                        crate::reach::lemma_discovery_push(self@, r0, j, node);
                        assert forall|b: u32| set@.contains(b) <==> r.contains(b) by {
                            assert(r.contains(b) <==> r0.contains(b) || b == node);
                        }
                        assert forall|i: int|
                            0 <= i < result@.len() implies stack_has(stack@, result@[i])
                            || all_sinks_visited(self@, #[trigger] result@[i], set@) by {
                            if i < r0.len() {
                                assert(result@[i] == r0[i]);
                                if stack_has(pre, r0[i]) {
                                    let f = choose|f: int|
                                        0 <= f < pre.len() && (#[trigger] pre[f]).0 == r0[i];
                                    if f < s0.len() {
                                        assert(stack@[f] == s0[f]);
                                        assert(stack@[f].0 == r0[i]);
                                    } else {
                                        assert(pre[f].0 == n);
                                        assert(stack@[s0.len() as int].0 == n);
                                    }
                                    assert(stack_has(stack@, result@[i]));
                                }
                            } else {
                                assert(result@[i] == node);
                                assert(stack@[stack@.len() - 1].0 == node);
                                assert(stack_has(stack@, result@[i]));
                            }
                        }
                        assert(u.contains(node));
                        assert forall|b: u32| r.contains(b) implies u.contains(b) by {
                            let i = choose|i: int| 0 <= i < r.len() && r[i] == b;
                            if i < r0.len() {
                                assert(r0[i] == b);
                                assert(r0.contains(b));
                            } else {
                                assert(b == node);
                            }
                        }
                        assert(r.no_duplicates());
                        r.unique_seq_to_set();
                        assert forall|b: u32| r.to_set().contains(b) implies u.contains(b) by {
                            assert(r.contains(b));
                        }
                        lemma_len_subset(r.to_set(), u);
                        assert(result@.len() <= u.len());
                        assert forall|f: int|
                            0 <= f < stack@.len() implies r.contains(
                            (#[trigger] stack@[f]).0,
                        ) by {
                            if f < s0.len() {
                                assert(stack@[f] == pre[f]);
                                assert(r0.contains(pre[f].0));
                                let i2 = choose|i2: int|
                                    0 <= i2 < r0.len() && r0[i2] == pre[f].0;
                                assert(r[i2] == stack@[f].0);
                            } else if f == s0.len() {
                                assert(stack@[f].0 == n);
                                assert(pre[pre.len() - 1].0 == n);
                                assert(r0.contains(n));
                                let i2 = choose|i2: int| 0 <= i2 < r0.len() && r0[i2] == n;
                                assert(r[i2] == stack@[f].0);
                            } else {
                                assert(stack@[f].0 == node);
                                assert(r[r.len() - 1] == node);
                            }
                        }
                        assert forall|f1: int, f2: int|
                            0 <= f1 < f2 < stack@.len() implies stack@[f1].0 != stack@[f2].0 by {
                            if f2 <= s0.len() {
                                assert(stack@[f1].0 == pre[f1].0);
                                assert(stack@[f2].0 == pre[f2].0);
                            } else {
                                assert(stack@[f2].0 == node);
                                assert(stack@[f1].0 == pre[f1].0);
                                assert(r0.contains(pre[f1].0));
                                assert(v0.contains(pre[f1].0));
                            }
                        }
                    }
                } else {
                    proof {
                        assert forall|i: int|
                            0 <= i < result@.len() implies stack_has(stack@, result@[i])
                            || all_sinks_visited(self@, #[trigger] result@[i], set@) by {
                            if stack_has(pre, result@[i]) {
                                let f = choose|f: int|
                                    0 <= f < pre.len() && (#[trigger] pre[f]).0 == result@[i];
                                if f < s0.len() {
                                    assert(stack@[f] == s0[f]);
                                    assert(stack@[f].0 == result@[i]);
                                } else {
                                    assert(pre[f].0 == n);
                                    assert(stack@[s0.len() as int].0 == n);
                                }
                                assert(stack_has(stack@, result@[i]));
                            }
                        }
                        assert(stack@.drop_last() =~= s0);
                        assert(stack_weight(self@, stack@) == stack_weight(self@, s0) + adj_len(
                            self@,
                            n,
                        ) + 1 - (idx + 1));
                        assert forall|f: int|
                            0 <= f < stack@.len() implies 0 <= (#[trigger] stack@[f]).1 <= adj_len(
                            self@,
                            stack@[f].0,
                        ) by {
                            if f < s0.len() {
                                assert(stack@[f] == pre[f]);
                            }
                        }
                        lemma_stack_weight_nonneg(self@, stack@);
                        assert(stack_weight(self@, stack@) == stack_weight(self@, pre) - 1);
                        assert forall|f: int|
                            0 <= f < stack@.len() implies result@.contains(
                            (#[trigger] stack@[f]).0,
                        ) by {
                            assert(stack@[f].0 == pre[f].0);
                        }
                        assert forall|f1: int, f2: int|
                            0 <= f1 < f2 < stack@.len() implies stack@[f1].0 != stack@[f2].0 by {
                            assert(stack@[f1].0 == pre[f1].0);
                            assert(stack@[f2].0 == pre[f2].0);
                        }
                    }
                }
            } else {
                proof {
                    assert(idx as int == adj_len(self@, n));
                    assert(all_sinks_visited(self@, n, set@));
                    assert(stack_weight(self@, pre) == stack_weight(self@, stack@) + 1);
                    assert forall|f: int|
                        0 <= f < stack@.len() implies 0 <= (#[trigger] stack@[f]).1 <= adj_len(
                        self@,
                        stack@[f].0,
                    ) by {
                        assert(stack@[f] == pre[f]);
                    }
                    lemma_stack_weight_nonneg(self@, stack@);
                    assert forall|f: int|
                        0 <= f < stack@.len() implies result@.contains(
                        (#[trigger] stack@[f]).0,
                    ) by {
                        assert(stack@[f] == pre[f]);
                    }
                    assert forall|i: int|
                        0 <= i < result@.len() implies stack_has(stack@, result@[i])
                        || all_sinks_visited(self@, #[trigger] result@[i], set@) by {
                        if result@[i] != n && stack_has(pre, result@[i]) {
                            let f = choose|f: int|
                                0 <= f < pre.len() && (#[trigger] pre[f]).0 == result@[i];
                            assert(f < s0.len());
                            assert(stack@[f] == s0[f]);
                            assert(stack_has(stack@, result@[i]));
                        }
                    }
                }
            }
        }
        proof {
            assert forall|i: int, b: u32|
                0 <= i < result@.len() && #[trigger] edge_to(self@, result@[i], b)
                    implies result@.contains(b) by {
                assert(all_sinks_visited(self@, result@[i], set@));
                let k = choose|k: int| 0 <= k < self@[result@[i]].len() && self@[result@[i]][k] == b;
                assert(set@.contains(b));
            }
        }
        result
    }
}

} // verus!
