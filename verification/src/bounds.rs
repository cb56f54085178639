//! A way to see that the sums of a search fit: bounds on the edge costs, on
//! the heuristic, and on the number of nodes that have edges.

use vstd::prelude::*;
use vstd::set_lib::lemma_len_subset;
use crate::graph::Graph;
use crate::graph::lemma_edge_cost;

verus! {

/// A path costs at most the bound on an edge's cost for each of its edges.
pub proof fn lemma_path_cost_bound(g: Graph, p: Seq<u64>, max_cost: nat)
    requires
        g.is_path(p),
        forall|n: u64, j: int| 0 <= j < g.edges(n).len() ==> (#[trigger] g.edges(n)[j]).1 <= max_cost,
    ensures
        g.path_cost(p) <= (p.len() - 1) * max_cost,
    decreases p.len(),
{
    if p.len() > 1 {
        let q = p.drop_first();
        assert forall|i: int| 0 <= i < q.len() - 1 implies g.has_edge(#[trigger] q[i], q[i + 1]) by {
            assert(q[i] == p[i + 1] && q[i + 1] == p[i + 2]);
        }
        lemma_path_cost_bound(g, q, max_cost);
        assert(g.has_edge(p[0], p[1]));
        lemma_edge_cost(g, p[0], p[1]);
        let c = g.edge_cost(p[0], p[1]);
        let j = choose|j: int| 0 <= j < g.edges(p[0]).len() && #[trigger] g.edges(p[0])[j] == (p[1], c);
        assert(g.edges(p[0])[j].1 <= max_cost);
        assert((p.len() - 1) * max_cost == (q.len() - 1) * max_cost + max_cost) by (nonlinear_arith)
            requires
                q.len() == p.len() - 1,
        ;
    } else {
        assert((p.len() - 1) * max_cost == 0) by (nonlinear_arith)
            requires
                p.len() == 1,
        ;
    }
}

/// Where every node that has an edge is in a finite set `sources`, every
/// edge costs at most `max_cost`, the heuristic is at most `max_estimate`,
/// and a path through all of `sources` could still take one more edge and the
/// heuristic without overflow, the sums of every search fit.
pub proof fn law_bounded_costs_fit(
    g: Graph,
    start: u64,
    sources: Set<u64>,
    max_cost: nat,
    max_estimate: nat,
)
    requires
        sources.finite(),
        forall|n: u64, j: int|
            0 <= j < g.edges(n).len() ==> sources.contains(n) && (#[trigger] g.edges(n)[j]).1
                <= max_cost,
        forall|n: u64| g.h(n) <= max_estimate,
        sources.len() * max_cost + max_cost + max_estimate <= u64::MAX,
    ensures
        g.costs_fit(start),
{
    assert forall|p: Seq<u64>, j: int|
        #[trigger] g.is_simple_path(start, p) && 0 <= j < g.edges(p.last()).len() implies g.path_cost(
        p,
    ) + (#[trigger] g.edges(p.last())[j]).1 + g.h(g.edges(p.last())[j].0) <= u64::MAX by {
        lemma_path_cost_bound(g, p, max_cost);
        let edge = g.edges(p.last())[j];
        assert(sources.contains(p.last()) && edge.1 <= max_cost);
        assert forall|i: int| 0 <= i < p.len() implies sources.contains(#[trigger] p[i]) by {
            if i < p.len() - 1 {
                assert(g.has_edge(p[i], p[i + 1]));
                let e = choose|e: int|
                    0 <= e < g.edges(p[i]).len() && (#[trigger] g.edges(p[i])[e]).0 == p[i + 1];
                assert(sources.contains(p[i]));
            }
        }
        p.unique_seq_to_set();
        assert(p.to_set().subset_of(sources)) by {
            assert forall|x: u64| p.to_set().contains(x) implies sources.contains(x) by {
                let i = choose|i: int| 0 <= i < p.len() && p[i] == x;
                assert(sources.contains(p[i]));
            }
        }
        lemma_len_subset(p.to_set(), sources);
        assert((p.len() - 1) * max_cost <= sources.len() * max_cost) by (nonlinear_arith)
            requires
                1 <= p.len() <= sources.len(),
        ;
    }
}

} // verus!
