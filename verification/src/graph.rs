//! The mathematical graph that a search runs on: edges, paths and their costs.

use vstd::prelude::*;

verus! {

/// An implicitly defined directed graph with non-negative edge costs, a
/// heuristic estimate of the remaining cost, and a goal predicate.
pub struct Graph {
    /// The outgoing edges of a node, each as (neighbor, edge cost).
    pub successors: spec_fn(u64) -> Seq<(u64, u64)>,
    /// The estimated cost from a node to the nearest goal.
    pub heuristic: spec_fn(u64) -> u64,
    /// Whether a node is a goal.
    pub success: spec_fn(u64) -> bool,
}

/// `c` is the least cost among the edges in `edges` that lead to `to`.
pub open spec fn is_cheapest(edges: Seq<(u64, u64)>, to: u64, c: u64) -> bool {
    &&& exists|j: int| 0 <= j < edges.len() && #[trigger] edges[j] == (to, c)
    &&& forall|j: int| 0 <= j < edges.len() && (#[trigger] edges[j]).0 == to ==> c <= edges[j].1
}

impl Graph {
    pub open spec fn edges(self, n: u64) -> Seq<(u64, u64)> {
        (self.successors)(n)
    }

    pub open spec fn h(self, n: u64) -> u64 {
        (self.heuristic)(n)
    }

    pub open spec fn is_goal(self, n: u64) -> bool {
        (self.success)(n)
    }

    pub open spec fn has_edge(self, from: u64, to: u64) -> bool {
        exists|j: int| 0 <= j < self.edges(from).len() && (#[trigger] self.edges(from)[j]).0 == to
    }

    /// The cost of a cheapest edge between two adjacent nodes.
    pub open spec fn edge_cost(self, from: u64, to: u64) -> u64 {
        choose|c: u64| is_cheapest(self.edges(from), to, c)
    }

    /// A non-empty node sequence in which each node has an edge to the next.
    pub open spec fn is_path(self, p: Seq<u64>) -> bool {
        &&& p.len() > 0
        &&& forall|i: int| 0 <= i < p.len() - 1 ==> self.has_edge(#[trigger] p[i], p[i + 1])
    }

    /// The sum of the cheapest edge costs between consecutive nodes of `p`.
    pub open spec fn path_cost(self, p: Seq<u64>) -> nat
        decreases p.len(),
    {
        if p.len() <= 1 {
            0
        } else {
            self.edge_cost(p[0], p[1]) as nat + self.path_cost(p.drop_first())
        }
    }

    pub open spec fn is_path_from(self, start: u64, p: Seq<u64>) -> bool {
        self.is_path(p) && p[0] == start
    }

    /// A path from `start` that ends in a goal node.
    pub open spec fn is_goal_path(self, start: u64, p: Seq<u64>) -> bool {
        self.is_path_from(start, p) && self.is_goal(p.last())
    }

    /// A path from `start` that visits no node twice.
    pub open spec fn is_simple_path(self, start: u64, p: Seq<u64>) -> bool {
        self.is_path_from(start, p) && p.no_duplicates()
    }

    pub open spec fn reachable(self, start: u64, n: u64) -> bool {
        exists|p: Seq<u64>| #[trigger] self.is_path_from(start, p) && p.last() == n
    }

    pub open spec fn goal_reachable(self, start: u64) -> bool {
        exists|p: Seq<u64>| #[trigger] self.is_goal_path(start, p)
    }

    /// The heuristic never exceeds the cost of any path to a goal.
    pub open spec fn admissible(self) -> bool {
        forall|p: Seq<u64>|
            #[trigger] self.is_path(p) && self.is_goal(p.last()) ==> self.h(p[0]) <= self.path_cost(p)
    }

    /// The heuristic obeys the triangle inequality across every edge.
    pub open spec fn consistent(self) -> bool {
        forall|n: u64, j: int|
            0 <= j < self.edges(n).len() ==> self.h(n) <= (#[trigger] self.edges(n)[j]).1 + self.h(
                self.edges(n)[j].0,
            )
    }

    /// Every sum that a search from `start` can form fits in a `u64`: the cost
    /// of a simple path, plus one more edge, plus the heuristic at its end.
    pub open spec fn costs_fit(self, start: u64) -> bool {
        forall|p: Seq<u64>, j: int|
            #[trigger] self.is_simple_path(start, p) && 0 <= j < self.edges(p.last()).len()
                ==> self.path_cost(p) + (#[trigger] self.edges(p.last())[j]).1 + self.h(
                self.edges(p.last())[j].0,
            ) <= u64::MAX
    }
}

proof fn lemma_cheapest_among(edges: Seq<(u64, u64)>, to: u64, n: int) -> (c: u64)
    requires
        0 <= n <= edges.len(),
        exists|j: int| 0 <= j < n && (#[trigger] edges[j]).0 == to,
    ensures
        exists|j: int| 0 <= j < n && #[trigger] edges[j] == (to, c),
        forall|j: int| 0 <= j < n && (#[trigger] edges[j]).0 == to ==> c <= edges[j].1,
    decreases n,
{
    let last = edges[n - 1];
    if exists|j: int| 0 <= j < n - 1 && (#[trigger] edges[j]).0 == to {
        let c0 = lemma_cheapest_among(edges, to, n - 1);
        if last.0 == to && last.1 < c0 {
            assert(edges[n - 1] == (to, last.1));
            last.1
        } else {
            c0
        }
    } else {
        assert(last.0 == to);
        assert(edges[n - 1] == (to, last.1));
        last.1
    }
}

/// Between adjacent nodes, `edge_cost` is the cost of an edge that exists and
/// no other edge between them is cheaper.
pub proof fn lemma_edge_cost(g: Graph, from: u64, to: u64)
    requires
        g.has_edge(from, to),
    ensures
        is_cheapest(g.edges(from), to, g.edge_cost(from, to)),
{
    let c = lemma_cheapest_among(g.edges(from), to, g.edges(from).len() as int);
    assert(is_cheapest(g.edges(from), to, c));
}

/// Appending a node to a path adds the cost of the edge that leads to it.
pub proof fn lemma_path_cost_push(g: Graph, p: Seq<u64>, n: u64)
    requires
        p.len() > 0,
    ensures
        g.path_cost(p.push(n)) == g.path_cost(p) + g.edge_cost(p.last(), n),
    decreases p.len(),
{
    let q = p.push(n);
    if p.len() == 1 {
        assert(q.drop_first().len() == 1);
        assert(g.path_cost(q.drop_first()) == 0);
        assert(g.path_cost(q) == g.edge_cost(q[0], q[1]) as nat + g.path_cost(q.drop_first()));
    } else {
        assert(q.drop_first() =~= p.drop_first().push(n));
        lemma_path_cost_push(g, p.drop_first(), n);
        assert(g.path_cost(q) == g.edge_cost(q[0], q[1]) as nat + g.path_cost(q.drop_first()));
        assert(p.drop_first().last() == p.last());
    }
}

/// Appending a neighbor of its last node to a path gives a path.
pub proof fn lemma_path_push(g: Graph, p: Seq<u64>, n: u64)
    requires
        g.is_path(p),
        g.has_edge(p.last(), n),
    ensures
        g.is_path(p.push(n)),
{
    let q = p.push(n);
    assert forall|i: int| 0 <= i < q.len() - 1 implies g.has_edge(#[trigger] q[i], q[i + 1]) by {
        if i < p.len() - 1 {
            assert(q[i] == p[i] && q[i + 1] == p[i + 1]);
        }
    }
}

} // verus!
