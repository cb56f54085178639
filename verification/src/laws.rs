//! The laws of the search, stated of its result.

use vstd::prelude::*;
use crate::graph::Graph;
use crate::frontier::Entry;
use crate::frontier::is_least;
use crate::model::initial;
use crate::model::least;
use crate::model::run;
use crate::model::chain;
use crate::model::answer;
use crate::model::halts_within;
use crate::model::search;
use crate::model::lemma_search_is_answer;
use crate::invariants::entry_ok;
use crate::invariants::lemma_initial_inv;
use crate::invariants::lemma_least_exists;
use crate::invariants::lemma_least_unique;
use crate::invariants::lemma_run_inv;
use crate::outcome::lemma_chain_is_path;
use crate::outcome::lemma_exhausted;
use crate::outcome::lemma_least_is_cheapest;
use crate::outcome::lemma_search_halts;
use crate::outcome::lemma_rest_is_path;
use crate::graph::lemma_edge_cost;
use crate::tight::lemma_run_ordered;
use crate::tight::lemma_least_is_tight;

verus! {

/// A path is found exactly where a goal can be reached from the start.
pub proof fn law_found_iff_reachable(g: Graph, start: u64)
    requires
        g.costs_fit(start),
    ensures
        search(g, start).is_some() <==> g.goal_reachable(start),
{
    lemma_search_halts(g, start);
    let n = choose|n: nat| halts_within(g, start, n);
    let st = run(g, initial(g, start), n);
    lemma_run_inv(g, start, n);
    lemma_search_is_answer(g, start, n);
    if st.frontier.is_empty() {
        lemma_exhausted(g, start, st);
    } else {
        lemma_least_exists(st.frontier);
        let e = least(st.frontier);
        assert(entry_ok(g, st, e));
        lemma_chain_is_path(g, start, st, e.node);
        assert(g.is_goal_path(start, chain(st.came_from, e.node)));
    }
}

/// The path found leads from the start to a goal along edges of the graph,
/// and the cost returned with it is the sum of the costs of its edges,
/// whatever the heuristic.
pub proof fn law_path_is_valid(g: Graph, start: u64, path: Seq<u64>, cost: u64)
    requires
        g.costs_fit(start),
        search(g, start) == Some((path, cost)),
    ensures
        g.is_goal_path(start, path),
        g.path_cost(path) == cost,
{
    lemma_search_halts(g, start);
    let n = choose|n: nat| halts_within(g, start, n);
    let st = run(g, initial(g, start), n);
    lemma_run_inv(g, start, n);
    lemma_run_ordered(g, start, n);
    lemma_search_is_answer(g, start, n);
    lemma_least_exists(st.frontier);
    let e = least(st.frontier);
    assert(entry_ok(g, st, e));
    lemma_chain_is_path(g, start, st, e.node);
    lemma_least_is_tight(g, start, st);
}

/// Under an admissible heuristic no path from the start to a goal costs less
/// than the cost returned.
pub proof fn law_cost_is_least(g: Graph, start: u64, path: Seq<u64>, cost: u64, other: Seq<u64>)
    requires
        g.costs_fit(start),
        g.admissible(),
        search(g, start) == Some((path, cost)),
        g.is_goal_path(start, other),
    ensures
        cost <= g.path_cost(other),
{
    lemma_search_halts(g, start);
    let n = choose|n: nat| halts_within(g, start, n);
    let st = run(g, initial(g, start), n);
    lemma_run_inv(g, start, n);
    lemma_search_is_answer(g, start, n);
    lemma_least_is_cheapest(g, start, st, other);
}

/// A heuristic that is consistent and zero at every goal is admissible.
pub proof fn law_consistent_is_admissible(g: Graph)
    requires
        g.consistent(),
        forall|n: u64| g.is_goal(n) ==> g.h(n) == 0,
    ensures
        g.admissible(),
{
    assert forall|p: Seq<u64>| #[trigger] g.is_path(p) && g.is_goal(p.last()) implies g.h(p[0])
        <= g.path_cost(p) by {
        lemma_consistent_bound(g, p);
    }
}

proof fn lemma_consistent_bound(g: Graph, p: Seq<u64>)
    requires
        g.consistent(),
        forall|n: u64| g.is_goal(n) ==> g.h(n) == 0,
        g.is_path(p),
        g.is_goal(p.last()),
    ensures
        g.h(p[0]) <= g.path_cost(p),
    decreases p.len(),
{
    if p.len() > 1 {
        assert(g.has_edge(p[0], p[1]));
        lemma_edge_cost(g, p[0], p[1]);
        let c = g.edge_cost(p[0], p[1]);
        let j = choose|j: int| 0 <= j < g.edges(p[0]).len() && #[trigger] g.edges(p[0])[j] == (p[1], c);
        assert(g.h(p[0]) <= g.edges(p[0])[j].1 + g.h(g.edges(p[0])[j].0));
        lemma_rest_is_path(g, p, 1);
        assert(p.subrange(1, p.len() as int) =~= p.drop_first());
        lemma_consistent_bound(g, p.drop_first());
    }
}

/// A heuristic that is zero everywhere is admissible, so that with it the
/// search returns the least cost of any path to a goal, as a search by cost
/// alone does.
pub proof fn law_zero_heuristic(g: Graph, start: u64, path: Seq<u64>, cost: u64, other: Seq<u64>)
    requires
        g.costs_fit(start),
        forall|n: u64| g.h(n) == 0,
        search(g, start) == Some((path, cost)),
        g.is_goal_path(start, other),
    ensures
        g.admissible(),
        cost <= g.path_cost(other),
{
    assert(g.admissible());
    law_cost_is_least(g, start, path, cost, other);
}

/// Everything that the laws say of a result `r` of the search from `start`.
pub open spec fn is_result(g: Graph, start: u64, r: Option<(Seq<u64>, u64)>) -> bool {
    &&& r == search(g, start)
    &&& r.is_some() <==> g.goal_reachable(start)
    &&& g.is_goal(start) ==> r == Some((seq![start], 0u64))
    &&& r matches Some(found) ==> {
        &&& g.is_goal_path(start, found.0)
        &&& g.path_cost(found.0) == found.1
        &&& g.admissible() ==> forall|other: Seq<u64>| #[trigger]
            g.is_goal_path(start, other) ==> found.1 <= g.path_cost(other)
    }
}

/// The result of a search whose sums fit obeys every law.
pub proof fn lemma_search_is_result(g: Graph, start: u64)
    requires
        g.costs_fit(start),
    ensures
        is_result(g, start, search(g, start)),
{
    let r = search(g, start);
    law_found_iff_reachable(g, start);
    if g.is_goal(start) {
        law_start_is_goal(g, start);
    }
    if r.is_some() {
        let found = r.unwrap();
        law_path_is_valid(g, start, found.0, found.1);
        if g.admissible() {
            assert forall|other: Seq<u64>| #[trigger] g.is_goal_path(start, other) implies found.1
                <= g.path_cost(other) by {
                law_cost_is_least(g, start, found.0, found.1, other);
            }
        }
    }
}

/// Two results of the search on the same graph from the same start are the
/// same: the same path, node for node, and the same cost.
pub proof fn law_repeatable(
    g: Graph,
    start: u64,
    first: Option<(Seq<u64>, u64)>,
    second: Option<(Seq<u64>, u64)>,
)
    requires
        is_result(g, start, first),
        is_result(g, start, second),
    ensures
        first == second,
{
}

/// Where the start is itself a goal, the result is the path of the start
/// alone, at cost zero.
pub proof fn law_start_is_goal(g: Graph, start: u64)
    requires
        g.is_goal(start),
    ensures
        search(g, start) == Some((seq![start], 0u64)),
{
    let st = initial(g, start);
    let e0 = Entry { priority: g.h(start), seq: 0, node: start };
    lemma_initial_inv(g, start);
    assert(st.frontier.contains(e0));
    assert(is_least(st.frontier, e0));
    lemma_least_unique(g, st, e0);
    assert(halts_within(g, start, 0));
    lemma_search_is_answer(g, start, 0);
    assert(answer(st) == Some((chain(st.came_from, start), 0u64)));
}

} // verus!
