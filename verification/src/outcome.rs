//! What a halted state says of the graph: the path and cost it stands for,
//! and why a search always halts.

use vstd::prelude::*;
use crate::graph::Graph;
use crate::graph::lemma_edge_cost;
use crate::graph::lemma_path_push;
use crate::graph::lemma_path_cost_push;
use crate::frontier::Entry;
use crate::frontier::precedes;
use crate::model::State;
use crate::model::initial;
use crate::model::least;
use crate::model::halted;
use crate::model::step;
use crate::model::run;
use crate::model::rooted;
use crate::model::trail;
use crate::model::chain;
use crate::model::halts_within;
use crate::invariants::inv;
use crate::invariants::scores_ok;
use crate::invariants::links;
use crate::invariants::entry_ok;
use crate::invariants::is_open;
use crate::invariants::is_settled;
use crate::invariants::edge_done;
use crate::invariants::lemma_initial_inv;
use crate::invariants::lemma_least_exists;
use crate::invariants::lemma_step;
use crate::potential::potential;
use crate::potential::lemma_potential_nonnegative;

verus! {

/// The trail of a scored node is a path from the start to it that costs no
/// more than its score.
pub proof fn lemma_trail_is_path(g: Graph, start: u64, st: State, n: u64, k: nat)
    requires
        scores_ok(g, start, st),
        st.g_score.contains_key(n),
        rooted(st.came_from, n, k),
    ensures
        g.is_path_from(start, trail(st.came_from, n, k)),
        trail(st.came_from, n, k).last() == n,
        g.path_cost(trail(st.came_from, n, k)) <= st.g_score[n],
    decreases k,
{
    if st.came_from.contains_key(n) {
        let c = st.came_from[n];
        assert(links(g, st, n));
        lemma_trail_is_path(g, start, st, c, (k - 1) as nat);
        let q = trail(st.came_from, c, (k - 1) as nat);
        lemma_path_push(g, q, n);
        lemma_path_cost_push(g, q, n);
        assert(q.push(n)[0] == q[0]);
    } else {
        assert(n == start);
        assert(g.path_cost(seq![n]) == 0);
    }
}

/// The recorded path of a scored node leads from the start to it and costs no
/// more than its score.
pub proof fn lemma_chain_is_path(g: Graph, start: u64, st: State, n: u64)
    requires
        inv(g, start, st),
        st.g_score.contains_key(n),
    ensures
        g.is_path_from(start, chain(st.came_from, n)),
        chain(st.came_from, n).last() == n,
        g.path_cost(chain(st.came_from, n)) <= st.g_score[n],
{
    let k = choose|k: nat| rooted(st.came_from, n, k);
    lemma_trail_is_path(g, start, st, n, k);
}

/// Every scored node can be reached from the start.
pub proof fn lemma_scored_is_reachable(g: Graph, start: u64, st: State, n: u64)
    requires
        inv(g, start, st),
        st.g_score.contains_key(n),
    ensures
        g.reachable(start, n),
{
    lemma_chain_is_path(g, start, st, n);
    assert(g.is_path_from(start, chain(st.came_from, n)));
}

/// The target of an edge out of a reachable node is reachable.
pub proof fn lemma_reach_edge(g: Graph, start: u64, n: u64, j: int)
    requires
        g.reachable(start, n),
        0 <= j < g.edges(n).len(),
    ensures
        g.reachable(start, g.edges(n)[j].0),
{
    let p = choose|p: Seq<u64>| #[trigger] g.is_path_from(start, p) && p.last() == n;
    let m = g.edges(n)[j].0;
    lemma_path_push(g, p, m);
    assert(p.push(m)[0] == p[0]);
    assert(g.is_path_from(start, p.push(m)) && p.push(m).last() == m);
}

/// What is left of a path from one of its nodes on is a path.
pub proof fn lemma_rest_is_path(g: Graph, p: Seq<u64>, i: int)
    requires
        g.is_path(p),
        0 <= i < p.len(),
    ensures
        g.is_path(p.subrange(i, p.len() as int)),
{
    let q = p.subrange(i, p.len() as int);
    assert forall|a: int| 0 <= a < q.len() - 1 implies g.has_edge(#[trigger] q[a], q[a + 1]) by {
        assert(q[a] == p[a + i] && q[a + 1] == p[a + i + 1]);
    }
}

proof fn lemma_all_settled(g: Graph, start: u64, st: State, p: Seq<u64>, i: int)
    requires
        inv(g, start, st),
        st.frontier.is_empty(),
        g.is_path_from(start, p),
        0 <= i < p.len(),
    ensures
        st.g_score.contains_key(p[i]),
        is_settled(g, st, p[i]),
    decreases i,
{
    if i > 0 {
        lemma_all_settled(g, start, st, p, i - 1);
        assert(g.has_edge(p[i - 1], p[i]));
        let j = choose|j: int|
            0 <= j < g.edges(p[i - 1]).len() && (#[trigger] g.edges(p[i - 1])[j]).0 == p[i];
        assert(edge_done(st, p[i - 1], g.edges(p[i - 1])[j]));
    }
    assert(!is_open(g, st, p[i]));
}

/// Where the frontier is exhausted, no goal can be reached from the start.
pub proof fn lemma_exhausted(g: Graph, start: u64, st: State)
    requires
        inv(g, start, st),
        st.frontier.is_empty(),
    ensures
        !g.goal_reachable(start),
{
    if g.goal_reachable(start) {
        let p = choose|p: Seq<u64>| #[trigger] g.is_goal_path(start, p);
        lemma_all_settled(g, start, st, p, p.len() - 1);
    }
}

/// The score of `p[i]` leaves room for the rest of `p` within its cost.
pub open spec fn on_budget(g: Graph, st: State, p: Seq<u64>, i: int) -> bool {
    &&& st.g_score.contains_key(p[i])
    &&& st.g_score[p[i]] + g.path_cost(p.subrange(i, p.len() as int)) <= g.path_cost(p)
}

proof fn lemma_open_on_path(g: Graph, start: u64, st: State, p: Seq<u64>, i: int) -> (r: int)
    requires
        inv(g, start, st),
        g.is_goal_path(start, p),
        0 <= i < p.len(),
        on_budget(g, st, p, i),
    ensures
        i <= r < p.len(),
        on_budget(g, st, p, r),
        is_open(g, st, p[r]),
    decreases p.len() - i,
{
    if is_open(g, st, p[i]) {
        i
    } else {
        assert(is_settled(g, st, p[i]));
        assert(i < p.len() - 1);
        assert(g.has_edge(p[i], p[i + 1]));
        lemma_edge_cost(g, p[i], p[i + 1]);
        let c = g.edge_cost(p[i], p[i + 1]);
        let j = choose|j: int|
            0 <= j < g.edges(p[i]).len() && #[trigger] g.edges(p[i])[j] == (p[i + 1], c);
        assert(edge_done(st, p[i], g.edges(p[i])[j]));
        let s = p.subrange(i, p.len() as int);
        assert(s.drop_first() =~= p.subrange(i + 1, p.len() as int));
        assert(s[0] == p[i] && s[1] == p[i + 1]);
        assert(g.path_cost(s) == g.edge_cost(s[0], s[1]) as nat + g.path_cost(s.drop_first()));
        lemma_open_on_path(g, start, st, p, i + 1)
    }
}

/// Under an admissible heuristic no path to a goal costs less than the score
/// of the node that is popped next.
pub proof fn lemma_least_is_cheapest(g: Graph, start: u64, st: State, p: Seq<u64>)
    requires
        inv(g, start, st),
        !st.frontier.is_empty(),
        g.admissible(),
        g.is_goal_path(start, p),
    ensures
        st.g_score.contains_key(least(st.frontier).node),
        st.g_score[least(st.frontier).node] <= g.path_cost(p),
{
    lemma_least_exists(st.frontier);
    let e = least(st.frontier);
    assert(entry_ok(g, st, e));
    assert(p.subrange(0, p.len() as int) =~= p);
    let r = lemma_open_on_path(g, start, st, p, 0);
    let x = choose|x: Entry| #[trigger]
        st.frontier.contains(x) && x.node == p[r] && x.priority == st.g_score[p[r]] + g.h(p[r]);
    assert(precedes(e, x));
    let q = p.subrange(r, p.len() as int);
    lemma_rest_is_path(g, p, r);
    assert(q.last() == p.last());
    assert(q[0] == p[r]);
    assert(g.is_path(q) && g.is_goal(q.last()));
}

/// One step and then `n` more is `n + 1` steps.
pub proof fn lemma_run_shift(g: Graph, st: State, n: nat)
    ensures
        run(g, st, n + 1) == run(g, step(g, st), n),
    decreases n,
{
    assert(run(g, st, n + 1) == step(g, run(g, st, n))) by {
        assert((n + 1 - 1) as nat == n);
    }
    if n > 0 {
        lemma_run_shift(g, st, (n - 1) as nat);
        assert((n - 1 + 1) as nat == n);
    } else {
        assert(run(g, st, 0) == st);
        assert(run(g, step(g, st), 0) == step(g, st));
    }
}

/// From every state that satisfies the invariant the search halts.
pub proof fn lemma_halts_from(g: Graph, start: u64, st: State)
    requires
        g.costs_fit(start),
        inv(g, start, st),
    ensures
        exists|n: nat| halted(g, run(g, st, n)),
    decreases potential(st.g_score), st.frontier.len(),
{
    if halted(g, st) {
        assert(halted(g, run(g, st, 0)));
    } else {
        lemma_step(g, start, st);
        let next = step(g, st);
        lemma_potential_nonnegative(next.g_score, start);
        lemma_potential_nonnegative(st.g_score, start);
        lemma_halts_from(g, start, next);
        let n = choose|n: nat| halted(g, run(g, next, n));
        lemma_run_shift(g, st, n);
        assert(halted(g, run(g, st, n + 1)));
    }
}

/// A search whose sums fit halts.
pub proof fn lemma_search_halts(g: Graph, start: u64)
    requires
        g.costs_fit(start),
    ensures
        exists|n: nat| halts_within(g, start, n),
{
    lemma_initial_inv(g, start);
    lemma_halts_from(g, start, initial(g, start));
    let n = choose|n: nat| halted(g, run(g, initial(g, start), n));
    assert(halts_within(g, start, n));
}

} // verus!
