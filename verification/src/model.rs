//! The search as a mathematical state machine: what one step does to the
//! frontier and the score maps, and the result that a run ends with.

use vstd::prelude::*;
use crate::graph::Graph;
use crate::frontier::Entry;
use crate::frontier::is_least;

verus! {

/// The state of a search between two steps.
pub struct State {
    /// The entries waiting to be popped.
    pub frontier: Set<Entry>,
    /// The least cost found so far from the start to each node seen.
    pub g_score: Map<u64, u64>,
    /// The predecessor through which that cost was found.
    pub came_from: Map<u64, u64>,
    /// The sequence number that the next entry gets.
    pub count: u128,
}

/// The state before the first step: only the start node, at cost zero.
pub open spec fn initial(g: Graph, start: u64) -> State {
    State {
        frontier: Set::<Entry>::empty().insert(Entry { priority: g.h(start), seq: 0, node: start }),
        g_score: Map::<u64, u64>::empty().insert(start, 0u64),
        came_from: Map::<u64, u64>::empty(),
        count: 1,
    }
}

/// A tentative cost improves on what is known of a node: the node was never
/// seen, or the cost is strictly less than its score.
pub open spec fn improves(st: State, neighbor: u64, tentative: int) -> bool {
    !st.g_score.contains_key(neighbor) || tentative < st.g_score[neighbor]
}

/// Looks at one edge out of `current` and, where it improves on the
/// neighbor's score, records the new score and predecessor and pushes a fresh
/// entry.
pub open spec fn relax(g: Graph, st: State, current: u64, edge: (u64, u64)) -> State {
    let tentative = st.g_score[current] + edge.1;
    if improves(st, edge.0, tentative) {
        State {
            frontier: st.frontier.insert(
                Entry { priority: (tentative + g.h(edge.0)) as u64, seq: st.count, node: edge.0 },
            ),
            g_score: st.g_score.insert(edge.0, tentative as u64),
            came_from: st.came_from.insert(edge.0, current),
            count: (st.count + 1) as u128,
        }
    } else {
        st
    }
}

/// The state after the first `k` edges out of `current` were looked at, in order.
pub open spec fn expand(g: Graph, st: State, current: u64, k: nat) -> State
    decreases k,
{
    if k == 0 {
        st
    } else {
        relax(g, expand(g, st, current, (k - 1) as nat), current, g.edges(current)[k - 1])
    }
}

/// The entry that is popped next.
pub open spec fn least(f: Set<Entry>) -> Entry {
    choose|e: Entry| is_least(f, e)
}

/// The search is over: nothing is left, or the entry to pop holds a goal.
pub open spec fn halted(g: Graph, st: State) -> bool {
    st.frontier.is_empty() || g.is_goal(least(st.frontier).node)
}

/// The state with the next entry taken out of the frontier.
pub open spec fn popped(st: State) -> State {
    State { frontier: st.frontier.remove(least(st.frontier)), ..st }
}

/// One step: pop the next entry and look at every edge out of its node. A
/// halted state stays as it is.
pub open spec fn step(g: Graph, st: State) -> State {
    if halted(g, st) {
        st
    } else {
        let current = least(st.frontier).node;
        expand(g, popped(st), current, g.edges(current).len())
    }
}

/// The state after `n` steps.
pub open spec fn run(g: Graph, st: State, n: nat) -> State
    decreases n,
{
    if n == 0 {
        st
    } else {
        step(g, run(g, st, (n - 1) as nat))
    }
}

/// Following predecessors from `n` ends, after at most `k` hops, at a node
/// without one.
pub open spec fn rooted(came_from: Map<u64, u64>, n: u64, k: nat) -> bool
    decreases k,
{
    !came_from.contains_key(n) || (k > 0 && rooted(came_from, came_from[n], (k - 1) as nat))
}

/// The nodes met by following predecessors from `n` for at most `k` hops, in
/// the order from the farthest back to `n`.
pub open spec fn trail(came_from: Map<u64, u64>, n: u64, k: nat) -> Seq<u64>
    decreases k,
{
    if !came_from.contains_key(n) || k == 0 {
        seq![n]
    } else {
        trail(came_from, came_from[n], (k - 1) as nat).push(n)
    }
}

/// The path that the predecessors record for `n`: from the node without
/// predecessor down to `n`.
pub open spec fn chain(came_from: Map<u64, u64>, n: u64) -> Seq<u64> {
    trail(came_from, n, choose|k: nat| rooted(came_from, n, k))
}

/// What a halted state stands for: nothing, or the path to the goal about to
/// be popped, with its score.
pub open spec fn answer(st: State) -> Option<(Seq<u64>, u64)> {
    if st.frontier.is_empty() {
        None
    } else {
        let goal = least(st.frontier).node;
        Some((chain(st.came_from, goal), st.g_score[goal]))
    }
}

/// The search from `start` halts within `n` steps.
pub open spec fn halts_within(g: Graph, start: u64, n: nat) -> bool {
    halted(g, run(g, initial(g, start), n))
}

/// The result of the search from `start`: the answer of the state it halts in.
pub open spec fn search(g: Graph, start: u64) -> Option<(Seq<u64>, u64)> {
    if exists|n: nat| halts_within(g, start, n) {
        answer(run(g, initial(g, start), choose|n: nat| halts_within(g, start, n)))
    } else {
        None
    }
}

/// Running on from a halted state changes nothing.
pub proof fn lemma_run_halted(g: Graph, st: State, n: nat)
    requires
        halted(g, st),
    ensures
        run(g, st, n) == st,
    decreases n,
{
    if n > 0 {
        lemma_run_halted(g, st, (n - 1) as nat);
    }
}

/// Running `a` steps and then `b` more is running `a + b` steps.
pub proof fn lemma_run_split(g: Graph, st: State, a: nat, b: nat)
    ensures
        run(g, st, a + b) == run(g, run(g, st, a), b),
    decreases b,
{
    if b > 0 {
        lemma_run_split(g, st, a, (b - 1) as nat);
        assert((a + b - 1) as nat == a + (b - 1) as nat);
    }
}

/// Whenever the search halts, the state it halts in determines its result.
pub proof fn lemma_search_is_answer(g: Graph, start: u64, n: nat)
    requires
        halts_within(g, start, n),
    ensures
        search(g, start) == answer(run(g, initial(g, start), n)),
{
    let m = choose|m: nat| halts_within(g, start, m);
    let st = initial(g, start);
    if m <= n {
        lemma_run_split(g, st, m, (n - m) as nat);
        lemma_run_halted(g, run(g, st, m), (n - m) as nat);
    } else {
        lemma_run_split(g, st, n, (m - n) as nat);
        lemma_run_halted(g, run(g, st, n), (m - n) as nat);
    }
}

/// More hops than needed still end at the same node without predecessor.
pub proof fn lemma_rooted_more(came_from: Map<u64, u64>, n: u64, k: nat, k2: nat)
    requires
        rooted(came_from, n, k),
        k <= k2,
    ensures
        rooted(came_from, n, k2),
    decreases k,
{
    if came_from.contains_key(n) {
        lemma_rooted_more(came_from, came_from[n], (k - 1) as nat, (k2 - 1) as nat);
    }
}

/// The trail does not depend on how many hops were allowed, once they suffice.
pub proof fn lemma_trail_unique(came_from: Map<u64, u64>, n: u64, k: nat, k2: nat)
    requires
        rooted(came_from, n, k),
        rooted(came_from, n, k2),
    ensures
        trail(came_from, n, k) == trail(came_from, n, k2),
    decreases k,
{
    if came_from.contains_key(n) {
        lemma_trail_unique(came_from, came_from[n], (k - 1) as nat, (k2 - 1) as nat);
    }
}

/// A trail ends at the node it was taken from.
pub proof fn lemma_trail_last(came_from: Map<u64, u64>, n: u64, k: nat)
    ensures
        trail(came_from, n, k).len() >= 1,
        trail(came_from, n, k).last() == n,
    decreases k,
{
    if came_from.contains_key(n) && k > 0 {
        lemma_trail_last(came_from, came_from[n], (k - 1) as nat);
    }
}

} // verus!
