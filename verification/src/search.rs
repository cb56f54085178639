//! The search itself: A* over a graph given by three functions.

use vstd::prelude::*;
use std::collections::HashMap;
use std::collections::HashSet;
use crate::graph::Graph;
use crate::frontier::Entry;
use crate::frontier::Frontier;
use crate::model::initial;
use crate::model::improves;
use crate::model::relax;
use crate::model::expand;
use crate::model::popped;
use crate::model::step;
use crate::model::run;
use crate::model::rooted;
use crate::model::trail;
use crate::model::chain;
use crate::model::answer;
use crate::model::halts_within;
use crate::model::search;
use crate::model::lemma_search_is_answer;
use crate::model::lemma_trail_last;
use crate::model::lemma_trail_unique;
use crate::invariants::inv;
use crate::invariants::expanding;
use crate::invariants::entry_ok;
use crate::invariants::lemma_initial_inv;
use crate::invariants::lemma_least_unique;
use crate::invariants::lemma_pop;
use crate::invariants::lemma_relax;
use crate::invariants::lemma_close;
use crate::outcome::lemma_scored_is_reachable;
use crate::outcome::lemma_reach_edge;
use crate::potential::potential;
use crate::potential::lemma_potential_nonnegative;
use crate::laws::lemma_search_is_result;

verus! {

/// The edges that `successors` returns for `n`; none where it can return
/// nothing for `n`.
pub open spec fn edges_of<FN: Fn(&u64) -> Vec<(u64, u64)>>(successors: FN, n: u64) -> Seq<
    (u64, u64),
> {
    if exists|r: Vec<(u64, u64)>| successors.ensures((&n,), r) {
        (choose|r: Vec<(u64, u64)>| successors.ensures((&n,), r))@
    } else {
        Seq::empty()
    }
}

/// The estimate that `heuristic` returns for `n`; zero where it can return
/// nothing for `n`.
pub open spec fn estimate_of<FH: Fn(&u64) -> u64>(heuristic: FH, n: u64) -> u64 {
    if exists|r: u64| heuristic.ensures((&n,), r) {
        choose|r: u64| heuristic.ensures((&n,), r)
    } else {
        0
    }
}

/// What `success` returns for `n`; `false` where it can return nothing for `n`.
pub open spec fn verdict_of<FS: Fn(&u64) -> bool>(success: FS, n: u64) -> bool {
    if exists|r: bool| success.ensures((&n,), r) {
        choose|r: bool| success.ensures((&n,), r)
    } else {
        false
    }
}

/// The graph that the three functions describe.
pub open spec fn graph_of<FN, FH, FS>(successors: FN, heuristic: FH, success: FS) -> Graph where
    FN: Fn(&u64) -> Vec<(u64, u64)>,
    FH: Fn(&u64) -> u64,
    FS: Fn(&u64) -> bool,
 {
    Graph {
        successors: |n: u64| edges_of(successors, n),
        heuristic: |n: u64| estimate_of(heuristic, n),
        success: |n: u64| verdict_of(success, n),
    }
}

/// The three functions can be called on `n`, and each returns one result only.
pub open spec fn answers_at<FN, FH, FS>(successors: FN, heuristic: FH, success: FS, n: u64) -> bool where
    FN: Fn(&u64) -> Vec<(u64, u64)>,
    FH: Fn(&u64) -> u64,
    FS: Fn(&u64) -> bool,
 {
    &&& successors.requires((&n,))
    &&& heuristic.requires((&n,))
    &&& success.requires((&n,))
    &&& forall|a: Vec<(u64, u64)>, b: Vec<(u64, u64)>|
        successors.ensures((&n,), a) && successors.ensures((&n,), b) ==> a@ == b@
    &&& forall|a: u64, b: u64| heuristic.ensures((&n,), a) && heuristic.ensures((&n,), b) ==> a == b
    &&& forall|a: bool, b: bool| success.ensures((&n,), a) && success.ensures((&n,), b) ==> a == b
}

/// The three functions are pure functions of their argument on every node
/// that can be reached from `start`.
pub open spec fn well_defined<FN, FH, FS>(
    successors: FN,
    heuristic: FH,
    success: FS,
    start: u64,
) -> bool where FN: Fn(&u64) -> Vec<(u64, u64)>, FH: Fn(&u64) -> u64, FS: Fn(&u64) -> bool {
    forall|n: u64| #[trigger]
        graph_of(successors, heuristic, success).reachable(start, n) ==> answers_at(
            successors,
            heuristic,
            success,
            n,
        )
}

/// A result with its path as a sequence.
pub open spec fn shown(result: Option<(Vec<u64>, u64)>) -> Option<(Seq<u64>, u64)> {
    match result {
        Some(found) => Some((found.0@, found.1)),
        None => None,
    }
}

/// Every scored node has its score plus heuristic on record.
pub open spec fn priorities_ok(g: Graph, scores: Map<u64, u64>, priorities: Map<u64, u64>) -> bool {
    forall|n: u64| #[trigger]
        scores.contains_key(n) ==> priorities.contains_key(n) && priorities[n] == scores[n] + g.h(n)
}

/// The additive identity of the cost type: `num_traits::Zero::zero` at `u64`,
/// which the crate defines as the literal `0`.
#[verifier::external_body]
fn zero_cost() -> (z: u64)
    ensures
        z == 0,
{
    num_traits::Zero::zero()
}

/// Follows the predecessors back from `current` to the node that has none,
/// and returns the nodes met in the order from that node to `current`.
pub fn reconstruct_path(came_from: &HashMap<u64, u64>, current: u64) -> (path: Vec<u64>)
    requires
        exists|k: nat| rooted(came_from@, current, k),
    ensures
        path@ == chain(came_from@, current),
        forall|k: nat| rooted(came_from@, current, k) ==> path@ == trail(came_from@, current, k),
{
    let ghost hops = choose|k: nat| rooted(came_from@, current, k);
    let ghost whole = trail(came_from@, current, hops);
    let ghost mut left: nat = hops;
    let mut back: Vec<u64> = Vec::new();
    back.push(current);
    let mut cur: u64 = current;
    proof {
        lemma_trail_last(came_from@, current, hops);
        assert(whole.subrange(0, whole.len() as int) =~= whole);
    }
    loop
        invariant
            rooted(came_from@, cur, left),
            1 <= back@.len() <= whole.len(),
            cur == back@[back@.len() - 1],
            trail(came_from@, cur, left) == whole.subrange(0, whole.len() - back@.len() + 1),
            forall|i: int| 0 <= i < back@.len() ==> back@[i] == whole[whole.len() - 1 - i],
        ensures
            back@.len() == whole.len(),
        decreases left,
    {
        match came_from.get(&cur) {
            Some(prev) => {
                proof {
                    let rest = trail(came_from@, *prev, (left - 1) as nat);
                    lemma_trail_last(came_from@, *prev, (left - 1) as nat);
                    let shorter = whole.subrange(0, whole.len() - back@.len() + 1);
                    assert(shorter == rest.push(cur));
                    assert(rest =~= shorter.drop_last());
                    assert(rest =~= whole.subrange(0, whole.len() - back@.len()));
                    assert(rest.last() == whole[whole.len() - back@.len() - 1]);
                    left = (left - 1) as nat;
                }
                back.push(*prev);
                cur = *prev;
            },
            None => {
                assert(trail(came_from@, cur, left) =~= seq![cur]);
                break ;
            },
        }
    }
    let mut path: Vec<u64> = Vec::new();
    let mut i: usize = back.len();
    while i > 0
        invariant
            back@.len() == whole.len(),
            i <= back@.len(),
            path@.len() == back@.len() - i,
            forall|j: int| 0 <= j < back@.len() ==> back@[j] == whole[whole.len() - 1 - j],
            forall|j: int| 0 <= j < path@.len() ==> path@[j] == whole[j],
        decreases i,
    {
        i -= 1;
        path.push(back[i]);
    }
    proof {
        assert(path@ =~= whole);
        assert forall|k: nat| rooted(came_from@, current, k) implies path@ == trail(
            came_from@,
            current,
            k,
        ) by {
            lemma_trail_unique(came_from@, current, hops, k);
        }
    }
    path
}

/// Searches for a cheapest path from `start` to a node that `success`
/// accepts, over the edges that `successors` gives, guided by `heuristic`.
///
/// The frontier is popped in the order of score plus heuristic, earlier
/// pushes first among equals. An edge is taken where its target was never
/// seen or gets a strictly lower score by it.
///
/// The result is that of the mathematical `search`, a function of the graph
/// and the start alone. A path is returned exactly where a goal can be
/// reached. It leads from `start` to a goal along edges, and the cost
/// returned is the sum of the costs of its edges; where the heuristic is
/// admissible, no path to a goal costs less.
pub fn astar<FN, FH, FS>(start: &u64, successors: FN, heuristic: FH, success: FS) -> (result: Option<
    (Vec<u64>, u64),
>) where FN: Fn(&u64) -> Vec<(u64, u64)>, FH: Fn(&u64) -> u64, FS: Fn(&u64) -> bool
    requires
        well_defined(successors, heuristic, success, *start),
        graph_of(successors, heuristic, success).costs_fit(*start),
    ensures
        ({
            let g = graph_of(successors, heuristic, success);
            &&& shown(result) == search(g, *start)
            &&& result.is_some() <==> g.goal_reachable(*start)
            &&& g.is_goal(*start) ==> shown(result) == Some((seq![*start], 0u64))
            &&& result matches Some(found) ==> {
                &&& g.is_goal_path(*start, found.0@)
                &&& g.path_cost(found.0@) == found.1
                &&& g.admissible() ==> forall|other: Seq<u64>| #[trigger]
                    g.is_goal_path(*start, other) ==> found.1 <= g.path_cost(other)
            }
        }),
{
    let ghost g = graph_of(successors, heuristic, success);
    let mut open_set = Frontier::new();
    let mut came_from: HashMap<u64, u64> = HashMap::new();
    let mut g_score: HashMap<u64, u64> = HashMap::new();
    let mut f_score: HashMap<u64, u64> = HashMap::new();
    let mut visited: HashSet<u64> = HashSet::new();
    let mut count: u128 = 0;

    proof {
        assert(g.is_path_from(*start, seq![*start]));
        assert(g.reachable(*start, *start));
        lemma_initial_inv(g, *start);
        lemma_search_is_result(g, *start);
    }
    g_score.insert(*start, zero_cost());
    let first = heuristic(start);
    f_score.insert(*start, first);
    open_set.push(Entry { priority: first, seq: count, node: *start });
    count = count + 1;

    let ghost mut st = initial(g, *start);
    let ghost mut steps: nat = 0;
    proof {
        assert(st.frontier =~= open_set@);
        assert(st.g_score =~= g_score@);
        assert(st.came_from =~= came_from@);
    }
    loop
        invariant
            g == graph_of(successors, heuristic, success),
            well_defined(successors, heuristic, success, *start),
            g.costs_fit(*start),
            crate::laws::is_result(g, *start, search(g, *start)),
            st == run(g, initial(g, *start), steps),
            inv(g, *start, st),
            open_set.wf(),
            open_set@ == st.frontier,
            g_score@ == st.g_score,
            came_from@ == st.came_from,
            count == st.count,
            priorities_ok(g, g_score@, f_score@),
            forall|n: u64| visited@.contains(n) ==> g_score@.contains_key(n),
        decreases potential(st.g_score), st.frontier.len(),
    {
        let ghost before = st;
        let next = open_set.pop();
        if next.is_none() {
            proof {
                assert(halts_within(g, *start, steps));
                lemma_search_is_answer(g, *start, steps);
            }
            return None;
        }
        let entry = next.unwrap();
        let current: u64 = entry.node;
        proof {
            lemma_least_unique(g, st, entry);
            assert(entry_ok(g, st, entry));
            lemma_scored_is_reachable(g, *start, st, current);
            assert(answers_at(successors, heuristic, success, current));
        }
        if success(&current) {
            let path = reconstruct_path(&came_from, current);
            let cost: u64 = *g_score.get(&current).unwrap();
            proof {
                assert(g.is_goal(current));
                assert(halts_within(g, *start, steps));
                lemma_search_is_answer(g, *start, steps);
                assert(answer(st) == Some((path@, cost)));
            }
            return Some((path, cost));
        }
        visited.insert(current);
        let succs = successors(&current);
        let ghost via = lemma_pop(g, *start, st);
        proof {
            assert(!g.is_goal(current));
            assert(succs@ == g.edges(current));
            st = popped(st);
            lemma_potential_nonnegative(st.g_score, *start);
        }
        let ghost base = st;
        let mut i: usize = 0;
        while i < succs.len()
            invariant
                g == graph_of(successors, heuristic, success),
                well_defined(successors, heuristic, success, *start),
                g.costs_fit(*start),
                succs@ == g.edges(current),
                0 <= i <= succs.len(),
                g.reachable(*start, current),
                st == expand(g, base, current, i as nat),
                expanding(g, *start, st, current, via, i as int),
                st == base || potential(st.g_score) < potential(base.g_score),
                open_set.wf(),
                open_set@ == st.frontier,
                g_score@ == st.g_score,
                came_from@ == st.came_from,
                count == st.count,
                priorities_ok(g, g_score@, f_score@),
                forall|n: u64| visited@.contains(n) ==> g_score@.contains_key(n),
            decreases succs.len() - i,
        {
            let neighbor: u64 = succs[i].0;
            let cost: u64 = succs[i].1;
            proof {
                lemma_relax(g, *start, st, current, via, i as int);
                lemma_reach_edge(g, *start, current, i as int);
                assert(answers_at(successors, heuristic, success, neighbor));
            }
            let tentative: u64 = *g_score.get(&current).unwrap() + cost;
            // The edge improves on what is known of its target where the target
            // was never seen or gets a strictly lower score.
            let better: bool = match g_score.get(&neighbor) {
                Some(known) => tentative < *known,
                None => true,
            };
            // A node that was expanded before is passed over unless improved.
            let skip: bool = visited.contains(&neighbor) && !better;
            if !skip && better {
                came_from.insert(neighbor, current);
                g_score.insert(neighbor, tentative);
                let estimate = heuristic(&neighbor);
                let priority: u64 = tentative + estimate;
                f_score.insert(neighbor, priority);
                open_set.push(Entry { priority, seq: count, node: neighbor });
                count = count + 1;
            }
            proof {
                assert(better == improves(st, neighbor, st.g_score[current] + cost));
                st = relax(g, st, current, g.edges(current)[i as int]);
            }
            i = i + 1;
        }
        proof {
            lemma_close(g, *start, st, current, via);
            assert(st == step(g, before));
            steps = steps + 1;
            lemma_potential_nonnegative(st.g_score, *start);
            lemma_potential_nonnegative(before.g_score, *start);
        }
    }
}

} // verus!
