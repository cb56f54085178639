//! What holds of every state that a search passes through, and why each step
//! keeps it.

use vstd::prelude::*;
use crate::graph::Graph;
use crate::graph::lemma_edge_cost;
use crate::graph::lemma_path_push;
use crate::graph::lemma_path_cost_push;
use crate::frontier::Entry;
use crate::frontier::precedes;
use crate::frontier::is_least;
use crate::model::State;
use crate::model::initial;
use crate::model::improves;
use crate::model::relax;
use crate::model::expand;
use crate::model::least;
use crate::model::halted;
use crate::model::popped;
use crate::model::step;
use crate::model::run;
use crate::model::rooted;
use crate::model::lemma_rooted_more;
use crate::potential::cap;
use crate::potential::pot;
use crate::potential::potential;
use crate::potential::lemma_potential_nonnegative;
use crate::potential::lemma_potential_insert;

verus! {

/// The predecessor of `m` is a scored node with an edge to `m`, and going
/// through it costs no more than the score of `m`.
pub open spec fn links(g: Graph, st: State, m: u64) -> bool {
    &&& st.g_score.contains_key(m)
    &&& st.g_score.contains_key(st.came_from[m])
    &&& g.has_edge(st.came_from[m], m)
    &&& st.g_score[st.came_from[m]] + g.edge_cost(st.came_from[m], m) <= st.g_score[m]
}

/// The start has score zero and no predecessor; every other scored node has a
/// predecessor that links to it.
pub open spec fn scores_ok(g: Graph, start: u64, st: State) -> bool {
    &&& st.g_score.contains_key(start)
    &&& st.g_score[start] == 0
    &&& !st.came_from.contains_key(start)
    &&& forall|m: u64| #[trigger]
        st.g_score.contains_key(m) && m != start ==> st.came_from.contains_key(m)
    &&& forall|m: u64| #[trigger] st.came_from.contains_key(m) ==> links(g, st, m)
}

/// The entry is for a scored node, was pushed with no less than the node's
/// present score plus heuristic, and has a sequence number already given out.
pub open spec fn entry_ok(g: Graph, st: State, e: Entry) -> bool {
    &&& st.g_score.contains_key(e.node)
    &&& st.g_score[e.node] + g.h(e.node) <= e.priority
    &&& e.seq < st.count
}

/// The frontier is finite, its entries are in order and told apart by their
/// sequence numbers, and the counter has room left.
pub open spec fn entries_ok(g: Graph, st: State) -> bool {
    &&& st.frontier.finite()
    &&& forall|e: Entry| #[trigger] st.frontier.contains(e) ==> entry_ok(g, st, e)
    &&& forall|a: Entry, b: Entry|
        #![trigger st.frontier.contains(a), st.frontier.contains(b)]
        st.frontier.contains(a) && st.frontier.contains(b) && a.seq == b.seq ==> a == b
    &&& st.count + potential(st.g_score) <= cap()
}

/// From every scored node the predecessors lead, in finitely many hops, to a
/// node without predecessor.
pub open spec fn acyclic(st: State) -> bool {
    forall|n: u64| #[trigger]
        st.g_score.contains_key(n) ==> exists|k: nat| rooted(st.came_from, n, k)
}

/// The frontier holds an entry for `n` that was pushed with its present score.
pub open spec fn is_open(g: Graph, st: State, n: u64) -> bool {
    exists|e: Entry| #[trigger]
        st.frontier.contains(e) && e.node == n && e.priority == st.g_score[n] + g.h(n)
}

/// The edge reaches a scored node whose score is no more than what the edge
/// would give it from `n`.
pub open spec fn edge_done(st: State, n: u64, edge: (u64, u64)) -> bool {
    st.g_score.contains_key(edge.0) && st.g_score[edge.0] <= st.g_score[n] + edge.1
}

/// `n` is not a goal and none of its edges can improve a score.
pub open spec fn is_settled(g: Graph, st: State, n: u64) -> bool {
    &&& !g.is_goal(n)
    &&& forall|j: int| 0 <= j < g.edges(n).len() ==> edge_done(st, n, #[trigger] g.edges(n)[j])
}

/// Every scored node is waiting in the frontier with its present score, or is
/// settled.
pub open spec fn covered(g: Graph, st: State) -> bool {
    forall|n: u64| #[trigger]
        st.g_score.contains_key(n) ==> is_open(g, st, n) || is_settled(g, st, n)
}

/// `p` is a simple path from the start to `n` whose cost is the score of `n`,
/// over nodes that score no more than `n`.
pub open spec fn derives(g: Graph, start: u64, st: State, n: u64, p: Seq<u64>) -> bool {
    &&& g.is_simple_path(start, p)
    &&& p.last() == n
    &&& g.path_cost(p) == st.g_score[n]
    &&& forall|i: int|
        0 <= i < p.len() ==> st.g_score.contains_key(#[trigger] p[i]) && st.g_score[p[i]]
            <= st.g_score[n]
}

/// Every score is the cost of a simple path from the start.
pub open spec fn derivable(g: Graph, start: u64, st: State) -> bool {
    forall|n: u64| #[trigger]
        st.g_score.contains_key(n) ==> exists|p: Seq<u64>| derives(g, start, st, n, p)
}

/// What holds between two steps of a search from `start`.
pub open spec fn inv(g: Graph, start: u64, st: State) -> bool {
    &&& scores_ok(g, start, st)
    &&& entries_ok(g, st)
    &&& acyclic(st)
    &&& covered(g, st)
    &&& derivable(g, start, st)
}

/// Every scored node but `cur` is open or settled, and the first `k` edges of
/// `cur`, which is no goal, are done.
pub open spec fn covered_but(g: Graph, st: State, cur: u64, k: int) -> bool {
    &&& st.g_score.contains_key(cur)
    &&& !g.is_goal(cur)
    &&& 0 <= k <= g.edges(cur).len()
    &&& forall|j: int| 0 <= j < k ==> edge_done(st, cur, #[trigger] g.edges(cur)[j])
    &&& forall|n: u64| #[trigger]
        st.g_score.contains_key(n) && n != cur ==> is_open(g, st, n) || is_settled(g, st, n)
}

/// The score of `cur` is the cost of `via`, and every other score is the cost
/// of a simple path too, or was just given through `cur` to a node off `via`.
pub open spec fn derivable_but(g: Graph, start: u64, st: State, cur: u64, via: Seq<u64>) -> bool {
    &&& derives(g, start, st, cur, via)
    &&& forall|n: u64| #[trigger]
        st.g_score.contains_key(n) ==> (exists|p: Seq<u64>| derives(g, start, st, n, p)) || (
        st.came_from.contains_key(n) && st.came_from[n] == cur && !via.contains(n))
}

/// What holds while the edges of `cur` are looked at, after the first `k`.
pub open spec fn expanding(g: Graph, start: u64, st: State, cur: u64, via: Seq<u64>, k: int) -> bool {
    &&& scores_ok(g, start, st)
    &&& entries_ok(g, st)
    &&& acyclic(st)
    &&& covered_but(g, st, cur, k)
    &&& derivable_but(g, start, st, cur, via)
}

/// A finite frontier that is not empty has a least entry.
pub proof fn lemma_least_exists(f: Set<Entry>)
    requires
        f.finite(),
        !f.is_empty(),
    ensures
        is_least(f, least(f)),
    decreases f.len(),
{
    let x = f.choose();
    let rest = f.remove(x);
    if rest.is_empty() {
        assert forall|y: Entry| f.contains(y) implies precedes(x, y) by {
            if y != x {
                assert(rest.contains(y));
            }
        }
        assert(is_least(f, x));
    } else {
        lemma_least_exists(rest);
        let r = least(rest);
        if precedes(r, x) {
            assert forall|y: Entry| f.contains(y) implies precedes(r, y) by {
                if y != x {
                    assert(rest.contains(y));
                }
            }
            assert(is_least(f, r));
        } else {
            assert forall|y: Entry| f.contains(y) implies precedes(x, y) by {
                if y != x {
                    assert(rest.contains(y));
                    assert(precedes(r, y));
                }
            }
            assert(is_least(f, x));
        }
    }
}

/// Among entries told apart by their sequence numbers, only one is least.
pub proof fn lemma_least_unique(g: Graph, st: State, e: Entry)
    requires
        entries_ok(g, st),
        is_least(st.frontier, e),
    ensures
        e == least(st.frontier),
{
    let l = least(st.frontier);
    assert(is_least(st.frontier, l));
    assert(precedes(e, l) && precedes(l, e));
}

/// The state before the first step satisfies the invariant.
pub proof fn lemma_initial_inv(g: Graph, start: u64)
    ensures
        inv(g, start, initial(g, start)),
{
    let st = initial(g, start);
    let e0 = Entry { priority: g.h(start), seq: 0, node: start };
    lemma_potential_nonnegative(st.g_score, start);
    assert(st.frontier.contains(e0));
    assert(rooted(st.came_from, start, 0));
    let p = seq![start];
    assert(g.path_cost(p) == 0);
    assert(derives(g, start, st, start, p));
    assert(is_open(g, st, start));
}

proof fn lemma_rooted_keep(
    g: Graph,
    start: u64,
    st: State,
    n: u64,
    k: nat,
    m: u64,
    to: u64,
    bound: int,
)
    requires
        scores_ok(g, start, st),
        st.g_score.contains_key(n),
        rooted(st.came_from, n, k),
        st.g_score[n] <= bound,
        st.g_score.contains_key(m) ==> st.g_score[m] > bound,
    ensures
        rooted(st.came_from.insert(m, to), n, k),
    decreases k,
{
    assert(n != m);
    if st.came_from.contains_key(n) {
        assert(links(g, st, n));
        lemma_edge_cost(g, st.came_from[n], n);
        lemma_rooted_keep(g, start, st, st.came_from[n], (k - 1) as nat, m, to, bound);
    }
}

proof fn lemma_rooted_after(came_from: Map<u64, u64>, m: u64, to: u64, kt: nat, n: u64, k: nat)
    requires
        rooted(came_from.insert(m, to), to, kt),
        rooted(came_from, n, k),
    ensures
        rooted(came_from.insert(m, to), n, k + kt + 1),
    decreases k,
{
    let after = came_from.insert(m, to);
    if n == m {
        assert(rooted(after, m, kt + 1));
        lemma_rooted_more(after, m, kt + 1, k + kt + 1);
    } else if came_from.contains_key(n) {
        lemma_rooted_after(came_from, m, to, kt, came_from[n], (k - 1) as nat);
        assert((k + kt + 1 - 1) as nat == (k - 1) as nat + kt + 1);
    }
}

/// The sums that looking at the edge `k` of `cur` forms fit in a `u64`.
pub proof fn lemma_edge_fits(g: Graph, start: u64, st: State, cur: u64, via: Seq<u64>, k: int)
    requires
        g.costs_fit(start),
        derives(g, start, st, cur, via),
        0 <= k < g.edges(cur).len(),
    ensures
        st.g_score[cur] + g.edges(cur)[k].1 + g.h(g.edges(cur)[k].0) <= u64::MAX,
{
    assert(g.is_simple_path(start, via));
    let edge = g.edges(via.last())[k];
    assert(g.path_cost(via) + edge.1 + g.h(edge.0) <= u64::MAX);
}

proof fn lemma_relax_scores(g: Graph, start: u64, st: State, cur: u64, k: int)
    requires
        scores_ok(g, start, st),
        st.g_score.contains_key(cur),
        0 <= k < g.edges(cur).len(),
        st.g_score[cur] + g.edges(cur)[k].1 <= u64::MAX,
        improves(st, g.edges(cur)[k].0, st.g_score[cur] + g.edges(cur)[k].1),
    ensures
        scores_ok(g, start, relax(g, st, cur, g.edges(cur)[k])),
        g.edges(cur)[k].0 != cur,
        g.edges(cur)[k].0 != start,
{
    let edge = g.edges(cur)[k];
    let m = edge.0;
    let after = relax(g, st, cur, edge);
    assert(g.has_edge(cur, m));
    lemma_edge_cost(g, cur, m);
    assert forall|x: u64| #[trigger] after.came_from.contains_key(x) implies links(g, after, x) by {
        if x != m {
            assert(links(g, st, x));
        }
    }
}

proof fn lemma_relax_entries(g: Graph, st: State, cur: u64, k: int)
    requires
        entries_ok(g, st),
        st.g_score.contains_key(cur),
        0 <= k < g.edges(cur).len(),
        st.g_score[cur] + g.edges(cur)[k].1 + g.h(g.edges(cur)[k].0) <= u64::MAX,
        improves(st, g.edges(cur)[k].0, st.g_score[cur] + g.edges(cur)[k].1),
    ensures
        entries_ok(g, relax(g, st, cur, g.edges(cur)[k])),
        st.count + 1 <= cap(),
        potential(relax(g, st, cur, g.edges(cur)[k]).g_score) < potential(st.g_score),
        !st.frontier.contains(
            Entry {
                priority: (st.g_score[cur] + g.edges(cur)[k].1 + g.h(g.edges(cur)[k].0)) as u64,
                seq: st.count,
                node: g.edges(cur)[k].0,
            },
        ),
{
    let edge = g.edges(cur)[k];
    let m = edge.0;
    let v = (st.g_score[cur] + edge.1) as u64;
    let after = relax(g, st, cur, edge);
    let fresh = Entry { priority: (v + g.h(m)) as u64, seq: st.count, node: m };
    lemma_potential_insert(st.g_score, m, v);
    lemma_potential_nonnegative(after.g_score, m);
    assert(pot(st.g_score, m) - v >= 1);
    if st.frontier.contains(fresh) {
        assert(entry_ok(g, st, fresh));
    }
    assert forall|e: Entry| #[trigger] after.frontier.contains(e) implies entry_ok(g, after, e) by {
        if e != fresh {
            assert(entry_ok(g, st, e));
        }
    }
    assert forall|a: Entry, b: Entry|
        #![trigger after.frontier.contains(a), after.frontier.contains(b)]
        after.frontier.contains(a) && after.frontier.contains(b) && a.seq == b.seq implies a
        == b by {
        if a != fresh {
            assert(entry_ok(g, st, a));
        }
        if b != fresh {
            assert(entry_ok(g, st, b));
        }
    }
}

proof fn lemma_relax_acyclic(g: Graph, start: u64, st: State, cur: u64, k: int)
    requires
        scores_ok(g, start, st),
        acyclic(st),
        st.g_score.contains_key(cur),
        0 <= k < g.edges(cur).len(),
        st.g_score[cur] + g.edges(cur)[k].1 <= u64::MAX,
        improves(st, g.edges(cur)[k].0, st.g_score[cur] + g.edges(cur)[k].1),
    ensures
        acyclic(relax(g, st, cur, g.edges(cur)[k])),
{
    let edge = g.edges(cur)[k];
    let m = edge.0;
    let after = relax(g, st, cur, edge);
    let kc = choose|kc: nat| rooted(st.came_from, cur, kc);
    lemma_rooted_keep(g, start, st, cur, kc, m, cur, st.g_score[cur] as int);
    assert forall|n: u64| #[trigger] after.g_score.contains_key(n) implies exists|j: nat|
        rooted(after.came_from, n, j) by {
        if n == m {
            assert(rooted(after.came_from, m, kc + 1));
        } else {
            let kn = choose|kn: nat| rooted(st.came_from, n, kn);
            lemma_rooted_after(st.came_from, m, cur, kc, n, kn);
        }
    }
}

proof fn lemma_relax_covered(g: Graph, st: State, cur: u64, k: int)
    requires
        covered_but(g, st, cur, k),
        0 <= k < g.edges(cur).len(),
        st.g_score[cur] + g.edges(cur)[k].1 + g.h(g.edges(cur)[k].0) <= u64::MAX,
    ensures
        covered_but(g, relax(g, st, cur, g.edges(cur)[k]), cur, k + 1),
{
    let edge = g.edges(cur)[k];
    let m = edge.0;
    let after = relax(g, st, cur, edge);
    if improves(st, m, st.g_score[cur] + edge.1) {
        let fresh = Entry {
            priority: (st.g_score[cur] + edge.1 + g.h(m)) as u64,
            seq: st.count,
            node: m,
        };
        assert(m != cur);
        assert forall|j: int| 0 <= j < k + 1 implies edge_done(
            after,
            cur,
            #[trigger] g.edges(cur)[j],
        ) by {
            if j < k {
                assert(edge_done(st, cur, g.edges(cur)[j]));
            }
        }
        assert forall|n: u64| #[trigger] after.g_score.contains_key(n) && n != cur implies is_open(
            g,
            after,
            n,
        ) || is_settled(g, after, n) by {
            if n == m {
                assert(after.frontier.contains(fresh));
            } else if is_open(g, st, n) {
                let e = choose|e: Entry| #[trigger]
                    st.frontier.contains(e) && e.node == n && e.priority == st.g_score[n] + g.h(n);
                assert(after.frontier.contains(e));
            } else {
                assert(is_settled(g, st, n));
                assert forall|j: int| 0 <= j < g.edges(n).len() implies edge_done(
                    after,
                    n,
                    #[trigger] g.edges(n)[j],
                ) by {
                    assert(edge_done(st, n, g.edges(n)[j]));
                }
            }
        }
    } else {
        assert forall|j: int| 0 <= j < k + 1 implies edge_done(
            after,
            cur,
            #[trigger] g.edges(cur)[j],
        ) by {
            if j < k {
                assert(edge_done(st, cur, g.edges(cur)[j]));
            }
        }
    }
}

proof fn lemma_relax_derivable(g: Graph, start: u64, st: State, cur: u64, via: Seq<u64>, k: int)
    requires
        derivable_but(g, start, st, cur, via),
        0 <= k < g.edges(cur).len(),
        st.g_score[cur] + g.edges(cur)[k].1 <= u64::MAX,
        improves(st, g.edges(cur)[k].0, st.g_score[cur] + g.edges(cur)[k].1),
    ensures
        derivable_but(g, start, relax(g, st, cur, g.edges(cur)[k]), cur, via),
{
    let edge = g.edges(cur)[k];
    let m = edge.0;
    let after = relax(g, st, cur, edge);
    assert(m != cur);
    if via.contains(m) {
        let i = choose|i: int| 0 <= i < via.len() && via[i] == m;
        assert(st.g_score.contains_key(via[i]) && st.g_score[via[i]] <= st.g_score[cur]);
        assert(false);
    }
    assert forall|n: u64, p: Seq<u64>| n != m && derives(g, start, st, n, p) implies derives(
        g,
        start,
        after,
        n,
        p,
    ) by {
        assert forall|i: int| 0 <= i < p.len() implies after.g_score.contains_key(#[trigger] p[i])
            && after.g_score[p[i]] <= after.g_score[n] by {
            assert(st.g_score.contains_key(p[i]) && st.g_score[p[i]] <= st.g_score[n]);
        }
    }
    assert(derives(g, start, after, cur, via));
    assert forall|n: u64| #[trigger] after.g_score.contains_key(n) implies (exists|p: Seq<u64>|
        derives(g, start, after, n, p)) || (after.came_from.contains_key(n) && after.came_from[n]
        == cur && !via.contains(n)) by {
        if n != m {
            assert(st.g_score.contains_key(n));
            if exists|p: Seq<u64>| derives(g, start, st, n, p) {
                let p = choose|p: Seq<u64>| derives(g, start, st, n, p);
                assert(derives(g, start, after, n, p));
            }
        }
    }
}

/// Looking at the next edge out of `cur` forms no sum that overflows, keeps
/// what holds during an expansion, and lowers the potential wherever it
/// changes the state.
pub proof fn lemma_relax(g: Graph, start: u64, st: State, cur: u64, via: Seq<u64>, k: int)
    requires
        g.costs_fit(start),
        expanding(g, start, st, cur, via, k),
        k < g.edges(cur).len(),
    ensures
        st.g_score[cur] + g.edges(cur)[k].1 + g.h(g.edges(cur)[k].0) <= u64::MAX,
        expanding(g, start, relax(g, st, cur, g.edges(cur)[k]), cur, via, k + 1),
        improves(st, g.edges(cur)[k].0, st.g_score[cur] + g.edges(cur)[k].1) ==> {
            &&& st.count + 1 <= cap()
            &&& potential(relax(g, st, cur, g.edges(cur)[k]).g_score) < potential(st.g_score)
            &&& g.edges(cur)[k].0 != cur
            &&& !st.frontier.contains(
                Entry {
                    priority: (st.g_score[cur] + g.edges(cur)[k].1 + g.h(g.edges(cur)[k].0)) as u64,
                    seq: st.count,
                    node: g.edges(cur)[k].0,
                },
            )
        },
        !improves(st, g.edges(cur)[k].0, st.g_score[cur] + g.edges(cur)[k].1) ==> relax(
            g,
            st,
            cur,
            g.edges(cur)[k],
        ) == st,
{
    lemma_edge_fits(g, start, st, cur, via, k);
    lemma_relax_covered(g, st, cur, k);
    if improves(st, g.edges(cur)[k].0, st.g_score[cur] + g.edges(cur)[k].1) {
        lemma_relax_scores(g, start, st, cur, k);
        lemma_relax_entries(g, st, cur, k);
        lemma_relax_acyclic(g, start, st, cur, k);
        lemma_relax_derivable(g, start, st, cur, via, k);
    }
}

/// Popping the least entry, whose node `cur` is no goal, begins the expansion
/// of `cur`.
pub proof fn lemma_pop(g: Graph, start: u64, st: State) -> (via: Seq<u64>)
    requires
        inv(g, start, st),
        !halted(g, st),
    ensures
        is_least(st.frontier, least(st.frontier)),
        expanding(g, start, popped(st), least(st.frontier).node, via, 0),
        popped(st).frontier.len() < st.frontier.len(),
{
    lemma_least_exists(st.frontier);
    let e = least(st.frontier);
    let cur = e.node;
    let after = popped(st);
    assert(entry_ok(g, st, e));
    let via = choose|p: Seq<u64>| derives(g, start, st, cur, p);
    assert forall|x: Entry| #[trigger] after.frontier.contains(x) implies entry_ok(g, after, x) by {
        assert(entry_ok(g, st, x));
    }
    assert forall|n: u64| #[trigger] after.g_score.contains_key(n) && n != cur implies is_open(
        g,
        after,
        n,
    ) || is_settled(g, after, n) by {
        if is_open(g, st, n) {
            let x = choose|x: Entry| #[trigger]
                st.frontier.contains(x) && x.node == n && x.priority == st.g_score[n] + g.h(n);
            assert(after.frontier.contains(x));
        } else {
            assert(is_settled(g, st, n));
            assert forall|j: int| 0 <= j < g.edges(n).len() implies edge_done(
                after,
                n,
                #[trigger] g.edges(n)[j],
            ) by {
                assert(edge_done(st, n, g.edges(n)[j]));
            }
        }
    }
    assert forall|n: u64, p: Seq<u64>| derives(g, start, st, n, p) implies derives(
        g,
        start,
        after,
        n,
        p,
    ) by {}
    assert forall|n: u64| #[trigger] after.g_score.contains_key(n) implies (exists|p: Seq<u64>|
        derives(g, start, after, n, p)) || (after.came_from.contains_key(n) && after.came_from[n]
        == cur && !via.contains(n)) by {
        let p = choose|p: Seq<u64>| derives(g, start, st, n, p);
        assert(derives(g, start, after, n, p));
    }
    assert forall|m: u64| #[trigger] after.came_from.contains_key(m) implies links(g, after, m) by {
        assert(links(g, st, m));
    }
    via
}

/// Once every edge out of `cur` was looked at, the invariant holds again.
pub proof fn lemma_close(g: Graph, start: u64, st: State, cur: u64, via: Seq<u64>)
    requires
        expanding(g, start, st, cur, via, g.edges(cur).len() as int),
    ensures
        inv(g, start, st),
{
    assert(is_settled(g, st, cur));
    assert forall|n: u64| #[trigger] st.g_score.contains_key(n) implies exists|p: Seq<u64>|
        derives(g, start, st, n, p) by {
        if !(exists|p: Seq<u64>| derives(g, start, st, n, p)) {
            assert(links(g, st, n));
            lemma_edge_cost(g, cur, n);
            let c = g.edge_cost(cur, n);
            let j = choose|j: int| 0 <= j < g.edges(cur).len() && #[trigger] g.edges(cur)[j] == (n, c);
            assert(edge_done(st, cur, g.edges(cur)[j]));
            let p = via.push(n);
            lemma_path_push(g, via, n);
            lemma_path_cost_push(g, via, n);
            assert forall|a: int, b: int| 0 <= a < p.len() && 0 <= b < p.len() && a != b implies p[a]
                != p[b] by {
                if a == via.len() {
                    assert(via[b] == p[b]);
                } else if b == via.len() {
                    assert(via[a] == p[a]);
                } else {
                    assert(via[a] == p[a] && via[b] == p[b]);
                }
            }
            assert forall|i: int| 0 <= i < p.len() implies st.g_score.contains_key(#[trigger] p[i])
                && st.g_score[p[i]] <= st.g_score[n] by {
                if i < via.len() {
                    assert(p[i] == via[i]);
                    assert(st.g_score.contains_key(via[i]) && st.g_score[via[i]] <= st.g_score[cur]);
                }
            }
            assert(p[0] == via[0]);
            assert(derives(g, start, st, n, p));
        }
    }
}

/// Looking at the first `k` edges out of `cur` keeps what holds during an
/// expansion, and either leaves the state as it was or lowers the potential.
pub proof fn lemma_expand(g: Graph, start: u64, st: State, cur: u64, via: Seq<u64>, k: nat)
    requires
        g.costs_fit(start),
        expanding(g, start, st, cur, via, 0),
        k <= g.edges(cur).len(),
    ensures
        expanding(g, start, expand(g, st, cur, k), cur, via, k as int),
        expand(g, st, cur, k) == st || potential(expand(g, st, cur, k).g_score) < potential(
            st.g_score,
        ),
    decreases k,
{
    if k > 0 {
        lemma_expand(g, start, st, cur, via, (k - 1) as nat);
        lemma_relax(g, start, expand(g, st, cur, (k - 1) as nat), cur, via, k - 1);
    }
}

/// A step from a state that has not halted keeps the invariant, and lowers
/// the potential or, leaving it as it is, shrinks the frontier.
pub proof fn lemma_step(g: Graph, start: u64, st: State)
    requires
        g.costs_fit(start),
        inv(g, start, st),
        !halted(g, st),
    ensures
        inv(g, start, step(g, st)),
        potential(step(g, st).g_score) < potential(st.g_score) || (potential(step(g, st).g_score)
            == potential(st.g_score) && step(g, st).frontier.len() < st.frontier.len()),
{
    let via = lemma_pop(g, start, st);
    let cur = least(st.frontier).node;
    lemma_expand(g, start, popped(st), cur, via, g.edges(cur).len());
    lemma_close(g, start, step(g, st), cur, via);
}

proof fn lemma_expand_lowers(
    g: Graph,
    start: u64,
    st: State,
    cur: u64,
    via: Seq<u64>,
    k: nat,
    n: u64,
)
    requires
        g.costs_fit(start),
        expanding(g, start, st, cur, via, 0),
        k <= g.edges(cur).len(),
        st.g_score.contains_key(n),
    ensures
        expand(g, st, cur, k).g_score.contains_key(n),
        expand(g, st, cur, k).g_score[n] <= st.g_score[n],
    decreases k,
{
    if k > 0 {
        lemma_expand_lowers(g, start, st, cur, via, (k - 1) as nat, n);
        lemma_expand(g, start, st, cur, via, (k - 1) as nat);
        lemma_relax(g, start, expand(g, st, cur, (k - 1) as nat), cur, via, k - 1);
    }
}

/// A step takes no score away and raises none: a score changes only to a
/// strictly lower one.
pub proof fn law_scores_only_fall(g: Graph, start: u64, st: State, n: u64)
    requires
        g.costs_fit(start),
        inv(g, start, st),
        st.g_score.contains_key(n),
    ensures
        step(g, st).g_score.contains_key(n),
        step(g, st).g_score[n] <= st.g_score[n],
{
    if !halted(g, st) {
        let via = lemma_pop(g, start, st);
        let cur = least(st.frontier).node;
        lemma_expand_lowers(g, start, popped(st), cur, via, g.edges(cur).len(), n);
    }
}

/// Every state that a search from `start` passes through satisfies the
/// invariant.
pub proof fn lemma_run_inv(g: Graph, start: u64, n: nat)
    requires
        g.costs_fit(start),
    ensures
        inv(g, start, run(g, initial(g, start), n)),
    decreases n,
{
    if n == 0 {
        lemma_initial_inv(g, start);
    } else {
        lemma_run_inv(g, start, (n - 1) as nat);
        let st = run(g, initial(g, start), (n - 1) as nat);
        if !halted(g, st) {
            lemma_step(g, start, st);
        }
    }
}

} // verus!
