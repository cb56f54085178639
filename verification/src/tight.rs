//! Why the score of the node that is popped is the cost of its recorded path,
//! whatever the heuristic: a node whose score was lowered waits in the
//! frontier ahead of every entry that descends from it.

use vstd::prelude::*;
use crate::graph::Graph;
use crate::graph::lemma_edge_cost;
use crate::graph::lemma_path_cost_push;
use crate::frontier::Entry;
use crate::frontier::precedes;
use crate::model::State;
use crate::model::initial;
use crate::model::improves;
use crate::model::relax;
use crate::model::expand;
use crate::model::least;
use crate::model::halted;
use crate::model::popped;
use crate::model::step;
use crate::model::run;
use crate::model::rooted;
use crate::model::trail;
use crate::model::chain;
use crate::invariants::inv;
use crate::invariants::expanding;
use crate::invariants::scores_ok;
use crate::invariants::links;
use crate::invariants::entry_ok;
use crate::invariants::is_open;
use crate::invariants::is_settled;
use crate::invariants::edge_done;
use crate::invariants::lemma_least_exists;
use crate::invariants::lemma_pop;
use crate::invariants::lemma_relax;
use crate::invariants::lemma_expand;
use crate::invariants::lemma_run_inv;

verus! {

/// `m` is met within `k` hops when following predecessors from `x`.
pub open spec fn under(came_from: Map<u64, u64>, x: u64, m: u64, k: nat) -> bool
    decreases k,
{
    came_from.contains_key(x) && k > 0 && (came_from[x] == m || under(
        came_from,
        came_from[x],
        m,
        (k - 1) as nat,
    ))
}

/// `x` descends from `m`: following predecessors from `x` meets `m`.
pub open spec fn below(came_from: Map<u64, u64>, x: u64, m: u64) -> bool {
    exists|k: nat| under(came_from, x, m, k)
}

/// A node has at most one entry of each priority.
pub open spec fn one_entry_each(st: State) -> bool {
    forall|a: Entry, b: Entry|
        #![trigger st.frontier.contains(a), st.frontier.contains(b)]
        st.frontier.contains(a) && st.frontier.contains(b) && a.node == b.node && a.priority
            == b.priority ==> a == b
}

/// The score of an open node plus heuristic is lower than the priority of
/// every entry of a node that descends from it.
pub open spec fn open_first(g: Graph, st: State) -> bool {
    forall|e: Entry, m: u64|
        #![trigger st.frontier.contains(e), below(st.came_from, e.node, m)]
        st.frontier.contains(e) && below(st.came_from, e.node, m) && is_open(g, st, m)
            ==> st.g_score[m] + g.h(m) < e.priority
}

/// Every entry whose priority is lower than the score of `m` plus heuristic
/// was pushed with a score no less than the score of `m`.
pub open spec fn undercut_only_from_above(g: Graph, st: State, m: u64) -> bool {
    forall|e: Entry| #[trigger]
        st.frontier.contains(e) && e.priority < st.g_score[m] + g.h(m) ==> e.priority - g.h(
            e.node,
        ) >= st.g_score[m]
}

/// No entry of a node that descends from `m` has a priority lower than the
/// score of `m` plus heuristic.
pub open spec fn descendants_wait(g: Graph, st: State, m: u64) -> bool {
    forall|e: Entry| #[trigger]
        st.frontier.contains(e) && below(st.came_from, e.node, m) ==> e.priority
            >= st.g_score[m] + g.h(m)
}

/// Of every scored node that is not open, one of the two holds.
pub open spec fn closed_ok(g: Graph, st: State) -> bool {
    forall|m: u64| #[trigger]
        st.g_score.contains_key(m) && !is_open(g, st, m) ==> undercut_only_from_above(g, st, m)
            || descendants_wait(g, st, m)
}

/// What holds between two steps of the order in which entries leave the
/// frontier.
pub open spec fn ordered(g: Graph, st: State) -> bool {
    &&& one_entry_each(st)
    &&& open_first(g, st)
    &&& closed_ok(g, st)
}

/// What holds of that order while the edges of `cur` are looked at: `cur`
/// and the nodes it descends from are not open, every entry has a priority
/// no lower than `cur` had or was pushed from `cur`, and each closed node
/// either scores no more than `cur` or is none that `cur` descends from.
pub open spec fn ordered_but(g: Graph, st: State, cur: u64) -> bool {
    &&& one_entry_each(st)
    &&& open_first(g, st)
    &&& !is_open(g, st, cur)
    &&& forall|m: u64| #[trigger] below(st.came_from, cur, m) ==> !is_open(g, st, m)
    &&& forall|e: Entry| #[trigger]
        st.frontier.contains(e) ==> e.priority >= st.g_score[cur] + g.h(cur) || e.priority - g.h(
            e.node,
        ) >= st.g_score[cur]
    &&& forall|m: u64| #[trigger]
        st.g_score.contains_key(m) && m != cur && !is_open(g, st, m) ==> (undercut_only_from_above(
            g,
            st,
            m,
        ) && st.g_score[m] <= st.g_score[cur]) || (descendants_wait(g, st, m) && !below(
            st.came_from,
            cur,
            m,
        ))
}

proof fn lemma_under_scores(g: Graph, start: u64, st: State, x: u64, m: u64, k: nat)
    requires
        scores_ok(g, start, st),
        under(st.came_from, x, m, k),
    ensures
        st.g_score.contains_key(x),
        st.g_score.contains_key(m),
        st.g_score[m] <= st.g_score[x],
    decreases k,
{
    assert(links(g, st, x));
    if st.came_from[x] != m {
        lemma_under_scores(g, start, st, st.came_from[x], m, (k - 1) as nat);
    }
}

proof fn lemma_below_hop(came_from: Map<u64, u64>, x: u64, m: u64)
    requires
        came_from.contains_key(x),
        came_from[x] == m || below(came_from, came_from[x], m),
    ensures
        below(came_from, x, m),
{
    if came_from[x] == m {
        assert(under(came_from, x, m, 1));
    } else {
        let k = choose|k: nat| under(came_from, came_from[x], m, k);
        assert(under(came_from, x, m, k + 1));
    }
}

proof fn lemma_under_keep(
    g: Graph,
    start: u64,
    st: State,
    x: u64,
    m: u64,
    k: nat,
    w: u64,
    to: u64,
    bound: int,
)
    requires
        scores_ok(g, start, st),
        st.g_score.contains_key(x),
        st.g_score[x] <= bound,
        st.g_score.contains_key(w) ==> st.g_score[w] > bound,
        under(st.came_from.insert(w, to), x, m, k),
    ensures
        under(st.came_from, x, m, k),
    decreases k,
{
    assert(x != w);
    assert(links(g, st, x));
    if st.came_from[x] != m {
        lemma_under_keep(g, start, st, st.came_from[x], m, (k - 1) as nat, w, to, bound);
    }
}

proof fn lemma_under_split(came_from: Map<u64, u64>, x: u64, m: u64, k: nat, w: u64, to: u64)
    requires
        under(came_from.insert(w, to), x, m, k),
    ensures
        x == w ==> m == to || below(came_from.insert(w, to), to, m),
        x != w ==> below(came_from, x, m) || (below(came_from, x, w) && (m == to || below(
            came_from.insert(w, to),
            to,
            m,
        ))),
    decreases k,
{
    let after = came_from.insert(w, to);
    if x == w {
        if m != to {
            assert(under(after, to, m, (k - 1) as nat));
        }
    } else {
        let y = came_from[x];
        if y == m {
            lemma_below_hop(came_from, x, m);
        } else {
            lemma_under_split(came_from, y, m, (k - 1) as nat, w, to);
            if y == w {
                lemma_below_hop(came_from, x, w);
            } else if below(came_from, y, m) {
                lemma_below_hop(came_from, x, m);
            } else {
                lemma_below_hop(came_from, x, w);
            }
        }
    }
}

/// The state before the first step is ordered.
pub proof fn lemma_initial_ordered(g: Graph, start: u64)
    ensures
        ordered(g, initial(g, start)),
{
    let st = initial(g, start);
    let e0 = Entry { priority: g.h(start), seq: 0, node: start };
    assert(st.frontier.contains(e0));
    assert(is_open(g, st, start));
    assert forall|e: Entry, m: u64|
        #![trigger st.frontier.contains(e), below(st.came_from, e.node, m)]
        st.frontier.contains(e) && below(st.came_from, e.node, m) && is_open(g, st, m)
            implies st.g_score[m] + g.h(m) < e.priority by {
        let k = choose|k: nat| under(st.came_from, e.node, m, k);
        assert(false);
    }
}

/// What `relax` does where the edge improves on its target's score.
proof fn lemma_relax_shape(g: Graph, st: State, cur: u64, k: int)
    requires
        0 <= k < g.edges(cur).len(),
        st.g_score[cur] + g.edges(cur)[k].1 + g.h(g.edges(cur)[k].0) <= u64::MAX,
        improves(st, g.edges(cur)[k].0, st.g_score[cur] + g.edges(cur)[k].1),
    ensures
        ({
            let w = g.edges(cur)[k].0;
            let t = st.g_score[cur] + g.edges(cur)[k].1;
            let fresh = Entry { priority: (t + g.h(w)) as u64, seq: st.count, node: w };
            let after = relax(g, st, cur, g.edges(cur)[k]);
            &&& after.frontier == st.frontier.insert(fresh)
            &&& after.g_score == st.g_score.insert(w, t as u64)
            &&& after.came_from == st.came_from.insert(w, cur)
            &&& fresh.priority == t + g.h(w)
        }),
{
}

proof fn lemma_relax_ordered(g: Graph, start: u64, st: State, cur: u64, via: Seq<u64>, k: int)
    requires
        g.costs_fit(start),
        expanding(g, start, st, cur, via, k),
        ordered_but(g, st, cur),
        k < g.edges(cur).len(),
    ensures
        ordered_but(g, relax(g, st, cur, g.edges(cur)[k]), cur),
{
    let w = g.edges(cur)[k].0;
    let t = st.g_score[cur] + g.edges(cur)[k].1;
    lemma_relax(g, start, st, cur, via, k);
    if improves(st, w, t) {
        lemma_relax_shape(g, st, cur, k);
        let fresh = Entry { priority: (t + g.h(w)) as u64, seq: st.count, node: w };
        let after = relax(g, st, cur, g.edges(cur)[k]);
        let cf = st.came_from;
        let cf2 = after.came_from;
        assert(after.frontier.contains(fresh));
        assert(is_open(g, after, w));
        // Whether a node other than the target is open is as before.
        assert forall|m: u64| m != w implies is_open(g, after, m) == is_open(g, st, m) by {
            if is_open(g, st, m) {
                let e = choose|e: Entry| #[trigger]
                    st.frontier.contains(e) && e.node == m && e.priority == st.g_score[m] + g.h(m);
                assert(after.frontier.contains(e));
            }
            if is_open(g, after, m) {
                let e = choose|e: Entry| #[trigger]
                    after.frontier.contains(e) && e.node == m && e.priority == after.g_score[m]
                        + g.h(m);
                assert(st.frontier.contains(e));
            }
        }
        // The line of predecessors of `cur` is as before, and the target is not on it.
        assert forall|m: u64| #[trigger] below(cf2, cur, m) implies below(cf, cur, m) by {
            let j = choose|j: nat| under(cf2, cur, m, j);
            lemma_under_keep(g, start, st, cur, m, j, w, cur, st.g_score[cur] as int);
        }
        assert forall|m: u64| #[trigger] below(cf, cur, m) implies m != w && st.g_score.contains_key(
            m,
        ) by {
            let j = choose|j: nat| under(cf, cur, m, j);
            lemma_under_scores(g, start, st, cur, m, j);
        }
        // Every line of predecessors is as before, or runs through the target to `cur`.
        assert forall|x: u64, m: u64| #[trigger] below(cf2, x, m) implies (x == w ==> m == cur
            || below(cf, cur, m)) && (x != w ==> below(cf, x, m) || (below(cf, x, w) && (m == cur
            || below(cf, cur, m)))) by {
            let j = choose|j: nat| under(cf2, x, m, j);
            lemma_under_split(cf, x, m, j, w, cur);
            if below(cf2, cur, m) {
                assert(below(cf, cur, m));
            }
        }
        assert(one_entry_each(after)) by {
            assert forall|a: Entry, b: Entry|
                #![trigger after.frontier.contains(a), after.frontier.contains(b)]
                after.frontier.contains(a) && after.frontier.contains(b) && a.node == b.node
                    && a.priority == b.priority implies a == b by {
                if a == fresh && b != fresh {
                    assert(entry_ok(g, st, b));
                } else if b == fresh && a != fresh {
                    assert(entry_ok(g, st, a));
                }
            }
        }
        assert(!is_open(g, after, cur));
        assert forall|m: u64| #[trigger] below(cf2, cur, m) implies !is_open(g, after, m) by {
            assert(below(cf, cur, m));
        }
        assert forall|e: Entry| #[trigger] after.frontier.contains(e) implies e.priority
            >= after.g_score[cur] + g.h(cur) || e.priority - g.h(e.node) >= after.g_score[cur] by {
            if e != fresh {
                assert(st.frontier.contains(e));
            }
        }
        assert(open_first(g, after)) by {
            assert forall|e: Entry, m: u64|
                #![trigger after.frontier.contains(e), below(cf2, e.node, m)]
                after.frontier.contains(e) && below(cf2, e.node, m) && is_open(g, after, m)
                    implies after.g_score[m] + g.h(m) < e.priority by {
                let x = e.node;
                if m == cur || below(cf, cur, m) {
                    if m != cur {
                        assert(below(cf2, cur, m)) by {
                            let j = choose|j: nat| under(cf, cur, m, j);
                            lemma_under_grow(g, start, st, cur, m, j, w, cur, st.g_score[cur] as int);
                        }
                    }
                    assert(false);
                } else {
                    assert(x != w && below(cf, x, m));
                    assert(st.frontier.contains(e));
                    if m != w {
                        assert(is_open(g, st, m));
                    } else {
                        let j = choose|j: nat| under(cf, x, w, j);
                        lemma_under_scores(g, start, st, x, w, j);
                        if is_open(g, st, w) {
                        } else {
                            assert(descendants_wait(g, st, w));
                        }
                    }
                }
            }
        }
        assert forall|m: u64| #[trigger]
            after.g_score.contains_key(m) && m != cur && !is_open(g, after, m) implies (
        undercut_only_from_above(g, after, m) && after.g_score[m] <= after.g_score[cur]) || (
        descendants_wait(g, after, m) && !below(cf2, cur, m)) by {
            assert(m != w);
            assert(st.g_score.contains_key(m) && !is_open(g, st, m));
            if undercut_only_from_above(g, st, m) && st.g_score[m] <= st.g_score[cur] {
                assert forall|e: Entry| #[trigger]
                    after.frontier.contains(e) && e.priority < after.g_score[m] + g.h(m)
                        implies e.priority - g.h(e.node) >= after.g_score[m] by {
                    if e != fresh {
                        assert(st.frontier.contains(e));
                    }
                }
            } else {
                assert(descendants_wait(g, st, m) && !below(cf, cur, m));
                assert forall|e: Entry| #[trigger]
                    after.frontier.contains(e) && below(cf2, e.node, m) implies e.priority
                    >= after.g_score[m] + g.h(m) by {
                    assert(e.node != w && below(cf, e.node, m));
                    assert(st.frontier.contains(e));
                }
                if below(cf2, cur, m) {
                    assert(below(cf, cur, m));
                }
            }
        }
    }
}

proof fn lemma_under_grow(
    g: Graph,
    start: u64,
    st: State,
    x: u64,
    m: u64,
    k: nat,
    w: u64,
    to: u64,
    bound: int,
)
    requires
        scores_ok(g, start, st),
        st.g_score.contains_key(x),
        st.g_score[x] <= bound,
        st.g_score.contains_key(w) ==> st.g_score[w] > bound,
        under(st.came_from, x, m, k),
    ensures
        under(st.came_from.insert(w, to), x, m, k),
    decreases k,
{
    assert(x != w);
    assert(links(g, st, x));
    if st.came_from[x] != m {
        lemma_under_grow(g, start, st, st.came_from[x], m, (k - 1) as nat, w, to, bound);
    }
}

proof fn lemma_expand_ordered(g: Graph, start: u64, st: State, cur: u64, via: Seq<u64>, k: nat)
    requires
        g.costs_fit(start),
        expanding(g, start, st, cur, via, 0),
        ordered_but(g, st, cur),
        k <= g.edges(cur).len(),
    ensures
        ordered_but(g, expand(g, st, cur, k), cur),
    decreases k,
{
    if k > 0 {
        lemma_expand_ordered(g, start, st, cur, via, (k - 1) as nat);
        lemma_expand(g, start, st, cur, via, (k - 1) as nat);
        lemma_relax_ordered(g, start, expand(g, st, cur, (k - 1) as nat), cur, via, k - 1);
    }
}

/// Looking at the edges of a settled node changes nothing.
proof fn lemma_expand_settled(g: Graph, st: State, cur: u64, k: nat)
    requires
        st.g_score.contains_key(cur),
        is_settled(g, st, cur),
        k <= g.edges(cur).len(),
    ensures
        expand(g, st, cur, k) == st,
    decreases k,
{
    if k > 0 {
        lemma_expand_settled(g, st, cur, (k - 1) as nat);
        assert(edge_done(st, cur, g.edges(cur)[k - 1]));
    }
}

/// Taking the least entry out keeps the order where the entry was not the
/// one that made its node open.
proof fn lemma_pop_stale(g: Graph, start: u64, st: State)
    requires
        inv(g, start, st),
        ordered(g, st),
        !st.frontier.is_empty(),
        least(st.frontier).priority != st.g_score[least(st.frontier).node] + g.h(
            least(st.frontier).node,
        ),
    ensures
        ordered(g, popped(st)),
        is_settled(g, st, least(st.frontier).node),
{
    lemma_least_exists(st.frontier);
    let e0 = least(st.frontier);
    let cur = e0.node;
    let after = popped(st);
    assert(entry_ok(g, st, e0));
    if is_open(g, st, cur) {
        let e = choose|e: Entry| #[trigger]
            st.frontier.contains(e) && e.node == cur && e.priority == st.g_score[cur] + g.h(cur);
        assert(precedes(e0, e));
        assert(false);
    }
    assert forall|m: u64| is_open(g, after, m) == is_open(g, st, m) by {
        if is_open(g, st, m) {
            let e = choose|e: Entry| #[trigger]
                st.frontier.contains(e) && e.node == m && e.priority == st.g_score[m] + g.h(m);
            assert(after.frontier.contains(e));
        }
        if is_open(g, after, m) {
            let e = choose|e: Entry| #[trigger]
                after.frontier.contains(e) && e.node == m && e.priority == after.g_score[m] + g.h(
                    m,
                );
            assert(st.frontier.contains(e));
        }
    }
    assert(open_first(g, after)) by {
        assert forall|e: Entry, m: u64|
            #![trigger after.frontier.contains(e), below(after.came_from, e.node, m)]
            after.frontier.contains(e) && below(after.came_from, e.node, m) && is_open(g, after, m)
                implies after.g_score[m] + g.h(m) < e.priority by {
            assert(st.frontier.contains(e));
            assert(is_open(g, st, m));
        }
    }
    assert forall|m: u64| #[trigger]
        after.g_score.contains_key(m) && !is_open(g, after, m) implies undercut_only_from_above(
        g,
        after,
        m,
    ) || descendants_wait(g, after, m) by {
        assert(!is_open(g, st, m));
        if undercut_only_from_above(g, st, m) {
            assert forall|e: Entry| #[trigger]
                after.frontier.contains(e) && e.priority < after.g_score[m] + g.h(m)
                    implies e.priority - g.h(e.node) >= after.g_score[m] by {
                assert(st.frontier.contains(e));
            }
        } else {
            assert(descendants_wait(g, st, m));
            assert forall|e: Entry| #[trigger]
                after.frontier.contains(e) && below(after.came_from, e.node, m) implies e.priority
                >= after.g_score[m] + g.h(m) by {
                assert(st.frontier.contains(e));
            }
        }
    }
    assert(one_entry_each(after)) by {
        assert forall|a: Entry, b: Entry|
            #![trigger after.frontier.contains(a), after.frontier.contains(b)]
            after.frontier.contains(a) && after.frontier.contains(b) && a.node == b.node
                && a.priority == b.priority implies a == b by {
            assert(st.frontier.contains(a) && st.frontier.contains(b));
        }
    }
}

/// Taking out the least entry, which made its node `cur` open, begins the
/// expansion of `cur` in order.
proof fn lemma_pop_ordered(g: Graph, start: u64, st: State)
    requires
        inv(g, start, st),
        ordered(g, st),
        !st.frontier.is_empty(),
        least(st.frontier).priority == st.g_score[least(st.frontier).node] + g.h(
            least(st.frontier).node,
        ),
    ensures
        ordered_but(g, popped(st), least(st.frontier).node),
{
    lemma_least_exists(st.frontier);
    let e0 = least(st.frontier);
    let cur = e0.node;
    let after = popped(st);
    let cf = st.came_from;
    assert(entry_ok(g, st, e0));
    assert forall|m: u64| is_open(g, after, m) implies is_open(g, st, m) by {
        let e = choose|e: Entry| #[trigger]
            after.frontier.contains(e) && e.node == m && e.priority == after.g_score[m] + g.h(m);
        assert(st.frontier.contains(e));
    }
    assert forall|m: u64| m != cur && is_open(g, st, m) implies is_open(g, after, m) by {
        let e = choose|e: Entry| #[trigger]
            st.frontier.contains(e) && e.node == m && e.priority == st.g_score[m] + g.h(m);
        assert(after.frontier.contains(e));
    }
    assert(one_entry_each(after)) by {
        assert forall|a: Entry, b: Entry|
            #![trigger after.frontier.contains(a), after.frontier.contains(b)]
            after.frontier.contains(a) && after.frontier.contains(b) && a.node == b.node
                && a.priority == b.priority implies a == b by {
            assert(st.frontier.contains(a) && st.frontier.contains(b));
        }
    }
    assert(open_first(g, after)) by {
        assert forall|e: Entry, m: u64|
            #![trigger after.frontier.contains(e), below(after.came_from, e.node, m)]
            after.frontier.contains(e) && below(after.came_from, e.node, m) && is_open(g, after, m)
                implies after.g_score[m] + g.h(m) < e.priority by {
            assert(st.frontier.contains(e));
            assert(is_open(g, st, m));
        }
    }
    if is_open(g, after, cur) {
        let e = choose|e: Entry| #[trigger]
            after.frontier.contains(e) && e.node == cur && e.priority == after.g_score[cur] + g.h(
                cur,
            );
        assert(st.frontier.contains(e) && st.frontier.contains(e0));
        assert(e == e0);
        assert(false);
    }
    assert forall|m: u64| #[trigger] below(after.came_from, cur, m) implies !is_open(
        g,
        after,
        m,
    ) by {
        if is_open(g, st, m) {
            assert(st.frontier.contains(e0) && below(cf, e0.node, m));
            let e = choose|e: Entry| #[trigger]
                st.frontier.contains(e) && e.node == m && e.priority == st.g_score[m] + g.h(m);
            assert(precedes(e0, e));
            assert(false);
        }
    }
    assert forall|e: Entry| #[trigger] after.frontier.contains(e) implies e.priority
        >= after.g_score[cur] + g.h(cur) || e.priority - g.h(e.node) >= after.g_score[cur] by {
        assert(st.frontier.contains(e));
        assert(precedes(e0, e));
    }
    assert forall|m: u64| #[trigger]
        after.g_score.contains_key(m) && m != cur && !is_open(g, after, m) implies (
    undercut_only_from_above(g, after, m) && after.g_score[m] <= after.g_score[cur]) || (
    descendants_wait(g, after, m) && !below(after.came_from, cur, m)) by {
        assert(!is_open(g, st, m));
        let fm = st.g_score[m] + g.h(m);
        if e0.priority >= fm {
            // Nothing in the frontier has a lower priority than `m` has.
            assert forall|e: Entry| #[trigger] after.frontier.contains(e) implies e.priority
                >= fm by {
                assert(st.frontier.contains(e));
                assert(precedes(e0, e));
            }
            if below(cf, cur, m) {
                let j = choose|j: nat| under(cf, cur, m, j);
                lemma_under_scores(g, start, st, cur, m, j);
                assert(undercut_only_from_above(g, after, m));
            } else {
                assert(descendants_wait(g, after, m));
            }
        } else {
            if below(cf, cur, m) {
                assert(st.frontier.contains(e0) && below(cf, e0.node, m));
                assert(!descendants_wait(g, st, m));
            }
            if undercut_only_from_above(g, st, m) {
                assert(st.frontier.contains(e0));
                assert(st.g_score[m] <= st.g_score[cur]);
                assert forall|e: Entry| #[trigger]
                    after.frontier.contains(e) && e.priority < after.g_score[m] + g.h(m)
                        implies e.priority - g.h(e.node) >= after.g_score[m] by {
                    assert(st.frontier.contains(e));
                }
            } else {
                assert(descendants_wait(g, st, m));
                assert(!below(cf, cur, m));
                assert forall|e: Entry| #[trigger]
                    after.frontier.contains(e) && below(after.came_from, e.node, m)
                        implies e.priority >= after.g_score[m] + g.h(m) by {
                    assert(st.frontier.contains(e));
                }
            }
        }
    }
}

/// Once every edge out of `cur` was looked at, the order holds again.
proof fn lemma_close_ordered(g: Graph, st: State, cur: u64)
    requires
        st.g_score.contains_key(cur),
        ordered_but(g, st, cur),
    ensures
        ordered(g, st),
{
    assert forall|m: u64| #[trigger]
        st.g_score.contains_key(m) && !is_open(g, st, m) implies undercut_only_from_above(g, st, m)
        || descendants_wait(g, st, m) by {
        if m == cur {
            assert(undercut_only_from_above(g, st, cur));
        }
    }
}

/// A step from an ordered state that has not halted leads to an ordered state.
pub proof fn lemma_step_ordered(g: Graph, start: u64, st: State)
    requires
        g.costs_fit(start),
        inv(g, start, st),
        ordered(g, st),
        !halted(g, st),
    ensures
        ordered(g, step(g, st)),
{
    let via = lemma_pop(g, start, st);
    let e0 = least(st.frontier);
    let cur = e0.node;
    let n = g.edges(cur).len();
    assert(entry_ok(g, st, e0));
    if e0.priority == st.g_score[cur] + g.h(cur) {
        lemma_pop_ordered(g, start, st);
        lemma_expand_ordered(g, start, popped(st), cur, via, n);
        lemma_expand(g, start, popped(st), cur, via, n);
        lemma_close_ordered(g, step(g, st), cur);
    } else {
        lemma_pop_stale(g, start, st);
        assert(is_settled(g, popped(st), cur)) by {
            assert forall|j: int| 0 <= j < g.edges(cur).len() implies edge_done(
                popped(st),
                cur,
                #[trigger] g.edges(cur)[j],
            ) by {
                assert(edge_done(st, cur, g.edges(cur)[j]));
            }
        }
        lemma_expand_settled(g, popped(st), cur, n);
    }
}

/// Every state that a search from `start` passes through is ordered.
pub proof fn lemma_run_ordered(g: Graph, start: u64, n: nat)
    requires
        g.costs_fit(start),
    ensures
        ordered(g, run(g, initial(g, start), n)),
    decreases n,
{
    if n == 0 {
        lemma_initial_ordered(g, start);
    } else {
        lemma_run_ordered(g, start, (n - 1) as nat);
        lemma_run_inv(g, start, (n - 1) as nat);
        let st = run(g, initial(g, start), (n - 1) as nat);
        if !halted(g, st) {
            lemma_step_ordered(g, start, st);
        }
    }
}

proof fn lemma_trail_tight(g: Graph, start: u64, st: State, n: u64, k: nat)
    requires
        scores_ok(g, start, st),
        st.g_score.contains_key(n),
        rooted(st.came_from, n, k),
        forall|m: u64| #[trigger] below(st.came_from, n, m) ==> is_settled(g, st, m),
    ensures
        g.path_cost(trail(st.came_from, n, k)) == st.g_score[n],
    decreases k,
{
    if st.came_from.contains_key(n) {
        let c = st.came_from[n];
        assert(links(g, st, n));
        lemma_below_hop(st.came_from, n, c);
        assert(is_settled(g, st, c));
        lemma_edge_cost(g, c, n);
        let cost = g.edge_cost(c, n);
        let j = choose|j: int| 0 <= j < g.edges(c).len() && #[trigger] g.edges(c)[j] == (n, cost);
        assert(edge_done(st, c, g.edges(c)[j]));
        assert forall|m: u64| #[trigger] below(st.came_from, c, m) implies is_settled(g, st, m) by {
            lemma_below_hop(st.came_from, n, m);
        }
        lemma_trail_tight(g, start, st, c, (k - 1) as nat);
        let q = trail(st.came_from, c, (k - 1) as nat);
        crate::model::lemma_trail_last(st.came_from, c, (k - 1) as nat);
        lemma_path_cost_push(g, q, n);
    } else {
        assert(n == start);
        assert(g.path_cost(seq![n]) == 0);
    }
}

/// The recorded path of the node that is popped next costs exactly its score.
pub proof fn lemma_least_is_tight(g: Graph, start: u64, st: State)
    requires
        inv(g, start, st),
        ordered(g, st),
        !st.frontier.is_empty(),
    ensures
        st.g_score.contains_key(least(st.frontier).node),
        g.path_cost(chain(st.came_from, least(st.frontier).node)) == st.g_score[least(
            st.frontier,
        ).node],
{
    lemma_least_exists(st.frontier);
    let e0 = least(st.frontier);
    let cur = e0.node;
    assert(entry_ok(g, st, e0));
    assert forall|m: u64| #[trigger] below(st.came_from, cur, m) implies is_settled(g, st, m) by {
        let j = choose|j: nat| under(st.came_from, cur, m, j);
        lemma_under_scores(g, start, st, cur, m, j);
        if is_open(g, st, m) {
            assert(st.frontier.contains(e0) && below(st.came_from, e0.node, m));
            let e = choose|e: Entry| #[trigger]
                st.frontier.contains(e) && e.node == m && e.priority == st.g_score[m] + g.h(m);
            assert(precedes(e0, e));
            assert(false);
        }
    }
    let k = choose|k: nat| rooted(st.came_from, cur, k);
    lemma_trail_tight(g, start, st, cur, k);
}

} // verus!
