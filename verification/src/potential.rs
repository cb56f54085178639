//! The measure by which a search is seen to end: the sum, over all nodes, of
//! what each node's score can still lose.

use vstd::prelude::*;

verus! {

/// One more than the largest score.
pub open spec fn unseen() -> int {
    0x1_0000_0000_0000_0000
}

/// The bound under which the sequence counter stays.
pub open spec fn cap() -> int {
    1 + 0xffff_ffff_ffff_ffff * unseen()
}

/// What is left of a node's score: the score, or more than any score where
/// the node was never seen.
pub open spec fn pot(scores: Map<u64, u64>, n: u64) -> int {
    if scores.contains_key(n) {
        scores[n] as int
    } else {
        unseen()
    }
}

/// The sum of `pot` over the nodes below `n`.
pub open spec fn pot_sum(scores: Map<u64, u64>, n: int) -> int
    decreases n,
{
    if n <= 0 {
        0
    } else {
        pot_sum(scores, n - 1) + pot(scores, (n - 1) as u64)
    }
}

/// The sum of `pot` over all nodes.
pub open spec fn potential(scores: Map<u64, u64>) -> int {
    pot_sum(scores, unseen())
}

proof fn lemma_pot_sum_bounds(scores: Map<u64, u64>, seen: u64, n: int)
    requires
        0 <= n <= unseen(),
        scores.contains_key(seen),
    ensures
        0 <= pot_sum(scores, n),
        pot_sum(scores, n) + (if seen < n { unseen() - scores[seen] } else { 0 }) <= n * unseen(),
    decreases n,
{
    if n > 0 {
        lemma_pot_sum_bounds(scores, seen, n - 1);
    }
}

proof fn lemma_pot_sum_insert(scores: Map<u64, u64>, m: u64, v: u64, n: int)
    requires
        0 <= n <= unseen(),
    ensures
        pot_sum(scores.insert(m, v), n) == pot_sum(scores, n) - (if m < n {
            pot(scores, m) - v
        } else {
            0
        }),
    decreases n,
{
    if n > 0 {
        lemma_pot_sum_insert(scores, m, v, n - 1);
    }
}

/// The potential is never negative.
pub proof fn lemma_potential_nonnegative(scores: Map<u64, u64>, seen: u64)
    requires
        scores.contains_key(seen),
    ensures
        0 <= potential(scores),
        potential(scores) + unseen() - scores[seen] <= unseen() * unseen(),
{
    lemma_pot_sum_bounds(scores, seen, unseen());
}

/// Lowering one node's score, or giving a score to a node that had none,
/// lowers the potential by as much.
pub proof fn lemma_potential_insert(scores: Map<u64, u64>, m: u64, v: u64)
    ensures
        potential(scores.insert(m, v)) == potential(scores) - (pot(scores, m) - v),
{
    lemma_pot_sum_insert(scores, m, v, unseen());
}

} // verus!
