//! The search frontier: a binary min-heap of entries ordered by priority and,
//! among equal priorities, by insertion sequence number.

use vstd::prelude::*;

verus! {

/// One frontier entry: a node with the priority it was pushed with and the
/// sequence number of the push.
#[derive(Clone, Copy, Debug)]
pub struct Entry {
    pub priority: u64,
    pub seq: u128,
    pub node: u64,
}

/// `a` leaves the frontier no later than `b`: lower priority first, and among
/// equal priorities the earlier insertion first.
pub open spec fn precedes(a: Entry, b: Entry) -> bool {
    a.priority < b.priority || (a.priority == b.priority && a.seq <= b.seq)
}

/// `e` is an entry of `f` that precedes every entry of `f`.
pub open spec fn is_least(f: Set<Entry>, e: Entry) -> bool {
    f.contains(e) && forall|x: Entry| f.contains(x) ==> precedes(e, x)
}

pub open spec fn parent(i: int) -> int {
    (i - 1) / 2
}

/// Every element but the root is preceded by its parent.
pub open spec fn heap_ordered(s: Seq<Entry>) -> bool {
    forall|i: int| 0 < i < s.len() ==> precedes(s[parent(i)], #[trigger] s[i])
}

/// As `heap_ordered`, except that the element at `hole` need not be preceded by
/// its parent; instead its parent precedes its children.
pub open spec fn ordered_but_above(s: Seq<Entry>, hole: int) -> bool {
    &&& forall|i: int| 0 < i < s.len() && i != hole ==> precedes(s[parent(i)], #[trigger] s[i])
    &&& forall|i: int|
        0 < i < s.len() && parent(i) == hole && hole > 0 ==> precedes(
            s[parent(hole)],
            #[trigger] s[i],
        )
}

/// As `heap_ordered`, except that the element at `hole` need not precede its
/// children; instead its parent precedes its children.
pub open spec fn ordered_but_below(s: Seq<Entry>, hole: int) -> bool {
    &&& forall|i: int|
        0 < i < s.len() && parent(i) != hole ==> precedes(s[parent(i)], #[trigger] s[i])
    &&& forall|i: int|
        0 < i < s.len() && parent(i) == hole && hole > 0 ==> precedes(
            s[parent(hole)],
            #[trigger] s[i],
        )
}

proof fn lemma_root_precedes(s: Seq<Entry>, i: int)
    requires
        heap_ordered(s),
        0 <= i < s.len(),
    ensures
        precedes(s[0], s[i]),
    decreases i,
{
    if i > 0 {
        lemma_root_precedes(s, parent(i));
        assert(precedes(s[parent(i)], s[i]));
    }
}

/// Exchanging two elements changes neither the set of elements nor their
/// distinctness.
proof fn lemma_exchange(s: Seq<Entry>, i: int, j: int)
    requires
        0 <= i < s.len(),
        0 <= j < s.len(),
        s.no_duplicates(),
    ensures
        s.update(i, s[j]).update(j, s[i]).no_duplicates(),
        s.update(i, s[j]).update(j, s[i]).to_set() == s.to_set(),
{
    let t = s.update(i, s[j]).update(j, s[i]);
    assert forall|a: int, b: int| 0 <= a < t.len() && 0 <= b < t.len() && a != b implies t[a]
        != t[b] by {
        let a0 = if a == i { j } else if a == j { i } else { a };
        let b0 = if b == i { j } else if b == j { i } else { b };
        assert(t[a] == s[a0] && t[b] == s[b0]);
    }
    assert forall|x: Entry| t.to_set().contains(x) <==> s.to_set().contains(x) by {
        if t.to_set().contains(x) {
            let a = choose|a: int| 0 <= a < t.len() && t[a] == x;
            let a0 = if a == i { j } else if a == j { i } else { a };
            assert(s[a0] == x);
        }
        if s.to_set().contains(x) {
            let a = choose|a: int| 0 <= a < s.len() && s[a] == x;
            let a0 = if a == i { j } else if a == j { i } else { a };
            assert(t[a0] == x);
        }
    }
    assert(t.to_set() =~= s.to_set());
}

/// A priority queue of entries. Entries are told apart by their sequence
/// numbers, so no entry is held twice.
pub struct Frontier {
    heap: Vec<Entry>,
}

impl View for Frontier {
    type V = Set<Entry>;

    closed spec fn view(&self) -> Set<Entry> {
        self.heap@.to_set()
    }
}

impl Frontier {
    /// The representation invariant: heap order, and no entry twice.
    pub closed spec fn wf(&self) -> bool {
        heap_ordered(self.heap@) && self.heap@.no_duplicates()
    }

    pub fn new() -> (f: Frontier)
        ensures
            f.wf(),
            f@ == Set::<Entry>::empty(),
    {
        let f = Frontier { heap: Vec::new() };
        assert(f.heap@.to_set() =~= Set::<Entry>::empty());
        f
    }

    pub fn is_empty(&self) -> (b: bool)
        requires
            self.wf(),
        ensures
            b == self@.is_empty(),
    {
        proof {
            if self.heap@.len() > 0 {
                assert(self.heap@.to_set().contains(self.heap@[0]));
            }
            assert(self.heap@.len() == 0 ==> self.heap@.to_set() =~= Set::<Entry>::empty());
        }
        self.heap.len() == 0
    }

    /// Adds an entry that the queue does not hold yet.
    pub fn push(&mut self, e: Entry)
        requires
            old(self).wf(),
            !old(self)@.contains(e),
        ensures
            final(self).wf(),
            final(self)@ == old(self)@.insert(e),
    {
        let ghost before = self.heap@;
        self.heap.push(e);
        proof {
            let s = self.heap@;
            assert(s =~= before.push(e));
            assert forall|a: int, b: int| 0 <= a < s.len() && 0 <= b < s.len() && a != b implies s[a]
                != s[b] by {
                if a == s.len() - 1 {
                    assert(before.to_set().contains(before[b]));
                } else if b == s.len() - 1 {
                    assert(before.to_set().contains(before[a]));
                }
            }
            assert forall|x: Entry| s.to_set().contains(x) <==> before.to_set().insert(e).contains(
                x,
            ) by {
                if s.to_set().contains(x) {
                    let a = choose|a: int| 0 <= a < s.len() && s[a] == x;
                    if a < before.len() {
                        assert(before[a] == x);
                    }
                }
                if before.to_set().contains(x) {
                    let a = choose|a: int| 0 <= a < before.len() && before[a] == x;
                    assert(s[a] == x);
                }
                if x == e {
                    assert(s[s.len() - 1] == x);
                }
            }
            assert(s.to_set() =~= before.to_set().insert(e));
        }
        let mut i: usize = self.heap.len() - 1;
        while i > 0
            invariant
                0 <= i < self.heap@.len(),
                self.heap@.no_duplicates(),
                self.heap@.to_set() == before.to_set().insert(e),
                ordered_but_above(self.heap@, i as int),
            ensures
                heap_ordered(self.heap@),
            decreases i,
        {
            let p: usize = (i - 1) / 2;
            let child = self.heap[i];
            let above = self.heap[p];
            if above.priority < child.priority || (above.priority == child.priority && above.seq
                <= child.seq) {
                assert(precedes(self.heap@[parent(i as int)], self.heap@[i as int]));
                break;
            }
            let ghost s = self.heap@;
            self.heap.set(i, above);
            self.heap.set(p, child);
            proof {
                lemma_exchange(s, i as int, p as int);
                let t = self.heap@;
                assert(t =~= s.update(i as int, s[p as int]).update(p as int, s[i as int]));
                assert(precedes(s[i as int], s[p as int]));
                assert forall|j: int| 0 < j < t.len() && j != p implies precedes(
                    t[parent(j)],
                    #[trigger] t[j],
                ) by {
                    if j == i {
                    } else if parent(j) == i {
                        assert(precedes(s[p as int], s[j]));
                    } else if parent(j) == p {
                        assert(precedes(s[p as int], s[j]));
                    } else {
                        assert(precedes(s[parent(j)], s[j]));
                    }
                }
                assert forall|j: int| 0 < j < t.len() && parent(j) == p && p > 0 implies precedes(
                    t[parent(p as int)],
                    #[trigger] t[j],
                ) by {
                    assert(precedes(s[parent(p as int)], s[p as int]));
                    if j != i {
                        assert(precedes(s[p as int], s[j]));
                    }
                }
            }
            i = p;
        }
    }

    /// Removes and returns the entry that precedes all others, if any.
    pub fn pop(&mut self) -> (r: Option<Entry>)
        requires
            old(self).wf(),
        ensures
            final(self).wf(),
            match r {
                None => old(self)@.is_empty() && final(self)@ == old(self)@,
                Some(e) => is_least(old(self)@, e) && final(self)@ == old(self)@.remove(e),
            },
    {
        let ghost before = self.heap@;
        if self.heap.len() == 0 {
            assert(self.heap@.to_set() =~= Set::<Entry>::empty());
            return None;
        }
        let top = self.heap[0];
        let last = self.heap.pop().unwrap();
        proof {
            assert forall|x: Entry| before.to_set().contains(x) implies precedes(top, x) by {
                let a = choose|a: int| 0 <= a < before.len() && before[a] == x;
                lemma_root_precedes(before, a);
            }
            assert(before.to_set().contains(before[0]));
        }
        if self.heap.len() == 0 {
            proof {
                assert(self.heap@.to_set() =~= before.to_set().remove(top)) by {
                    assert forall|x: Entry| before.to_set().contains(x) implies x == top by {
                        let a = choose|a: int| 0 <= a < before.len() && before[a] == x;
                    }
                }
            }
            return Some(top);
        }
        self.heap.set(0, last);
        let n: usize = self.heap.len();
        proof {
            let s = self.heap@;
            assert(s =~= before.subrange(0, n as int).update(0, before[n as int]));
            assert forall|a: int, b: int| 0 <= a < s.len() && 0 <= b < s.len() && a != b implies s[a]
                != s[b] by {
                let a0 = if a == 0 { n as int } else { a };
                let b0 = if b == 0 { n as int } else { b };
                assert(s[a] == before[a0] && s[b] == before[b0]);
            }
            assert forall|x: Entry| s.to_set().contains(x) <==> before.to_set().remove(top).contains(
                x,
            ) by {
                if s.to_set().contains(x) {
                    let a = choose|a: int| 0 <= a < s.len() && s[a] == x;
                    let a0 = if a == 0 { n as int } else { a };
                    assert(before[a0] == x);
                }
                if before.to_set().remove(top).contains(x) {
                    let a = choose|a: int| 0 <= a < before.len() && before[a] == x;
                    let a0 = if a == n { 0 } else { a };
                    assert(s[a0] == x);
                }
            }
            assert(s.to_set() =~= before.to_set().remove(top));
            assert forall|j: int| 0 < j < s.len() && parent(j) != 0 implies precedes(
                s[parent(j)],
                #[trigger] s[j],
            ) by {
                assert(precedes(before[parent(j)], before[j]));
            }
        }
        let mut i: usize = 0;
        while i < n / 2
            invariant
                n == self.heap@.len(),
                0 <= i < n,
                self.heap@.no_duplicates(),
                self.heap@.to_set() == before.to_set().remove(top),
                ordered_but_below(self.heap@, i as int),
            ensures
                heap_ordered(self.heap@),
            decreases n - i,
        {
            let left: usize = 2 * i + 1;
            let right: usize = left + 1;
            let mut c: usize = left;
            if right < n {
                let l = self.heap[left];
                let r = self.heap[right];
                if r.priority < l.priority || (r.priority == l.priority && r.seq <= l.seq) {
                    c = right;
                }
            }
            let here = self.heap[i];
            let below = self.heap[c];
            if here.priority < below.priority || (here.priority == below.priority && here.seq
                <= below.seq) {
                proof {
                    let t = self.heap@;
                    assert forall|j: int| 0 < j < t.len() implies precedes(
                        t[parent(j)],
                        #[trigger] t[j],
                    ) by {
                        if parent(j) == i {
                            assert(j == left || j == right);
                            assert(precedes(t[c as int], t[j]));
                        }
                    }
                }
                break;
            }
            let ghost s = self.heap@;
            self.heap.set(i, below);
            self.heap.set(c, here);
            proof {
                lemma_exchange(s, i as int, c as int);
                let t = self.heap@;
                assert(t =~= s.update(i as int, s[c as int]).update(c as int, s[i as int]));
                assert(precedes(s[c as int], s[i as int]));
                assert forall|j: int| 0 < j < t.len() && parent(j) != c implies precedes(
                    t[parent(j)],
                    #[trigger] t[j],
                ) by {
                    if j == i {
                        assert(precedes(s[parent(i as int)], s[c as int]));
                    } else if parent(j) == i {
                        assert(j == left || j == right);
                        assert(precedes(s[c as int], s[j]));
                    } else {
                        assert(precedes(s[parent(j)], s[j]));
                    }
                }
                assert forall|j: int| 0 < j < t.len() && parent(j) == c && c > 0 implies precedes(
                    t[parent(c as int)],
                    #[trigger] t[j],
                ) by {
                    assert(precedes(s[parent(j)], s[j]));
                }
            }
            i = c;
        }
        Some(top)
    }
}

} // verus!
