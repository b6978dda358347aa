//! The frontier of the search: a binary heap of entries, from which the
//! entry with the lowest estimate leaves first.

use vstd::prelude::*;
use vstd::seq_lib::{to_multiset_contains, to_multiset_update};

verus! {

/// The entry `a` leaves the frontier no later than `b`: its estimate is
/// lower, or the same and it was inserted later.
pub open spec fn leaves_first(a: (i64, u64, u32), b: (i64, u64, u32)) -> bool {
    a.0 < b.0 || (a.0 == b.0 && a.1 >= b.1)
}

/// Index of the entry above the entry `i` in the heap.
pub open spec fn above(i: int) -> int {
    (i - 1) / 2
}

/// Every entry but the first leaves no earlier than the entry above it.
pub open spec fn heap_ordered(e: Seq<(i64, u64, u32)>) -> bool {
    forall|i: int| 1 <= i < e.len() ==> leaves_first(e[above(i)], #[trigger] e[i])
}

/// The heap is in order but for the entry `i`, which may leave earlier than
/// the entry above it; the entries below `i` leave no earlier than the entry
/// above `i`.
pub open spec fn ordered_but_up(e: Seq<(i64, u64, u32)>, i: int) -> bool {
    &&& forall|j: int| 1 <= j < e.len() && j != i ==> leaves_first(e[above(j)], #[trigger] e[j])
    &&& forall|j: int|
        1 <= j < e.len() && above(j) == i && i >= 1 ==> leaves_first(e[above(i)], #[trigger] e[j])
}

/// The heap is in order but for the entries below the entry `i`, which may
/// leave earlier than `i`; they leave no earlier than the entry above `i`.
pub open spec fn ordered_but_down(e: Seq<(i64, u64, u32)>, i: int) -> bool {
    &&& forall|j: int|
        1 <= j < e.len() && above(j) != i ==> leaves_first(e[above(j)], #[trigger] e[j])
    &&& forall|j: int|
        1 <= j < e.len() && above(j) == i && i >= 1 ==> leaves_first(e[above(i)], #[trigger] e[j])
}

/// In a heap in order the first entry leaves no later than any other.
pub proof fn lemma_first_leaves_first(e: Seq<(i64, u64, u32)>, i: int)
    requires
        heap_ordered(e),
        0 <= i < e.len(),
    ensures
        leaves_first(e[0], e[i]),
    decreases i,
{
    if i > 0 {
        lemma_first_leaves_first(e, above(i));
        assert(leaves_first(e[above(i)], e[i]));
    }
}

/// Exchanging two entries keeps the entries, each as often as before.
pub proof fn lemma_exchange(e: Seq<(i64, u64, u32)>, i: int, j: int)
    requires
        0 <= i < e.len(),
        0 <= j < e.len(),
    ensures
        e.update(i, e[j]).update(j, e[i]).to_multiset() == e.to_multiset(),
{
    let first = e.update(i, e[j]);
    to_multiset_update(e, i, e[j]);
    to_multiset_update(first, j, e[i]);
    to_multiset_contains(e, e[i]);
    to_multiset_contains(e, e[j]);
    assert(e.contains(e[i]) && e.contains(e[j]));
    if i == j {
        assert(first =~= e);
        assert(first.update(j, e[i]) =~= e);
    } else {
        assert(first[j] == e[j]);
        assert(first.update(j, e[i]).to_multiset() =~= e.to_multiset());
    }
}

/// The states that the search has yet to look at, each with the estimate
/// of the cost of a path through it and the number of its insertion.
pub struct Frontier {
    pub entries: Vec<(i64, u64, u32)>,
}

impl Frontier {
    /// The entries are in heap order.
    pub open spec fn well_formed(&self) -> bool {
        heap_ordered(self.entries@)
    }

    pub fn new() -> (f: Frontier)
        ensures
            f.entries@.len() == 0,
            f.well_formed(),
    {
        Frontier { entries: Vec::new() }
    }

    pub fn len(&self) -> (n: usize)
        ensures
            n == self.entries@.len(),
    {
        self.entries.len()
    }

    fn exchange(&mut self, i: usize, j: usize)
        requires
            i < old(self).entries.len(),
            j < old(self).entries.len(),
        ensures
            final(self).entries@ == old(self).entries@.update(
                i as int,
                old(self).entries@[j as int],
            ).update(j as int, old(self).entries@[i as int]),
            final(self).entries@.to_multiset() == old(self).entries@.to_multiset(),
    {
        proof {
            lemma_exchange(self.entries@, i as int, j as int);
        }
        let a = self.entries[i];
        let b = self.entries[j];
        self.entries[i] = b;
        self.entries[j] = a;
    }

    /// Puts an entry on the frontier.
    pub fn push(&mut self, f: i64, order: u64, state: u32)
        requires
            old(self).well_formed(),
        ensures
            final(self).well_formed(),
            final(self).entries@.len() == old(self).entries@.len() + 1,
            final(self).entries@.to_multiset() == old(self).entries@.to_multiset().insert(
                (f, order, state),
            ),
    {
        let ghost before = self.entries@;
        self.entries.push((f, order, state));
        proof {
            before.to_multiset_ensures();
            assert(self.entries@ == before.push((f, order, state)));
        }
        let ghost pushed = self.entries@;
        let mut i: usize = self.entries.len() - 1;
        while i > 0
            invariant
                i < self.entries.len(),
                self.entries@.len() == pushed.len(),
                self.entries@.to_multiset() == pushed.to_multiset(),
                ordered_but_up(self.entries@, i as int),
            ensures
                heap_ordered(self.entries@),
                self.entries@.len() == pushed.len(),
                self.entries@.to_multiset() == pushed.to_multiset(),
            decreases i,
        {
            let p = (i - 1) / 2;
            let child = self.entries[i];
            let parent = self.entries[p];
            if parent.0 < child.0 || (parent.0 == child.0 && parent.1 >= child.1) {
                break ;
            }
            let ghost e = self.entries@;
            self.exchange(i, p);
            proof {
                let e2 = self.entries@;
                assert forall|j: int| 1 <= j < e2.len() && j != p implies leaves_first(
                    e2[above(j)],
                    #[trigger] e2[j],
                ) by {
                    if j == i {
                    } else if above(j) == i {
                        assert(leaves_first(e[above(i as int)], e[j]));
                    } else if above(j) == p {
                        assert(leaves_first(e[above(j)], e[j]));
                    } else {
                        assert(leaves_first(e[above(j)], e[j]));
                    }
                }
                assert forall|j: int| 1 <= j < e2.len() && above(j) == p && p >= 1 implies leaves_first(
                    e2[above(p as int)],
                    #[trigger] e2[j],
                ) by {
                    assert(leaves_first(e[above(p as int)], e[p as int]));
                    if j != i {
                        assert(leaves_first(e[above(j)], e[j]));
                    }
                }
            }
            i = p;
        }
    }

    /// Takes out the entry with the lowest estimate; among several, the one
    /// inserted last.
    pub fn pop_best(&mut self) -> (r: Option<(i64, u64, u32)>)
        requires
            old(self).well_formed(),
        ensures
            final(self).well_formed(),
            old(self).entries@.len() == 0 ==> r is None && final(self).entries@ == old(self).entries@,
            old(self).entries@.len() > 0 ==> r is Some && old(self).entries@.contains(r.unwrap())
                && final(self).entries@.len() == old(self).entries@.len() - 1 && final(self).entries@.to_multiset() == old(self).entries@.to_multiset().remove(r.unwrap()),
            r is Some ==> forall|k: int|
                0 <= k < old(self).entries@.len() ==> leaves_first(
                    r.unwrap(),
                    #[trigger] old(self).entries@[k],
                ),
    {
        let n = self.entries.len();
        if n == 0 {
            return None;
        }
        let ghost before = self.entries@;
        let best = self.entries[0];
        proof {
            assert forall|k: int| 0 <= k < before.len() implies leaves_first(
                best,
                #[trigger] before[k],
            ) by {
                lemma_first_leaves_first(before, k);
            }
            assert(before[0] == best);
        }
        self.exchange(0, n - 1);
        let ghost exchanged = self.entries@;
        let last = self.entries.pop();
        proof {
            assert(last == Some(best));
            vstd::seq_lib::to_multiset_remove(exchanged, n - 1);
            assert(exchanged.remove(n - 1) =~= self.entries@);
            let e = self.entries@;
            assert forall|j: int| 1 <= j < e.len() && above(j) != 0 implies leaves_first(
                e[above(j)],
                #[trigger] e[j],
            ) by {
                assert(leaves_first(before[above(j)], before[j]));
            }
        }
        let ghost popped = self.entries@;
        let m = self.entries.len();
        let mut i: usize = 0;
        while i < m / 2
            invariant
                m == self.entries.len(),
                m == popped.len(),
                m < usize::MAX,
                i <= m,
                self.entries@.to_multiset() == popped.to_multiset(),
                ordered_but_down(self.entries@, i as int),
            ensures
                heap_ordered(self.entries@),
                self.entries@.len() == popped.len(),
                self.entries@.to_multiset() == popped.to_multiset(),
            decreases m - i,
        {
            let left = 2 * i + 1;
            let mut least = left;
            if left + 1 < m {
                let a = self.entries[left];
                let b = self.entries[left + 1];
                if !(a.0 < b.0 || (a.0 == b.0 && a.1 >= b.1)) {
                    least = left + 1;
                }
            }
            let here = self.entries[i];
            let below = self.entries[least];
            let ghost e = self.entries@;
            if here.0 < below.0 || (here.0 == below.0 && here.1 >= below.1) {
                proof {
                    assert forall|j: int| 1 <= j < e.len() implies leaves_first(
                        e[above(j)],
                        #[trigger] e[j],
                    ) by {
                        if above(j) == i {
                            assert(j == left || j == left + 1);
                        }
                    }
                }
                break ;
            }
            self.exchange(i, least);
            proof {
                let e2 = self.entries@;
                assert forall|j: int| 1 <= j < e2.len() && above(j) != least implies leaves_first(
                    e2[above(j)],
                    #[trigger] e2[j],
                ) by {
                    if j == least {
                    } else if above(j) == i {
                        assert(j == left || j == left + 1);
                    } else if j == i {
                        assert(leaves_first(e[above(i as int)], e[least as int]));
                    } else {
                        assert(leaves_first(e[above(j)], e[j]));
                    }
                }
                assert forall|j: int|
                    1 <= j < e2.len() && above(j) == least && least >= 1 implies leaves_first(
                    e2[above(least as int)],
                    #[trigger] e2[j],
                ) by {
                    assert(leaves_first(e[above(j)], e[j]));
                }
            }
            i = least;
        }
        proof {
            if !(i < m / 2) {
                let e = self.entries@;
                assert forall|j: int| 1 <= j < e.len() implies leaves_first(
                    e[above(j)],
                    #[trigger] e[j],
                ) by {
                    if above(j) == i {
                        assert(j >= 2 * i + 1);
                    }
                }
            }
        }
        Some(best)
    }
}

} // verus!
