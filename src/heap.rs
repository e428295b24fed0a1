//! Binary min-heap over parallel arrays of (cell, priority, cost) entries.

use vstd::multiset::Multiset;
use vstd::prelude::*;

verus! {

broadcast use vstd::seq_lib::group_to_multiset_ensures;

pub open spec fn parent_of(i: int) -> int {
    (i - 1) / 2
}

/// `s` with the entries at `i` and `j` exchanged.
pub open spec fn swap_at(s: Seq<(u32, u32, u32)>, i: int, j: int) -> Seq<(u32, u32, u32)> {
    s.update(i, s[j]).update(j, s[i])
}

/// Moves the entry at `i` up while its priority is strictly below its parent's.
pub open spec fn sift_up(s: Seq<(u32, u32, u32)>, i: int) -> Seq<(u32, u32, u32)>
    decreases i,
{
    if 0 < i < s.len() && s[i].1 < s[parent_of(i)].1 {
        sift_up(swap_at(s, i, parent_of(i)), parent_of(i))
    } else {
        s
    }
}

/// Of `i` and its children, the one that the entry at `i` trades places with: a child
/// only where its priority is strictly below the rest, the left child on a tie.
pub open spec fn smaller_child(s: Seq<(u32, u32, u32)>, i: int) -> int {
    let l = 2 * i + 1;
    let r = 2 * i + 2;
    let m = if l < s.len() && s[l].1 < s[i].1 {
        l
    } else {
        i
    };
    if r < s.len() && s[r].1 < s[m].1 {
        r
    } else {
        m
    }
}

/// Moves the entry at `i` down, each time to its smaller child, until neither child is
/// strictly smaller.
pub open spec fn sift_down(s: Seq<(u32, u32, u32)>, i: int) -> Seq<(u32, u32, u32)>
    decreases s.len() - i,
{
    if 0 <= i < s.len() && smaller_child(s, i) != i {
        sift_down(swap_at(s, i, smaller_child(s, i)), smaller_child(s, i))
    } else {
        s
    }
}

/// A min-heap ordered by priority. A child moves above its parent only when its
/// priority is strictly smaller, so among equal priorities the earlier arrangement wins.
pub struct MinHeap {
    idxs: Vec<u32>,
    priorities: Vec<u32>,
    costs: Vec<u32>,
}

impl MinHeap {
    /// The entries in array order, as (cell, priority, cost).
    pub closed spec fn entries(&self) -> Seq<(u32, u32, u32)> {
        Seq::new(
            self.idxs@.len(),
            |i: int| (self.idxs@[i], self.priorities@[i], self.costs@[i]),
        )
    }

    /// The entries held, in no order.
    pub open spec fn contents(&self) -> Multiset<(u32, u32, u32)> {
        self.entries().to_multiset()
    }

    /// Some entry for cell `idx` carries cost `cost`.
    pub open spec fn holds(&self, idx: u32, cost: u32) -> bool {
        exists|p: u32| #[trigger] self.contents().count((idx, p, cost)) > 0
    }

    pub open spec fn len_spec(&self) -> nat {
        self.entries().len()
    }

    pub closed spec fn heap_ordered(s: Seq<(u32, u32, u32)>) -> bool {
        forall|j: int| 0 < j < s.len() ==> s[parent_of(j)].1 <= #[trigger] s[j].1
    }

    pub closed spec fn wf(&self) -> bool {
        &&& self.priorities@.len() == self.idxs@.len()
        &&& self.costs@.len() == self.idxs@.len()
        &&& Self::heap_ordered(self.entries())
    }

    /// The entry that `pop` hands out next: one of least priority.
    pub closed spec fn top(&self) -> (u32, u32, u32) {
        self.entries()[0]
    }

    proof fn lemma_root_le(s: Seq<(u32, u32, u32)>, j: int)
        requires
            Self::heap_ordered(s),
            0 <= j < s.len(),
        ensures
            s[0].1 <= s[j].1,
        decreases j,
    {
        if j > 0 {
            Self::lemma_root_le(s, parent_of(j));
        }
    }

    /// Every entry held has a priority no smaller than the top's.
    pub proof fn lemma_top_is_least(&self)
        requires
            self.wf(),
            self.len_spec() > 0,
        ensures
            self.contents().count(self.top()) > 0,
            forall|e: (u32, u32, u32)| #[trigger] self.contents().count(e) > 0 ==> self.top().1 <= e.1,
    {
        let s = self.entries();
        assert(s.contains(s[0]));
        assert forall|e: (u32, u32, u32)| #[trigger] self.contents().count(e) > 0 implies s[0].1 <= e.1 by {
            assert(s.contains(e));
            let j = choose|j: int| 0 <= j < s.len() && s[j] == e;
            Self::lemma_root_le(s, j);
        }
    }

    pub fn new() -> (r: Self)
        ensures
            r.wf(),
            r.contents() =~= Multiset::empty(),
            r.len_spec() == 0,
    {
        let r = MinHeap { idxs: Vec::new(), priorities: Vec::new(), costs: Vec::new() };
        assert(r.entries() =~= Seq::empty());
        r
    }

    pub fn clear(&mut self)
        ensures
            final(self).wf(),
            final(self).contents() =~= Multiset::empty(),
            final(self).len_spec() == 0,
            forall|i: u32, c: u32| !#[trigger] final(self).holds(i, c),
    {
        self.idxs.clear();
        self.priorities.clear();
        self.costs.clear();
        assert(self.entries() =~= Seq::empty());
        assert forall|i: u32, c: u32| !#[trigger] self.holds(i, c) by {
            assert forall|p: u32| #[trigger] self.contents().count((i, p, c)) == 0 by {}
        }
    }

    pub fn is_empty(&self) -> (r: bool)
        requires
            self.wf(),
        ensures
            r == (self.len_spec() == 0),
    {
        self.idxs.len() == 0
    }

    fn swap_entries(&mut self, i: usize, j: usize)
        requires
            old(self).priorities@.len() == old(self).idxs@.len(),
            old(self).costs@.len() == old(self).idxs@.len(),
            i < old(self).idxs@.len(),
            j < old(self).idxs@.len(),
        ensures
            final(self).priorities@.len() == final(self).idxs@.len(),
            final(self).costs@.len() == final(self).idxs@.len(),
            final(self).entries() == old(self).entries().update(i as int, old(self).entries()[j as int]).update(
                j as int,
                old(self).entries()[i as int],
            ),
            final(self).contents() == old(self).contents(),
            final(self).idxs@.len() == old(self).idxs@.len(),
            final(self).priorities@ == old(self).priorities@.update(i as int, old(self).priorities@[j as int]).update(
                j as int,
                old(self).priorities@[i as int],
            ),
    {
        let ghost s0 = self.entries();
        let a = self.idxs[i];
        let b = self.idxs[j];
        self.idxs.set(i, b);
        self.idxs.set(j, a);
        let a = self.priorities[i];
        let b = self.priorities[j];
        self.priorities.set(i, b);
        self.priorities.set(j, a);
        let a = self.costs[i];
        let b = self.costs[j];
        self.costs.set(i, b);
        self.costs.set(j, a);
        let ghost s1 = s0.update(i as int, s0[j as int]);
        let ghost s2 = s1.update(j as int, s0[i as int]);
        assert(self.entries() =~= s2);
        proof {
            vstd::seq_lib::to_multiset_update(s0, i as int, s0[j as int]);
            vstd::seq_lib::to_multiset_update(s1, j as int, s0[i as int]);
            assert(s2.to_multiset() =~= s0.to_multiset());
        }
    }

    fn bubble_up(&mut self, i: usize)
        requires
            old(self).priorities@.len() == old(self).idxs@.len(),
            old(self).costs@.len() == old(self).idxs@.len(),
            i < old(self).idxs@.len(),
            forall|j: int|
                0 < j < old(self).idxs@.len() && j != i ==> old(self).priorities@[parent_of(j)]
                    <= #[trigger] old(self).priorities@[j],
            i > 0 ==> forall|j: int|
                0 < j < old(self).idxs@.len() && parent_of(j) == i ==> old(self).priorities@[parent_of(
                    i as int,
                )] <= #[trigger] old(self).priorities@[j],
        ensures
            final(self).wf(),
            final(self).contents() == old(self).contents(),
            final(self).idxs@.len() == old(self).idxs@.len(),
            final(self).entries() == sift_up(old(self).entries(), i as int),
    {
        let ghost i0 = i;
        let mut i = i;
        loop
            invariant
                sift_up(self.entries(), i as int) == sift_up(old(self).entries(), i0 as int),
                self.idxs@.len() == old(self).idxs@.len(),
                self.priorities@.len() == self.idxs@.len(),
                self.costs@.len() == self.idxs@.len(),
                i < self.idxs@.len(),
                self.contents() == old(self).contents(),
                forall|j: int|
                    0 < j < self.idxs@.len() && j != i ==> self.priorities@[parent_of(j)]
                        <= #[trigger] self.priorities@[j],
                i > 0 ==> forall|j: int|
                    0 < j < self.idxs@.len() && parent_of(j) == i ==> self.priorities@[parent_of(
                        i as int,
                    )] <= #[trigger] self.priorities@[j],
            ensures
                self.entries() == sift_up(old(self).entries(), i0 as int),
                self.idxs@.len() == old(self).idxs@.len(),
                self.priorities@.len() == self.idxs@.len(),
                self.costs@.len() == self.idxs@.len(),
                self.contents() == old(self).contents(),
                forall|j: int|
                    0 < j < self.idxs@.len() ==> self.priorities@[parent_of(j)]
                        <= #[trigger] self.priorities@[j],
            decreases i,
        {
            if i == 0 {
                assert(sift_up(self.entries(), 0) == self.entries());
                break;
            }
            let parent = (i - 1) / 2;
            assert(self.entries()[i as int].1 == self.priorities@[i as int]);
            assert(self.entries()[parent as int].1 == self.priorities@[parent as int]);
            if self.priorities[i] < self.priorities[parent] {
                let ghost s0 = self.entries();
                self.swap_entries(i, parent);
                assert(self.entries() == swap_at(s0, i as int, parent as int));
                assert(sift_up(s0, i as int) == sift_up(swap_at(s0, i as int, parent as int), parent as int));
                i = parent;
            } else {
                assert(sift_up(self.entries(), i as int) == self.entries());
                break;
            }
        }
        proof {
            assert forall|j: int| 0 < j < self.entries().len() implies self.entries()[parent_of(j)].1
                <= #[trigger] self.entries()[j].1 by {
                assert(self.entries()[j].1 == self.priorities@[j]);
            }
        }
    }

    fn sink_down(&mut self, i: usize)
        requires
            old(self).priorities@.len() == old(self).idxs@.len(),
            old(self).costs@.len() == old(self).idxs@.len(),
            i < old(self).idxs@.len(),
            forall|j: int|
                0 < j < old(self).idxs@.len() && parent_of(j) != i ==> old(self).priorities@[parent_of(j)]
                    <= #[trigger] old(self).priorities@[j],
            i > 0 ==> forall|j: int|
                0 < j < old(self).idxs@.len() && parent_of(j) == i ==> old(self).priorities@[parent_of(
                    i as int,
                )] <= #[trigger] old(self).priorities@[j],
        ensures
            final(self).wf(),
            final(self).contents() == old(self).contents(),
            final(self).idxs@.len() == old(self).idxs@.len(),
            final(self).entries() == sift_down(old(self).entries(), i as int),
    {
        let n = self.idxs.len();
        let ghost i0 = i;
        let mut i = i;
        loop
            invariant
                sift_down(self.entries(), i as int) == sift_down(old(self).entries(), i0 as int),
                n == self.idxs@.len(),
                self.priorities@.len() == self.idxs@.len(),
                self.costs@.len() == self.idxs@.len(),
                i < n,
                self.contents() == old(self).contents(),
                forall|j: int|
                    0 < j < n && parent_of(j) != i ==> self.priorities@[parent_of(j)]
                        <= #[trigger] self.priorities@[j],
                i > 0 ==> forall|j: int|
                    0 < j < n && parent_of(j) == i ==> self.priorities@[parent_of(i as int)]
                        <= #[trigger] self.priorities@[j],
            ensures
                self.entries() == sift_down(old(self).entries(), i0 as int),
                n == self.idxs@.len(),
                self.priorities@.len() == self.idxs@.len(),
                self.costs@.len() == self.idxs@.len(),
                self.contents() == old(self).contents(),
                forall|j: int|
                    0 < j < n ==> self.priorities@[parent_of(j)] <= #[trigger] self.priorities@[j],
            decreases n - i,
        {
            let mut smallest = i;
            let left = if i < n / 2 { 2 * i + 1 } else { n };
            let right = if left < n { left + 1 } else { n };
            if left < n && self.priorities[left] < self.priorities[smallest] {
                smallest = left;
            }
            if right < n && self.priorities[right] < self.priorities[smallest] {
                smallest = right;
            }
            proof {
                let s0 = self.entries();
                assert(s0[i as int].1 == self.priorities@[i as int]);
                assert(left < n ==> left == 2 * i + 1 && s0[left as int].1 == self.priorities@[left as int]);
                assert(right < n ==> right == 2 * i + 2 && s0[right as int].1 == self.priorities@[right as int]);
                assert(left >= n ==> 2 * i + 1 >= n);
                assert(right >= n ==> 2 * i + 2 >= n);
                assert(smaller_child(s0, i as int) == smallest);
            }
            if smallest != i {
                assert(parent_of(smallest as int) == i);
                let ghost s0 = self.entries();
                self.swap_entries(i, smallest);
                assert(self.entries() == swap_at(s0, i as int, smallest as int));
                i = smallest;
            } else {
                assert(sift_down(self.entries(), i as int) == self.entries());
                assert forall|j: int| 0 < j < n implies self.priorities@[parent_of(j)]
                    <= #[trigger] self.priorities@[j] by {
                    if parent_of(j) == i {
                        assert(j == 2 * i + 1 || j == 2 * i + 2);
                    }
                }
                break;
            }
        }
        proof {
            assert forall|j: int| 0 < j < self.entries().len() implies self.entries()[parent_of(j)].1
                <= #[trigger] self.entries()[j].1 by {
                assert(self.entries()[j].1 == self.priorities@[j]);
            }
        }
    }

    pub fn push(&mut self, idx: u32, priority: u32, cost: u32)
        requires
            old(self).wf(),
        ensures
            final(self).wf(),
            final(self).contents() == old(self).contents().insert((idx, priority, cost)),
            final(self).len_spec() == old(self).len_spec() + 1,
            final(self).holds(idx, cost),
            forall|i: u32, c: u32| old(self).holds(i, c) ==> #[trigger] final(self).holds(i, c),
            final(self).entries() == sift_up(
                old(self).entries().push((idx, priority, cost)),
                old(self).len_spec() as int,
            ),
    {
        let ghost s0 = self.entries();
        self.idxs.push(idx);
        self.priorities.push(priority);
        self.costs.push(cost);
        assert(self.entries() =~= s0.push((idx, priority, cost)));
        proof {
            assert forall|j: int|
                0 < j < self.idxs@.len() && j != self.idxs@.len() - 1 implies self.priorities@[parent_of(j)]
                <= #[trigger] self.priorities@[j] by {
                assert(s0[j].1 == self.priorities@[j]);
                assert(s0[parent_of(j)].1 == self.priorities@[parent_of(j)]);
            }
        }
        let last = self.idxs.len() - 1;
        self.bubble_up(last);
        proof {
            assert(self.contents().count((idx, priority, cost)) > 0);
            assert forall|i: u32, c: u32| old(self).holds(i, c) implies #[trigger] self.holds(i, c) by {
                let p = choose|p: u32| #[trigger] old(self).contents().count((i, p, c)) > 0;
                assert(self.contents().count((i, p, c)) > 0);
            }
        }
    }

    /// Removes the top entry and hands out its cell and cost.
    pub fn pop(&mut self) -> (r: Option<(u32, u32)>)
        requires
            old(self).wf(),
        ensures
            final(self).wf(),
            old(self).len_spec() == 0 ==> r is None && final(self).contents() == old(self).contents(),
            r is None ==> forall|i: u32, c: u32| !#[trigger] old(self).holds(i, c),
            old(self).len_spec() > 0 ==> {
                &&& r == Some((old(self).top().0, old(self).top().2))
                &&& old(self).contents().count(old(self).top()) > 0
                &&& forall|e: (u32, u32, u32)|
                    #[trigger] old(self).contents().count(e) > 0 ==> old(self).top().1 <= e.1
                &&& final(self).contents() == old(self).contents().remove(old(self).top())
                &&& final(self).len_spec() + 1 == old(self).len_spec()
                &&& final(self).entries() == if old(self).len_spec() == 1 {
                    Seq::empty()
                } else {
                    sift_down(
                        old(self).entries().update(0, old(self).entries().last()).drop_last(),
                        0,
                    )
                }
                &&& forall|i: u32, c: u32|
                    old(self).holds(i, c) && !(i == old(self).top().0 && c == old(self).top().2)
                        ==> #[trigger] final(self).holds(i, c)
            },
    {
        proof {
            if self.entries().len() == 0 {
                assert(self.contents() =~= Multiset::empty());
                assert forall|i: u32, c: u32| !#[trigger] self.holds(i, c) by {
                    assert forall|p: u32| #[trigger] self.contents().count((i, p, c)) == 0 by {}
                }
            } else {
                self.lemma_top_is_least();
            }
        }
        if self.idxs.len() == 0 {
            return None;
        }
        let ghost s0 = self.entries();
        let out_idx = self.idxs[0];
        let out_cost = self.costs[0];
        let last_idx = self.idxs.pop().unwrap();
        let last_priority = self.priorities.pop().unwrap();
        let last_cost = self.costs.pop().unwrap();
        let ghost last = s0.len() - 1;
        if self.idxs.len() > 0 {
            self.idxs.set(0, last_idx);
            self.priorities.set(0, last_priority);
            self.costs.set(0, last_cost);
            proof {
                let s1 = s0.update(0, s0[last]).drop_last();
                assert(self.entries() =~= s1);
                assert(s1 =~= s0.remove(0).remove(last - 1).insert(0, s0[last])) by {
                    assert(s0.remove(0).remove(last - 1) =~= s0.subrange(1, last));
                }
                vstd::seq_lib::to_multiset_remove(s0, 0);
                vstd::seq_lib::to_multiset_remove(s0.remove(0), last - 1);
                vstd::seq_lib::to_multiset_insert(s0.remove(0).remove(last - 1), 0, s0[last]);
                assert(s1.to_multiset() =~= s0.to_multiset().remove(s0[0]));
                assert forall|j: int| 0 < j < s1.len() && parent_of(j) != 0 implies self.priorities@[parent_of(j)]
                    <= #[trigger] self.priorities@[j] by {
                    assert(s0[j].1 == self.priorities@[j]);
                    assert(s0[parent_of(j)].1 == self.priorities@[parent_of(j)]);
                }
            }
            self.sink_down(0);
        } else {
            proof {
                assert(self.entries() =~= Seq::empty());
                assert(s0 =~= seq![s0[0]]);
                vstd::seq_lib::to_multiset_remove(s0, 0);
                assert(s0.remove(0) =~= Seq::empty());
            }
        }
        proof {
            let t = old(self).top();
            assert forall|i: u32, c: u32|
                old(self).holds(i, c) && !(i == t.0 && c == t.2) implies #[trigger] self.holds(i, c) by {
                let p = choose|p: u32| #[trigger] old(self).contents().count((i, p, c)) > 0;
                assert(self.contents().count((i, p, c)) > 0);
            }
        }
        Some((out_idx, out_cost))
    }
}

} // verus!
