//! The best-first search shared by every routing policy, over a reusable
//! generation-stamped cache.

use crate::grid::{Dir, Grid, MAX_GRID_CELLS};
use crate::heap::MinHeap;
use vstd::multiset::Multiset;
use crate::rules::StepRule;
use vstd::prelude::*;

verus! {

/// The cost of the move from `c` to `n` on a search towards `to`: `None` unless `n` is an
/// in-bounds neighbour of `c`, is not blocked (the destination never is), and the rule
/// allows the move.
pub open spec fn link_cost<R: StepRule>(rule: R, g: Grid, blocked: Seq<u8>, to: int, c: int, n: int) -> Option<
    int,
> {
    match g.dir_between(c, n) {
        Some(d) => if 0 <= c < g.cells() && 0 <= n < g.cells() && (blocked[n] == 0 || n == to) {
            rule.step_cost(g, to, c, n, d)
        } else {
            None
        },
        None => None,
    }
}

/// `p` is a legal route from `from` to `to`: every consecutive pair is a legal move.
pub open spec fn is_route<R: StepRule>(rule: R, g: Grid, blocked: Seq<u8>, from: int, to: int, p: Seq<u32>) -> bool {
    &&& p.len() >= 1
    &&& p[0] == from
    &&& p.last() == to
    &&& forall|i: int|
        0 <= i < p.len() - 1 ==> (#[trigger] link_cost(rule, g, blocked, to, p[i] as int, p[i + 1] as int)) is Some
}

/// The summed cost of the moves of a route.
pub open spec fn route_cost<R: StepRule>(rule: R, g: Grid, blocked: Seq<u8>, to: int, p: Seq<u32>) -> int
    decreases p.len(),
{
    if p.len() <= 1 {
        0
    } else {
        route_cost(rule, g, blocked, to, p.drop_last()) + link_cost(
            rule,
            g,
            blocked,
            to,
            p[p.len() - 2] as int,
            p.last() as int,
        )->0
    }
}

/// The search's estimate of the moves left from `v` to `to`: the Manhattan distance,
/// plus one where both coordinates still differ.
pub open spec fn heuristic(g: Grid, v: int, to: int) -> int {
    let dx = g.x_of(v) - g.x_of(to);
    let dy = g.y_of(v) - g.y_of(to);
    let ax = if dx >= 0 {
        dx
    } else {
        -dx
    };
    let ay = if dy >= 0 {
        dy
    } else {
        -dy
    };
    ax + ay + if ax != 0 && ay != 0 {
        1int
    } else {
        0int
    }
}

/// An open-set entry names a grid cell, and its priority lies between its cost and
/// its cost plus the estimate.
pub open spec fn entry_ok(g: Grid, to: int, e: (u32, u32, u32)) -> bool {
    &&& (e.0 as int) < g.cells()
    &&& e.2 <= e.1
    &&& e.1 <= e.2 + heuristic(g, e.0 as int, to)
}

/// A move of `c` in direction `d` that the rule allows leads to a visited cell, whose
/// cost is at most `c`'s plus the move's.
pub open spec fn dir_done<R: StepRule>(
    rule: R,
    g: Grid,
    blocked: Seq<u8>,
    to: int,
    st: Seq<u32>,
    cs: Seq<u32>,
    stamp: u32,
    c: int,
    d: Dir,
) -> bool {
    match g.neighbor(c, d) {
        Some(n) => link_cost(rule, g, blocked, to, c, n) is Some ==> st[n] == stamp && cs[n] <= cs[c]
            + link_cost(rule, g, blocked, to, c, n)->0,
        None => true,
    }
}

pub open spec fn expanded<R: StepRule>(
    rule: R,
    g: Grid,
    blocked: Seq<u8>,
    to: int,
    st: Seq<u32>,
    cs: Seq<u32>,
    stamp: u32,
    c: int,
) -> bool {
    &&& dir_done(rule, g, blocked, to, st, cs, stamp, c, Dir::Right)
    &&& dir_done(rule, g, blocked, to, st, cs, stamp, c, Dir::Left)
    &&& dir_done(rule, g, blocked, to, st, cs, stamp, c, Dir::Down)
    &&& dir_done(rule, g, blocked, to, st, cs, stamp, c, Dir::Up)
}

/// How many of the first `k` cells carry the stamp.
pub open spec fn count_stamped(st: Seq<u32>, stamp: u32, k: int) -> int
    decreases k,
{
    if k <= 0 {
        0
    } else {
        count_stamped(st, stamp, k - 1) + if st[k - 1] == stamp {
            1int
        } else {
            0int
        }
    }
}

pub open spec fn potential(st: Seq<u32>, cs: Seq<u32>, stamp: u32, bound: int, v: int) -> int {
    if st[v] == stamp {
        cs[v] as int
    } else {
        bound
    }
}

/// The sum of the best known costs of the first `k` cells, an unreached cell counting
/// as `bound`; it falls with every improvement the search makes.
pub open spec fn potential_sum(st: Seq<u32>, cs: Seq<u32>, stamp: u32, bound: int, k: int) -> int
    decreases k,
{
    if k <= 0 {
        0
    } else {
        potential_sum(st, cs, stamp, bound, k - 1) + potential(st, cs, stamp, bound, k - 1)
    }
}

proof fn lemma_count_frame(st1: Seq<u32>, st2: Seq<u32>, stamp: u32, k: int, j: int)
    requires
        0 <= j < k,
        st1.len() >= k,
        st2.len() >= k,
        forall|i: int| 0 <= i < k && i != j ==> st1[i] == st2[i],
    ensures
        count_stamped(st2, stamp, k) - count_stamped(st1, stamp, k) == (if st2[j] == stamp {
            1int
        } else {
            0int
        }) - (if st1[j] == stamp {
            1int
        } else {
            0int
        }),
    decreases k,
{
    if k - 1 > j {
        lemma_count_frame(st1, st2, stamp, k - 1, j);
    } else {
        lemma_count_same(st1, st2, stamp, j);
    }
}

proof fn lemma_count_same(st1: Seq<u32>, st2: Seq<u32>, stamp: u32, k: int)
    requires
        0 <= k,
        st1.len() >= k,
        st2.len() >= k,
        forall|i: int| 0 <= i < k ==> st1[i] == st2[i],
    ensures
        count_stamped(st2, stamp, k) == count_stamped(st1, stamp, k),
    decreases k,
{
    if k > 0 {
        lemma_count_same(st1, st2, stamp, k - 1);
    }
}

proof fn lemma_count_bounds(st: Seq<u32>, stamp: u32, k: int, j: int)
    requires
        0 <= j < k,
        st.len() >= k,
    ensures
        0 <= count_stamped(st, stamp, k) <= k,
        st[j] != stamp ==> count_stamped(st, stamp, k) <= k - 1,
        st[j] == stamp ==> count_stamped(st, stamp, k) >= 1,
    decreases k,
{
    if k - 1 > j {
        lemma_count_bounds(st, stamp, k - 1, j);
    } else {
        lemma_count_range(st, stamp, k - 1);
    }
}

proof fn lemma_count_range(st: Seq<u32>, stamp: u32, k: int)
    requires
        0 <= k,
        st.len() >= k,
    ensures
        0 <= count_stamped(st, stamp, k) <= k,
    decreases k,
{
    if k > 0 {
        lemma_count_range(st, stamp, k - 1);
    }
}

proof fn lemma_potential_frame(
    st1: Seq<u32>,
    cs1: Seq<u32>,
    st2: Seq<u32>,
    cs2: Seq<u32>,
    stamp: u32,
    bound: int,
    k: int,
    j: int,
)
    requires
        0 <= j < k,
        st1.len() >= k,
        st2.len() >= k,
        cs1.len() >= k,
        cs2.len() >= k,
        forall|i: int| 0 <= i < k && i != j ==> st1[i] == st2[i] && cs1[i] == cs2[i],
    ensures
        potential_sum(st2, cs2, stamp, bound, k) - potential_sum(st1, cs1, stamp, bound, k) == potential(
            st2,
            cs2,
            stamp,
            bound,
            j,
        ) - potential(st1, cs1, stamp, bound, j),
    decreases k,
{
    if k - 1 > j {
        lemma_potential_frame(st1, cs1, st2, cs2, stamp, bound, k - 1, j);
    } else {
        lemma_potential_same(st1, cs1, st2, cs2, stamp, bound, j);
    }
}

proof fn lemma_potential_same(
    st1: Seq<u32>,
    cs1: Seq<u32>,
    st2: Seq<u32>,
    cs2: Seq<u32>,
    stamp: u32,
    bound: int,
    k: int,
)
    requires
        0 <= k,
        st1.len() >= k,
        st2.len() >= k,
        cs1.len() >= k,
        cs2.len() >= k,
        forall|i: int| 0 <= i < k ==> st1[i] == st2[i] && cs1[i] == cs2[i],
    ensures
        potential_sum(st2, cs2, stamp, bound, k) == potential_sum(st1, cs1, stamp, bound, k),
    decreases k,
{
    if k > 0 {
        lemma_potential_same(st1, cs1, st2, cs2, stamp, bound, k - 1);
    }
}

proof fn lemma_potential_nonneg(st: Seq<u32>, cs: Seq<u32>, stamp: u32, bound: int, k: int)
    requires
        0 <= k,
        bound >= 0,
    ensures
        potential_sum(st, cs, stamp, bound, k) >= 0,
    decreases k,
{
    if k > 0 {
        lemma_potential_nonneg(st, cs, stamp, bound, k - 1);
    }
}

/// Reusable search state: per-cell best costs and predecessors, valid for a cell only
/// while its stamp equals the current generation, and the open set.
pub struct NativeAStar {
    stamp: u32,
    cost_stamp: Vec<u32>,
    cost_so_far: Vec<u32>,
    came_from: Vec<i32>,
    heap: MinHeap,
}

impl NativeAStar {
    pub closed spec fn wf(&self) -> bool {
        &&& self.cost_so_far@.len() == self.cost_stamp@.len()
        &&& self.came_from@.len() == self.cost_stamp@.len()
        &&& forall|i: int| 0 <= i < self.cost_stamp@.len() ==> #[trigger] self.cost_stamp@[i] <= self.stamp
        &&& self.heap.wf()
    }

    /// The number of cells the cache can serve without growing.
    pub closed spec fn capacity(&self) -> nat {
        self.cost_stamp@.len()
    }

    /// The current search generation.
    pub closed spec fn generation(&self) -> u32 {
        self.stamp
    }

    /// The entries of the open set.
    pub closed spec fn open_entries(&self) -> Multiset<(u32, u32, u32)> {
        self.heap.contents()
    }

    pub closed spec fn visited(&self, v: int) -> bool {
        self.cost_stamp@[v] == self.stamp
    }

    pub fn new() -> (r: Self)
        ensures
            r.wf(),
            r.capacity() == 0,
            r.generation() == 0,
            r.open_entries() =~= Multiset::empty(),
    {
        NativeAStar {
            stamp: 0,
            cost_stamp: Vec::new(),
            cost_so_far: Vec::new(),
            came_from: Vec::new(),
            heap: MinHeap::new(),
        }
    }

    /// Grows the buffers to hold a grid of `stride * height` cells; they never shrink.
    pub(crate) fn ensure_capacity(&mut self, stride: usize, height: usize)
        requires
            old(self).wf(),
            stride * height <= MAX_GRID_CELLS,
        ensures
            final(self).wf(),
            final(self).capacity() >= stride * height,
            final(self).capacity() >= old(self).capacity(),
            stride * height == 0 ==> final(self).capacity() == old(self).capacity(),
            stride * height > 0 ==> final(self).capacity() == if old(self).capacity() >= stride * height {
                old(self).capacity() as int
            } else {
                stride * height
            },
    {
        let needed = stride * height;
        if needed == 0 {
            self.heap.clear();
            return;
        }
        if self.cost_stamp.len() < needed {
            let ghost old_st = self.cost_stamp@;
            self.cost_stamp.resize(needed, 0);
            self.cost_so_far.resize(needed, 0);
            self.came_from.resize(needed, -1);
            assert forall|i: int| 0 <= i < self.cost_stamp@.len() implies #[trigger] self.cost_stamp@[i]
                <= self.stamp by {
                if i < old_st.len() {
                    assert(self.cost_stamp@[i] == old_st[i]);
                }
            }
        }
    }

    /// Starts a new generation, in which no cell counts as visited.
    fn next_stamp(&mut self) -> (r: u32)
        requires
            old(self).wf(),
        ensures
            final(self).wf(),
            r == final(self).stamp,
            r == if old(self).stamp == u32::MAX {
                1
            } else {
                old(self).stamp + 1
            },
            final(self).capacity() == old(self).capacity(),
            forall|i: int| 0 <= i < final(self).capacity() ==> !#[trigger] final(self).visited(i),
    {
        self.stamp = self.stamp.wrapping_add(1);
        if self.stamp == 0 {
            let n = self.cost_stamp.len();
            let mut i: usize = 0;
            while i < n
                invariant
                    n == self.cost_stamp@.len(),
                    self.cost_so_far@.len() == n,
                    self.came_from@.len() == n,
                    self.heap.wf(),
                    i <= n,
                    forall|j: int| 0 <= j < i ==> #[trigger] self.cost_stamp@[j] == 0,
                decreases n - i,
            {
                self.cost_stamp.set(i, 0);
                i = i + 1;
            }
            self.stamp = 1;
        } else {
            assert(forall|i: int| 0 <= i < self.cost_stamp@.len() ==> #[trigger] self.cost_stamp@[i] < self.stamp);
        }
        self.stamp
    }
}


/// Between two states of one search: every stamped cell stays stamped, and its cost
/// does not rise.
pub open spec fn grows(st1: Seq<u32>, cs1: Seq<u32>, st2: Seq<u32>, cs2: Seq<u32>, stamp: u32, n: int) -> bool {
    forall|v: int|
        #![trigger st2[v]]
        0 <= v < n && st1[v] == stamp ==> st2[v] == stamp && cs2[v] <= cs1[v]
}

proof fn lemma_grows_trans(
    st1: Seq<u32>,
    cs1: Seq<u32>,
    st2: Seq<u32>,
    cs2: Seq<u32>,
    st3: Seq<u32>,
    cs3: Seq<u32>,
    stamp: u32,
    n: int,
)
    requires
        grows(st1, cs1, st2, cs2, stamp, n),
        grows(st2, cs2, st3, cs3, stamp, n),
    ensures
        grows(st1, cs1, st3, cs3, stamp, n),
{
    assert forall|v: int| 0 <= v < n && st1[v] == stamp implies #[trigger] st3[v] == stamp && cs3[v] <= cs1[v] by {
        assert(st2[v] == stamp);
        assert(cs2[v] <= cs1[v]);
        assert(st3[v] == stamp);
        assert(cs3[v] <= cs2[v]);
    }
}

proof fn lemma_dir_done_mono<R: StepRule>(
    rule: R,
    g: Grid,
    blocked: Seq<u8>,
    to: int,
    st1: Seq<u32>,
    cs1: Seq<u32>,
    st2: Seq<u32>,
    cs2: Seq<u32>,
    stamp: u32,
    c: int,
    d: Dir,
)
    requires
        g.wf(),
        0 <= c < g.cells(),
        st1.len() >= g.cells(),
        st2.len() >= g.cells(),
        cs1.len() >= g.cells(),
        cs2.len() >= g.cells(),
        grows(st1, cs1, st2, cs2, stamp, g.cells()),
        cs2[c] == cs1[c],
        dir_done(rule, g, blocked, to, st1, cs1, stamp, c, d),
    ensures
        dir_done(rule, g, blocked, to, st2, cs2, stamp, c, d),
{
    if g.neighbor(c, d) is Some {
        g.lemma_neighbor(c, d);
    }
}

proof fn lemma_expanded_mono<R: StepRule>(
    rule: R,
    g: Grid,
    blocked: Seq<u8>,
    to: int,
    st1: Seq<u32>,
    cs1: Seq<u32>,
    st2: Seq<u32>,
    cs2: Seq<u32>,
    stamp: u32,
    c: int,
)
    requires
        g.wf(),
        0 <= c < g.cells(),
        st1.len() >= g.cells(),
        st2.len() >= g.cells(),
        cs1.len() >= g.cells(),
        cs2.len() >= g.cells(),
        grows(st1, cs1, st2, cs2, stamp, g.cells()),
        cs2[c] == cs1[c],
        expanded(rule, g, blocked, to, st1, cs1, stamp, c),
    ensures
        expanded(rule, g, blocked, to, st2, cs2, stamp, c),
{
    lemma_dir_done_mono(rule, g, blocked, to, st1, cs1, st2, cs2, stamp, c, Dir::Right);
    lemma_dir_done_mono(rule, g, blocked, to, st1, cs1, st2, cs2, stamp, c, Dir::Left);
    lemma_dir_done_mono(rule, g, blocked, to, st1, cs1, st2, cs2, stamp, c, Dir::Down);
    lemma_dir_done_mono(rule, g, blocked, to, st1, cs1, st2, cs2, stamp, c, Dir::Up);
}

/// Every cell of a route lies in a set of stamped cells that contains the start and
/// that no legal move leaves.
proof fn lemma_route_stays_stamped<R: StepRule>(
    rule: R,
    g: Grid,
    blocked: Seq<u8>,
    from: int,
    to: int,
    st: Seq<u32>,
    cs: Seq<u32>,
    stamp: u32,
    p: Seq<u32>,
    i: int,
)
    requires
        g.wf(),
        st.len() >= g.cells(),
        0 <= from < g.cells(),
        st[from] == stamp,
        forall|v: int|
            0 <= v < g.cells() && #[trigger] st[v] == stamp ==> expanded(rule, g, blocked, to, st, cs, stamp, v),
        is_route(rule, g, blocked, from, to, p),
        0 <= i < p.len(),
    ensures
        0 <= p[i] < g.cells(),
        st[p[i] as int] == stamp,
    decreases i,
{
    if i > 0 {
        lemma_route_stays_stamped(rule, g, blocked, from, to, st, cs, stamp, p, i - 1);
        let j = i - 1;
        assert(link_cost(rule, g, blocked, to, p[j] as int, p[j + 1] as int) is Some);
        lemma_expanded_step(rule, g, blocked, to, st, cs, stamp, p[j] as int, p[j + 1] as int);
    }
}

proof fn lemma_expanded_step<R: StepRule>(
    rule: R,
    g: Grid,
    blocked: Seq<u8>,
    to: int,
    st: Seq<u32>,
    cs: Seq<u32>,
    stamp: u32,
    c: int,
    n: int,
)
    requires
        expanded(rule, g, blocked, to, st, cs, stamp, c),
        link_cost(rule, g, blocked, to, c, n) is Some,
    ensures
        0 <= n < g.cells(),
        st[n] == stamp,
        cs[n] <= cs[c] + link_cost(rule, g, blocked, to, c, n)->0,
{
    let d = g.dir_between(c, n)->0;
    assert(g.neighbor(c, d) == Some(n));
    assert(dir_done(rule, g, blocked, to, st, cs, stamp, c, d));
}

/// Every move the rule allows costs one.
pub open spec fn unit_costs<R: StepRule>(rule: R, g: Grid, to: int) -> bool {
    forall|c: int, n: int, d: Dir|
        #[trigger] rule.step_cost(g, to, c, n, d) is Some ==> rule.step_cost(g, to, c, n, d) == Some(1int)
}

/// Along legal moves from index `a` to index `b` of `p`, the Manhattan distance between
/// the two cells is at most `b - a`, and differs from it by an even number.
proof fn lemma_walk<R: StepRule>(rule: R, g: Grid, blocked: Seq<u8>, to: int, p: Seq<u32>, a: int, b: int)
    requires
        g.wf(),
        0 <= a <= b < p.len(),
        0 <= p[a] < g.cells(),
        forall|i: int|
            a <= i < b ==> (#[trigger] link_cost(rule, g, blocked, to, p[i] as int, p[i + 1] as int)) is Some,
    ensures
        0 <= p[b] < g.cells(),
        g.distance(p[a] as int, p[b] as int) <= b - a,
        (b - a - g.distance(p[a] as int, p[b] as int)) % 2 == 0,
    decreases b - a,
{
    if b > a {
        lemma_walk(rule, g, blocked, to, p, a, b - 1);
        let j = b - 1;
        assert(link_cost(rule, g, blocked, to, p[j] as int, p[j + 1] as int) is Some);
        let d = g.dir_between(p[j] as int, p[b] as int)->0;
        g.lemma_neighbor(p[j] as int, d);
    }
}

/// Some entry for cell `v` with cost `c` is open.
pub open spec fn open_with(contents: Multiset<(u32, u32, u32)>, v: int, c: int) -> bool {
    exists|p: u32| #[trigger] contents.count((v as u32, p, c as u32)) > 0
}

proof fn lemma_link_range<R: StepRule>(rule: R, g: Grid, blocked: Seq<u8>, to: int, c: int, n: int)
    requires
        link_cost(rule, g, blocked, to, c, n) is Some,
    ensures
        1 <= link_cost(rule, g, blocked, to, c, n)->0 <= 3,
{
    let d = g.dir_between(c, n)->0;
    rule.lemma_step_cost_range(g, to, c, n, d);
}

/// The cost of the first `i + 1` cells of a route extends that of the first `i` by the
/// move between them.
proof fn lemma_prefix_step<R: StepRule>(rule: R, g: Grid, blocked: Seq<u8>, to: int, q: Seq<u32>, i: int)
    requires
        0 < i < q.len(),
    ensures
        route_cost(rule, g, blocked, to, q.take(i + 1)) == route_cost(rule, g, blocked, to, q.take(i))
            + link_cost(rule, g, blocked, to, q[i - 1] as int, q[i] as int)->0,
{
    let t = q.take(i + 1);
    assert(t.drop_last() =~= q.take(i));
    assert(t[t.len() - 2] == q[i - 1]);
    assert(t.last() == q[i]);
}

/// Every move costs at least one, so a longer prefix costs at least one more per move.
proof fn lemma_cost_grows<R: StepRule>(rule: R, g: Grid, blocked: Seq<u8>, to: int, q: Seq<u32>, i: int, j: int)
    requires
        0 <= i <= j < q.len(),
        forall|k: int|
            0 <= k < q.len() - 1 ==> (#[trigger] link_cost(rule, g, blocked, to, q[k] as int, q[k + 1] as int)) is Some,
    ensures
        route_cost(rule, g, blocked, to, q.take(j + 1)) >= route_cost(rule, g, blocked, to, q.take(i + 1)) + (j - i),
    decreases j - i,
{
    if j > i {
        lemma_cost_grows(rule, g, blocked, to, q, i, j - 1);
        lemma_prefix_step(rule, g, blocked, to, q, j);
        let k = j - 1;
        assert(link_cost(rule, g, blocked, to, q[k] as int, q[k + 1] as int) is Some);
        lemma_link_range(rule, g, blocked, to, q[k] as int, q[k + 1] as int);
    }
}

/// Under a rule whose moves all cost one, a route costs its number of moves.
proof fn lemma_unit_cost<R: StepRule>(rule: R, g: Grid, blocked: Seq<u8>, to: int, q: Seq<u32>, k: int)
    requires
        unit_costs(rule, g, to),
        0 <= k < q.len(),
        forall|i: int|
            0 <= i < q.len() - 1 ==> (#[trigger] link_cost(rule, g, blocked, to, q[i] as int, q[i + 1] as int)) is Some,
    ensures
        route_cost(rule, g, blocked, to, q.take(k + 1)) == k,
    decreases k,
{
    if k == 0 {
        assert(q.take(1).len() == 1);
    } else {
        lemma_unit_cost(rule, g, blocked, to, q, k - 1);
        lemma_prefix_step(rule, g, blocked, to, q, k);
        let i = k - 1;
        assert(link_cost(rule, g, blocked, to, q[i] as int, q[i + 1] as int) is Some);
        let d = g.dir_between(q[i] as int, q[k] as int)->0;
        assert(rule.step_cost(g, to, q[i] as int, q[k] as int, d) is Some);
    }
}

/// Along moves whose costs bound the rise of `cs`, the cost of every prefix is at most
/// `cs` at its last cell, and `cs` strictly rises, so no cell repeats.
proof fn lemma_rising_path<R: StepRule>(rule: R, g: Grid, blocked: Seq<u8>, to: int, cs: Seq<u32>, p: Seq<u32>, k: int)
    requires
        0 <= k < p.len(),
        cs[p[0] as int] == 0,
        forall|i: int|
            0 <= i < p.len() - 1 ==> (#[trigger] link_cost(rule, g, blocked, to, p[i] as int, p[i + 1] as int)) is Some
                && cs[p[i] as int] + link_cost(rule, g, blocked, to, p[i] as int, p[i + 1] as int)->0 <= cs[p[i
                + 1] as int],
    ensures
        route_cost(rule, g, blocked, to, p.take(k + 1)) <= cs[p[k] as int],
        forall|i: int| 0 <= i < k ==> cs[#[trigger] p[i] as int] < cs[p[k] as int],
    decreases k,
{
    if k == 0 {
        assert(p.take(1).len() == 1);
    } else {
        lemma_rising_path(rule, g, blocked, to, cs, p, k - 1);
        lemma_prefix_step(rule, g, blocked, to, p, k);
        let i = k - 1;
        assert(link_cost(rule, g, blocked, to, p[i] as int, p[i + 1] as int) is Some);
        lemma_link_range(rule, g, blocked, to, p[i] as int, p[i + 1] as int);
    }
}

/// While the end of a route has not been reached, the open set holds an entry whose
/// priority is at most one more than the route's cost.
#[verifier::spinoff_prover]
#[verifier::rlimit(100)]
proof fn lemma_open_on_route<R: StepRule>(
    rule: R,
    g: Grid,
    blocked: Seq<u8>,
    from: int,
    to: int,
    st: Seq<u32>,
    cs: Seq<u32>,
    stamp: u32,
    contents: Multiset<(u32, u32, u32)>,
    q: Seq<u32>,
    j: int,
)
    requires
        g.wf(),
        0 <= from < g.cells(),
        0 <= to < g.cells(),
        st.len() >= g.cells(),
        cs.len() >= g.cells(),
        st[from] == stamp,
        cs[from] == 0,
        forall|v: int|
            0 <= v < g.cells() && #[trigger] st[v] == stamp ==> (v != to && expanded(
                rule,
                g,
                blocked,
                to,
                st,
                cs,
                stamp,
                v,
            )) || open_with(contents, v, cs[v] as int),
        forall|e: (u32, u32, u32)| #[trigger] contents.count(e) > 0 ==> entry_ok(g, to, e),
        is_route(rule, g, blocked, from, to, q),
        0 <= j < q.len(),
        forall|i: int|
            0 <= i < j ==> {
                let c = #[trigger] q[i] as int;
                &&& st[c] == stamp
                &&& cs[c] <= route_cost(rule, g, blocked, to, q.take(i + 1))
                &&& c != to
                &&& expanded(rule, g, blocked, to, st, cs, stamp, c)
            },
    ensures
        exists|e: (u32, u32, u32)|
            #[trigger] contents.count(e) > 0 && e.1 <= route_cost(rule, g, blocked, to, q) + 1,
    decreases q.len() - j,
{
    let c = q[j] as int;
    let last = q.len() - 1;
    lemma_walk(rule, g, blocked, to, q, 0, j);
    lemma_walk(rule, g, blocked, to, q, j, last);
    lemma_cost_grows(rule, g, blocked, to, q, j, last);
    assert(q.take(last + 1) =~= q);
    if j > 0 {
        let i = j - 1;
        let b = q[i] as int;
        assert(st[b] == stamp && cs[b] <= route_cost(rule, g, blocked, to, q.take(i + 1)) && expanded(
            rule,
            g,
            blocked,
            to,
            st,
            cs,
            stamp,
            b,
        ));
        assert(link_cost(rule, g, blocked, to, q[i] as int, q[i + 1] as int) is Some);
        lemma_expanded_step(rule, g, blocked, to, st, cs, stamp, b, c);
        lemma_prefix_step(rule, g, blocked, to, q, j);
    } else {
        assert(q.take(1).len() == 1);
    }
    assert(st[c] == stamp);
    assert(cs[c] <= route_cost(rule, g, blocked, to, q.take(j + 1)));
    if c != to && expanded(rule, g, blocked, to, st, cs, stamp, c) {
        lemma_open_on_route(rule, g, blocked, from, to, st, cs, stamp, contents, q, j + 1);
    } else {
        assert(open_with(contents, c, cs[c] as int));
        let p = choose|p: u32| #[trigger] contents.count((c as u32, p, cs[c])) > 0;
        let e = (c as u32, p, cs[c]);
        assert(entry_ok(g, to, e));
        assert(contents.count(e) > 0 && e.1 <= route_cost(rule, g, blocked, to, q) + 1);
    }
}

impl NativeAStar {
    closed spec fn parent_ok<R: StepRule>(&self, rule: R, g: Grid, blocked: Seq<u8>, to: int, v: int) -> bool {
        let p = self.came_from@[v] as int;
        &&& 0 <= p < g.cells()
        &&& self.cost_stamp@[p] == self.stamp
        &&& link_cost(rule, g, blocked, to, p, v) is Some
        &&& self.cost_so_far@[p] + link_cost(rule, g, blocked, to, p, v)->0 <= self.cost_so_far@[v]
    }

    /// `b`'s predecessor is `a`, by a legal move whose cost bridges their costs.
    closed spec fn tree_edge<R: StepRule>(&self, rule: R, g: Grid, blocked: Seq<u8>, to: int, a: int, b: int) -> bool {
        &&& self.came_from@[b] == a
        &&& link_cost(rule, g, blocked, to, a, b) is Some
        &&& self.cost_so_far@[a] + link_cost(rule, g, blocked, to, a, b)->0 <= self.cost_so_far@[b]
    }

    /// The predecessor links of stamped cells form legal moves of falling cost that end
    /// at `from`.
    closed spec fn tree_inv<R: StepRule>(&self, rule: R, g: Grid, blocked: Seq<u8>, from: int, to: int) -> bool {
        let n = g.cells();
        &&& self.wf()
        &&& self.stamp > 0
        &&& self.cost_stamp@.len() >= n
        &&& 0 <= from < n
        &&& 0 <= to < n
        &&& self.cost_stamp@[from] == self.stamp
        &&& self.cost_so_far@[from] == 0
        &&& self.came_from@[from] == -1
        &&& forall|v: int|
            0 <= v < n && #[trigger] self.cost_stamp@[v] == self.stamp && v != from ==> self.parent_ok(
                rule,
                g,
                blocked,
                to,
                v,
            )
    }

    /// What holds between the steps of a search from `from` to `to`, for every stamped
    /// cell but `except`, the one being expanded.
    closed spec fn search_inv<R: StepRule>(
        &self,
        rule: R,
        g: Grid,
        blocked: Seq<u8>,
        from: int,
        to: int,
        except: int,
    ) -> bool {
        let n = g.cells();
        &&& self.tree_inv(rule, g, blocked, from, to)
        &&& forall|v: int|
            0 <= v < n && #[trigger] self.cost_stamp@[v] == self.stamp && v != except ==> (v != to
                && expanded(rule, g, blocked, to, self.cost_stamp@, self.cost_so_far@, self.stamp, v)) || self.heap.holds(
                v as u32,
                self.cost_so_far@[v],
            )
        &&& forall|e: (u32, u32, u32)| #[trigger] self.heap.contents().count(e) > 0 ==> entry_ok(g, to, e)
        &&& forall|v: int|
            0 <= v < n && #[trigger] self.cost_stamp@[v] == self.stamp ==> self.cost_so_far@[v] >= g.distance(
                from,
                v,
            )
        &&& forall|v: int|
            0 <= v < n && #[trigger] self.cost_stamp@[v] == self.stamp ==> self.cost_so_far@[v] <= 3 * (
            count_stamped(self.cost_stamp@, self.stamp, n) - 1)
    }

    /// When the end is popped with its current cost, the route rebuilt from the
    /// predecessors costs at most one more than any legal route; under unit move costs
    /// it is a shortest one, since all routes between two cells agree in parity.
    proof fn lemma_route_found_bounds<R: StepRule>(
        &self,
        before: &NativeAStar,
        rule: R,
        g: Grid,
        blocked: Seq<u8>,
        from: int,
        to: int,
        path: Seq<u32>,
    )
        requires
            g.wf(),
            before.search_inv(rule, g, blocked, from, to, -1),
            before.heap.len_spec() > 0,
            before.heap.top().0 == to,
            before.heap.top().2 == self.cost_so_far@[to],
            forall|e: (u32, u32, u32)|
                #[trigger] before.heap.contents().count(e) > 0 ==> before.heap.top().1 <= e.1,
            before.heap.contents().count(before.heap.top()) > 0,
            self.cost_so_far@ == before.cost_so_far@,
            is_route(rule, g, blocked, from, to, path),
            path.len() <= self.cost_so_far@[to] + 1,
            route_cost(rule, g, blocked, to, path) <= self.cost_so_far@[to],
        ensures
            forall|q: Seq<u32>|
                #[trigger] is_route(rule, g, blocked, from, to, q) ==> route_cost(rule, g, blocked, to, path)
                    <= route_cost(rule, g, blocked, to, q) + 1 && (unit_costs(rule, g, to) ==> path.len()
                    <= q.len()),
    {
        let st = before.cost_stamp@;
        let cs = before.cost_so_far@;
        let contents = before.heap.contents();
        assert forall|v: int| 0 <= v < g.cells() && #[trigger] st[v] == before.stamp implies (v != to
            && expanded(rule, g, blocked, to, st, cs, before.stamp, v)) || open_with(
            contents,
            v,
            cs[v] as int,
        ) by {
            if !(v != to && expanded(rule, g, blocked, to, st, cs, before.stamp, v)) {
                assert(before.heap.holds(v as u32, cs[v]));
                let p = choose|p: u32| #[trigger] contents.count((v as u32, p, cs[v])) > 0;
                assert(contents.count((v as u32, p, (cs[v] as int) as u32)) > 0);
            }
        }
        assert(entry_ok(g, to, before.heap.top()));
        assert forall|q: Seq<u32>| #[trigger] is_route(rule, g, blocked, from, to, q) implies route_cost(
            rule,
            g,
            blocked,
            to,
            path,
        ) <= route_cost(rule, g, blocked, to, q) + 1 && (unit_costs(rule, g, to) ==> path.len()
            <= q.len()) by {
            lemma_open_on_route(rule, g, blocked, from, to, st, cs, before.stamp, contents, q, 0);
            let e = choose|e: (u32, u32, u32)|
                #[trigger] contents.count(e) > 0 && e.1 <= route_cost(rule, g, blocked, to, q) + 1;
            assert(before.heap.top().1 <= e.1);
            if unit_costs(rule, g, to) {
                lemma_unit_cost(rule, g, blocked, to, q, q.len() - 1);
                assert(q.take(q.len() as int) =~= q);
                lemma_walk(rule, g, blocked, to, path, 0, path.len() - 1);
                lemma_walk(rule, g, blocked, to, q, 0, q.len() - 1);
            }
        }
    }

    closed spec fn potential_of(&self, g: Grid) -> int {
        potential_sum(self.cost_stamp@, self.cost_so_far@, self.stamp, 3 * g.cells(), g.cells())
    }

    /// Offers `next`, reached from `cur` by `d`, a cost through `cur`; records it and
    /// queues `next` when that improves on what is known.
    #[verifier::spinoff_prover]
    #[verifier::rlimit(100)]
    fn relax<R: StepRule>(
        &mut self,
        g: &Grid,
        blocked: &[u8],
        rule: &R,
        Ghost(from): Ghost<int>,
        to: usize,
        to_x: usize,
        to_y: usize,
        cur: usize,
        cur_cost: u32,
        next: usize,
        next_x: usize,
        next_y: usize,
        d: Dir,
    )
        requires
            old(self).search_inv(*rule, *g, blocked@, from, to as int, cur as int),
            g.wf(),
            rule.covers(g.cells()),
            blocked@.len() >= g.cells(),
            cur < g.cells(),
            old(self).cost_stamp@[cur as int] == old(self).stamp,
            cur_cost == old(self).cost_so_far@[cur as int],
            g.neighbor(cur as int, d) == Some(next as int),
            next_x as int == g.x_of(next as int),
            next_y as int == g.y_of(next as int),
            to_x as int == g.x_of(to as int),
            to_y as int == g.y_of(to as int),
        ensures
            final(self).search_inv(*rule, *g, blocked@, from, to as int, cur as int),
            dir_done(
                *rule,
                *g,
                blocked@,
                to as int,
                final(self).cost_stamp@,
                final(self).cost_so_far@,
                final(self).stamp,
                cur as int,
                d,
            ),
            final(self).stamp == old(self).stamp,
            final(self).capacity() == old(self).capacity(),
            final(self).cost_so_far@[cur as int] == old(self).cost_so_far@[cur as int],
            grows(
                old(self).cost_stamp@,
                old(self).cost_so_far@,
                final(self).cost_stamp@,
                final(self).cost_so_far@,
                old(self).stamp,
                g.cells(),
            ),
            final(self).potential_of(*g) <= old(self).potential_of(*g),
            final(self).potential_of(*g) < old(self).potential_of(*g) || final(self).heap.len_spec()
                == old(self).heap.len_spec(),
    {
        let ghost n = g.cells();
        proof {
            g.lemma_neighbor(cur as int, d);
            g.lemma_coords(next as int);
            g.lemma_coords(to as int);
            lemma_count_bounds(self.cost_stamp@, self.stamp, n, cur as int);
        }
        if blocked[next] == 0 || next == to {
            let step = rule.step(g, to, cur, next, d);
            proof {
                rule.lemma_step_cost_range(*g, to as int, cur as int, next as int, d);
            }
            if let Some(w) = step {
                let new_cost = cur_cost + w;
                if self.cost_stamp[next] != self.stamp || new_cost < self.cost_so_far[next] {
                    let ghost old_self = *self;
                    let ghost st0 = self.cost_stamp@;
                    let ghost cs0 = self.cost_so_far@;
                    proof {
                        lemma_count_bounds(st0, self.stamp, n, next as int);
                    }
                    self.cost_stamp.set(next, self.stamp);
                    self.cost_so_far.set(next, new_cost);
                    self.came_from.set(next, cur as i32);
                    let abs_x = if next_x >= to_x {
                        next_x - to_x
                    } else {
                        to_x - next_x
                    };
                    let abs_y = if next_y >= to_y {
                        next_y - to_y
                    } else {
                        to_y - next_y
                    };
                    let h = abs_x as u32 + abs_y as u32 + if abs_x == 0 || abs_y == 0 {
                        0
                    } else {
                        1
                    };
                    self.heap.push(next as u32, new_cost + h, new_cost);
                    proof {
                        let st1 = self.cost_stamp@;
                        let cs1 = self.cost_so_far@;
                        let stamp = self.stamp;
                        lemma_count_frame(st0, st1, stamp, n, next as int);
                        lemma_potential_frame(st0, cs0, st1, cs1, stamp, 3 * n, n, next as int);
                        assert(link_cost(*rule, *g, blocked@, to as int, cur as int, next as int) == Some(
                            w as int,
                        ));
                        assert forall|v: int|
                            0 <= v < n && #[trigger] st1[v] == stamp && v != from implies self.parent_ok(
                            *rule,
                            *g,
                            blocked@,
                            to as int,
                            v,
                        ) by {
                            if v != next {
                                assert(old_self.parent_ok(*rule, *g, blocked@, to as int, v));
                            }
                        }
                        assert forall|v: int|
                            0 <= v < n && #[trigger] st1[v] == stamp && v != cur implies (v != to
                            && expanded(*rule, *g, blocked@, to as int, st1, cs1, stamp, v)) || self.heap.holds(
                            v as u32,
                            cs1[v],
                        ) by {
                            if v != next {
                                assert(st0[v] == stamp);
                                if v != to && expanded(*rule, *g, blocked@, to as int, st0, cs0, stamp, v) {
                                    lemma_expanded_mono(
                                        *rule,
                                        *g,
                                        blocked@,
                                        to as int,
                                        st0,
                                        cs0,
                                        st1,
                                        cs1,
                                        stamp,
                                        v,
                                    );
                                } else {
                                    assert(old_self.heap.holds(v as u32, cs0[v]));
                                }
                            }
                        }
                        assert forall|e: (u32, u32, u32)| #[trigger] self.heap.contents().count(e) > 0 implies entry_ok(
                            *g,
                            to as int,
                            e,
                        ) by {
                            if e != (next as u32, (new_cost + h) as u32, new_cost) {
                                assert(old_self.heap.contents().count(e) > 0);
                            }
                        }
                    }
                }
            }
        }
    }
}


proof fn lemma_no_route<R: StepRule>(
    rule: R,
    g: Grid,
    blocked: Seq<u8>,
    from: int,
    to: int,
    st: Seq<u32>,
    cs: Seq<u32>,
    stamp: u32,
)
    requires
        g.wf(),
        st.len() >= g.cells(),
        0 <= from < g.cells(),
        st[from] == stamp,
        forall|v: int|
            0 <= v < g.cells() && #[trigger] st[v] == stamp ==> v != to && expanded(
                rule,
                g,
                blocked,
                to,
                st,
                cs,
                stamp,
                v,
            ),
    ensures
        forall|p: Seq<u32>| !#[trigger] is_route(rule, g, blocked, from, to, p),
{
    assert forall|p: Seq<u32>| !#[trigger] is_route(rule, g, blocked, from, to, p) by {
        if is_route(rule, g, blocked, from, to, p) {
            lemma_route_stays_stamped(rule, g, blocked, from, to, st, cs, stamp, p, p.len() - 1);
        }
    }
}

impl NativeAStar {
    /// Follows predecessors from `current_idx` back to the start and returns the cells
    /// in route order.
    fn reconstruct_path<R: StepRule>(
        &self,
        current_idx: u32,
        Ghost(rule): Ghost<R>,
        Ghost(g): Ghost<Grid>,
        Ghost(blocked): Ghost<Seq<u8>>,
        Ghost(from): Ghost<int>,
        Ghost(to): Ghost<int>,
    ) -> (path: Vec<u32>)
        requires
            self.tree_inv(rule, g, blocked, from, to),
            g.wf(),
            current_idx < g.cells(),
            self.cost_stamp@[current_idx as int] == self.stamp,
        ensures
            path@.len() >= 1,
            path@[0] == from,
            path@.last() == current_idx,
            forall|i: int|
                0 <= i < path@.len() - 1 ==> (#[trigger] link_cost(
                    rule,
                    g,
                    blocked,
                    to,
                    path@[i] as int,
                    path@[i + 1] as int,
                )) is Some,
            path@.len() <= self.cost_so_far@[current_idx as int] + 1,
            forall|i: int|
                0 <= i < path@.len() - 1 ==> #[trigger] self.tree_edge(
                    rule,
                    g,
                    blocked,
                    to,
                    path@[i] as int,
                    path@[i + 1] as int,
                ),
    {
        let ghost n = g.cells();
        let mut rev: Vec<u32> = Vec::new();
        let mut cur = current_idx;
        loop
            invariant_except_break
                rev@.len() > 0 ==> rev@[0] == current_idx && link_cost(
                    rule,
                    g,
                    blocked,
                    to,
                    cur as int,
                    rev@.last() as int,
                ) is Some && self.tree_edge(rule, g, blocked, to, cur as int, rev@.last() as int),
                forall|i: int|
                    0 <= i < rev@.len() - 1 ==> #[trigger] self.tree_edge(
                        rule,
                        g,
                        blocked,
                        to,
                        rev@[i + 1] as int,
                        rev@[i] as int,
                    ),
                forall|i: int|
                    0 <= i < rev@.len() - 1 ==> (#[trigger] link_cost(
                        rule,
                        g,
                        blocked,
                        to,
                        rev@[i + 1] as int,
                        rev@[i] as int,
                    )) is Some,
                rev@.len() + self.cost_so_far@[cur as int] <= self.cost_so_far@[current_idx as int],
            invariant
                self.tree_inv(rule, g, blocked, from, to),
                g.wf(),
                n == g.cells(),
                cur < n,
                self.cost_stamp@[cur as int] == self.stamp,
                rev@.len() == 0 ==> cur == current_idx,
            ensures
                rev@.len() >= 1,
                rev@[0] == current_idx,
                rev@.last() == from,
                forall|i: int|
                    0 <= i < rev@.len() - 1 ==> #[trigger] self.tree_edge(
                        rule,
                        g,
                        blocked,
                        to,
                        rev@[i + 1] as int,
                        rev@[i] as int,
                    ),
                forall|i: int|
                    0 <= i < rev@.len() - 1 ==> (#[trigger] link_cost(
                        rule,
                        g,
                        blocked,
                        to,
                        rev@[i + 1] as int,
                        rev@[i] as int,
                    )) is Some,
                rev@.len() <= self.cost_so_far@[current_idx as int] + 1,
            decreases self.cost_so_far@[cur as int],
        {
            let ghost rev0 = rev@;
            rev.push(cur);
            proof {
                assert forall|i: int| 0 <= i < rev@.len() - 1 implies (#[trigger] link_cost(
                    rule,
                    g,
                    blocked,
                    to,
                    rev@[i + 1] as int,
                    rev@[i] as int,
                )) is Some by {
                    if i < rev0.len() - 1 {
                        assert(rev0[i] == rev@[i] && rev0[i + 1] == rev@[i + 1]);
                    }
                }
                assert forall|i: int| 0 <= i < rev@.len() - 1 implies #[trigger] self.tree_edge(
                    rule,
                    g,
                    blocked,
                    to,
                    rev@[i + 1] as int,
                    rev@[i] as int,
                ) by {
                    if i < rev0.len() - 1 {
                        assert(rev0[i] == rev@[i] && rev0[i + 1] == rev@[i + 1]);
                    }
                }
            }
            assert(self.came_from@.len() == self.cost_stamp@.len());
            let parent = self.came_from[cur as usize];
            if parent < 0 {
                proof {
                    if cur as int != from {
                        assert(self.parent_ok(rule, g, blocked, to, cur as int));
                    }
                }
                break;
            }
            proof {
                assert(cur as int != from);
                assert(self.parent_ok(rule, g, blocked, to, cur as int));
                let p = parent as int;
                let d = g.dir_between(p, cur as int)->0;
                rule.lemma_step_cost_range(g, to, p, cur as int, d);
            }
            cur = parent as u32;
        }
        let mut path: Vec<u32> = Vec::new();
        let mut i = rev.len();
        while i > 0
            invariant
                i <= rev@.len(),
                path@.len() == rev@.len() - i,
                forall|j: int| 0 <= j < path@.len() ==> path@[j] == rev@[rev@.len() - 1 - j],
            decreases i,
        {
            i = i - 1;
            path.push(rev[i]);
        }
        proof {
            let m = rev@.len();
            assert forall|i: int| 0 <= i < path@.len() - 1 implies (#[trigger] link_cost(
                rule,
                g,
                blocked,
                to,
                path@[i] as int,
                path@[i + 1] as int,
            )) is Some by {
                let k = m - 2 - i;
                assert(path@[i] == rev@[k + 1]);
                assert(path@[i + 1] == rev@[k]);
            }
            assert forall|i: int| 0 <= i < path@.len() - 1 implies #[trigger] self.tree_edge(
                rule,
                g,
                blocked,
                to,
                path@[i] as int,
                path@[i + 1] as int,
            ) by {
                let k = m - 2 - i;
                assert(path@[i] == rev@[k + 1]);
                assert(path@[i + 1] == rev@[k]);
            }
        }
        path
    }

    /// Offers each neighbour of `cur` a route through it, in the order right, left,
    /// down, up.
    #[verifier::spinoff_prover]
    #[verifier::rlimit(100)]
    fn expand<R: StepRule>(
        &mut self,
        g: &Grid,
        blocked: &[u8],
        rule: &R,
        Ghost(from): Ghost<int>,
        to: usize,
        to_x: usize,
        to_y: usize,
        cur: usize,
    )
        requires
            old(self).search_inv(*rule, *g, blocked@, from, to as int, cur as int),
            g.wf(),
            rule.covers(g.cells()),
            blocked@.len() >= g.cells(),
            cur < g.cells(),
            cur != to,
            old(self).cost_stamp@[cur as int] == old(self).stamp,
            to_x as int == g.x_of(to as int),
            to_y as int == g.y_of(to as int),
        ensures
            final(self).search_inv(*rule, *g, blocked@, from, to as int, -1),
            final(self).stamp == old(self).stamp,
            final(self).capacity() == old(self).capacity(),
            final(self).potential_of(*g) <= old(self).potential_of(*g),
            final(self).potential_of(*g) < old(self).potential_of(*g) || final(self).heap.len_spec()
                == old(self).heap.len_spec(),
    {
        let current_cost = self.cost_so_far[cur];
        let current_y = cur / g.stride;
        let current_x = cur % g.stride;
        let ghost n = g.cells();
        let ghost stamp = self.stamp;
        proof {
            g.lemma_coords(cur as int);
        }
        let ghost st0 = self.cost_stamp@;
        let ghost cs0 = self.cost_so_far@;
        if current_x < g.max_x {
            proof {
                g.lemma_neighbor(cur as int, Dir::Right);
            }
            self.relax(g, blocked, rule, Ghost(from), to, to_x, to_y, cur, current_cost, cur + 1,
                current_x + 1, current_y, Dir::Right);
        }
        let ghost st1 = self.cost_stamp@;
        let ghost cs1 = self.cost_so_far@;
        assert(grows(st0, cs0, st1, cs1, stamp, n));
        if current_x > 0 {
            proof {
                g.lemma_neighbor(cur as int, Dir::Left);
            }
            self.relax(g, blocked, rule, Ghost(from), to, to_x, to_y, cur, current_cost, cur - 1,
                current_x - 1, current_y, Dir::Left);
        }
        let ghost st2 = self.cost_stamp@;
        let ghost cs2 = self.cost_so_far@;
        assert(grows(st1, cs1, st2, cs2, stamp, n));
        if current_y < g.max_y {
            proof {
                g.lemma_neighbor(cur as int, Dir::Down);
            }
            self.relax(g, blocked, rule, Ghost(from), to, to_x, to_y, cur, current_cost, cur + g.stride,
                current_x, current_y + 1, Dir::Down);
        }
        let ghost st3 = self.cost_stamp@;
        let ghost cs3 = self.cost_so_far@;
        assert(grows(st2, cs2, st3, cs3, stamp, n));
        if current_y > 0 {
            proof {
                g.lemma_neighbor(cur as int, Dir::Up);
            }
            self.relax(g, blocked, rule, Ghost(from), to, to_x, to_y, cur, current_cost, cur - g.stride,
                current_x, current_y - 1, Dir::Up);
        }
        proof {
            let st = self.cost_stamp@;
            let cs = self.cost_so_far@;
            assert(grows(st3, cs3, st, cs, stamp, n));
            lemma_grows_trans(st2, cs2, st3, cs3, st, cs, stamp, n);
            lemma_grows_trans(st1, cs1, st2, cs2, st, cs, stamp, n);
            let (r, b, t) = (*rule, *g, blocked@);
            let tt = to as int;
            let c = cur as int;
            lemma_dir_done_mono(r, b, t, tt, st1, cs1, st, cs, stamp, c, Dir::Right);
            lemma_dir_done_mono(r, b, t, tt, st2, cs2, st, cs, stamp, c, Dir::Left);
            lemma_dir_done_mono(r, b, t, tt, st3, cs3, st, cs, stamp, c, Dir::Down);
            assert(expanded(r, b, t, tt, st, cs, stamp, c));
        }
    }

    /// Runs the search from `from` to `to` under `rule`; the route found, or `None`
    /// when no legal route exists.
    #[verifier::spinoff_prover]
    #[verifier::rlimit(100)]
    pub(crate) fn search<R: StepRule>(&mut self, g: &Grid, from: usize, to: usize, blocked: &[u8], rule: &R) -> (r: Option<
        Vec<u32>,
    >)
        requires
            old(self).wf(),
            g.wf(),
            old(self).capacity() >= g.cells(),
            blocked@.len() >= g.cells(),
            from < g.cells(),
            to < g.cells(),
            rule.covers(g.cells()),
        ensures
            final(self).wf(),
            final(self).capacity() == old(self).capacity(),
            r is Some ==> is_route(*rule, *g, blocked@, from as int, to as int, r->0@),
            r is Some ==> r->0@.len() <= 3 * g.cells(),
            r is None ==> forall|p: Seq<u32>| !#[trigger] is_route(*rule, *g, blocked@, from as int, to as int, p),
            r is Some ==> r->0@.no_duplicates(),
            r is Some ==> forall|q: Seq<u32>|
                #[trigger] is_route(*rule, *g, blocked@, from as int, to as int, q) ==> route_cost(
                    *rule,
                    *g,
                    blocked@,
                    to as int,
                    r->0@,
                ) <= route_cost(*rule, *g, blocked@, to as int, q) + 1 && (unit_costs(*rule, *g, to as int)
                    ==> r->0@.len() <= q.len()),
    {
        let ghost n = g.cells();
        let stamp = self.next_stamp();
        let ghost fresh = *self;
        self.heap.clear();
        self.cost_stamp.set(from, stamp);
        self.cost_so_far.set(from, 0);
        self.came_from.set(from, -1);
        self.heap.push(from as u32, 0, 0);
        proof {
            g.lemma_coords(to as int);
            let st = self.cost_stamp@;
            lemma_count_bounds(st, stamp, n, from as int);
            assert forall|v: int| 0 <= v < n && #[trigger] st[v] == stamp implies v == from by {
                if v != from {
                    assert(!fresh.visited(v));
                }
            }
            assert forall|e: (u32, u32, u32)| #[trigger] self.heap.contents().count(e) > 0 implies entry_ok(
                *g,
                to as int,
                e,
            ) by {
                assert(e == (from as u32, 0u32, 0u32));
            }
        }
        let to_y = to / g.stride;
        let to_x = to % g.stride;
        loop
            invariant
                self.search_inv(*rule, *g, blocked@, from as int, to as int, -1),
                self.stamp == stamp,
                self.capacity() == old(self).capacity(),
                g.wf(),
                rule.covers(g.cells()),
                blocked@.len() >= g.cells(),
                from < n,
                to < n,
                n == g.cells(),
                to_x as int == g.x_of(to as int),
                to_y as int == g.y_of(to as int),
            decreases self.potential_of(*g), self.heap.len_spec(),
        {
            proof {
                lemma_potential_nonneg(self.cost_stamp@, self.cost_so_far@, self.stamp, 3 * n, n);
            }
            let ghost before = *self;
            let popped = self.heap.pop();
            if popped.is_none() {
                proof {
                    assert forall|v: int| 0 <= v < n && #[trigger] self.cost_stamp@[v] == stamp implies v != to
                        && expanded(*rule, *g, blocked@, to as int, self.cost_stamp@, self.cost_so_far@, stamp, v) by {
                        assert(!before.heap.holds(v as u32, self.cost_so_far@[v]));
                    }
                    lemma_no_route(
                        *rule,
                        *g,
                        blocked@,
                        from as int,
                        to as int,
                        self.cost_stamp@,
                        self.cost_so_far@,
                        stamp,
                    );
                }
                return None;
            }
            let (cur_u32, cost_at_push) = popped.unwrap();
            let cur = cur_u32 as usize;
            proof {
                assert(before.heap.contents().count(before.heap.top()) > 0);
                assert forall|v: int|
                    0 <= v < n && #[trigger] self.cost_stamp@[v] == stamp && v != cur as int implies (v != to
                    && expanded(*rule, *g, blocked@, to as int, self.cost_stamp@, self.cost_so_far@, stamp, v)) || self.heap.holds(
                    v as u32,
                    self.cost_so_far@[v],
                ) by {
                    if !(v != to && expanded(*rule, *g, blocked@, to as int, self.cost_stamp@, self.cost_so_far@, stamp, v)) {
                        assert(before.heap.holds(v as u32, self.cost_so_far@[v]));
                    }
                }
                assert forall|e: (u32, u32, u32)| #[trigger] self.heap.contents().count(e) > 0 implies entry_ok(
                    *g,
                    to as int,
                    e,
                ) by {
                    assert(before.heap.contents().count(e) > 0);
                }
            }
            if self.cost_stamp[cur] != stamp || cost_at_push != self.cost_so_far[cur] {
                proof {
                    assert forall|v: int| 0 <= v < n && #[trigger] self.cost_stamp@[v] == stamp implies (v != to
                        && expanded(*rule, *g, blocked@, to as int, self.cost_stamp@, self.cost_so_far@, stamp, v)) || self.heap.holds(
                        v as u32,
                        self.cost_so_far@[v],
                    ) by {
                        if !(v != to && expanded(*rule, *g, blocked@, to as int, self.cost_stamp@, self.cost_so_far@, stamp, v)) {
                            assert(before.heap.holds(v as u32, self.cost_so_far@[v]));
                        }
                    }
                }
                continue;
            }
            if cur == to {
                let path = self.reconstruct_path::<R>(
                    cur_u32,
                    Ghost(*rule),
                    Ghost(*g),
                    Ghost(blocked@),
                    Ghost(from as int),
                    Ghost(to as int),
                );
                proof {
                    lemma_count_bounds(self.cost_stamp@, stamp, n, cur as int);
                    let p = path@;
                    let cs = self.cost_so_far@;
                    assert forall|i: int| 0 <= i < p.len() - 1 implies (#[trigger] link_cost(
                        *rule,
                        *g,
                        blocked@,
                        to as int,
                        p[i] as int,
                        p[i + 1] as int,
                    )) is Some && cs[p[i] as int] + link_cost(
                        *rule,
                        *g,
                        blocked@,
                        to as int,
                        p[i] as int,
                        p[i + 1] as int,
                    )->0 <= cs[p[i + 1] as int] by {
                        assert(self.tree_edge(*rule, *g, blocked@, to as int, p[i] as int, p[i + 1] as int));
                    }
                    lemma_rising_path(*rule, *g, blocked@, to as int, cs, p, p.len() - 1);
                    assert(p.take(p.len() as int) =~= p);
                    assert forall|i: int, j: int| 0 <= i < p.len() && 0 <= j < p.len() && i != j implies p[i]
                        != p[j] by {
                        if i < j {
                            lemma_rising_path(*rule, *g, blocked@, to as int, cs, p, j);
                        } else {
                            lemma_rising_path(*rule, *g, blocked@, to as int, cs, p, i);
                        }
                    }
                    self.lemma_route_found_bounds(
                        &before,
                        *rule,
                        *g,
                        blocked@,
                        from as int,
                        to as int,
                        path@,
                    );
                }
                return Some(path);
            }
            proof {
                lemma_potential_nonneg(self.cost_stamp@, self.cost_so_far@, self.stamp, 3 * n, n);
            }
            self.expand(g, blocked, rule, Ghost(from as int), to, to_x, to_y, cur);
            proof {
                lemma_potential_nonneg(self.cost_stamp@, self.cost_so_far@, self.stamp, 3 * n, n);
                assert(self.potential_of(*g) < before.potential_of(*g) || self.heap.len_spec()
                    < before.heap.len_spec());
            }
        }
    }
}

} // verus!
