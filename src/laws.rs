//! Properties of the routes that the router returns.

use crate::grid::{arm_count, completes_crossing, Grid};
use crate::grid::Dir;
use crate::rules::{FreeRule, RelaxedRule, StepRule, StrictRule};
use crate::search::{is_route, link_cost, route_cost};
use vstd::prelude::*;

verus! {

/// Every move of a route joins orthogonally adjacent cells: consecutive cells differ
/// by one or by the row width.
pub proof fn lemma_route_moves_are_adjacent<R: StepRule>(
    rule: R,
    g: Grid,
    blocked: Seq<u8>,
    from: int,
    to: int,
    p: Seq<u32>,
)
    requires
        g.wf(),
        is_route(rule, g, blocked, from, to, p),
    ensures
        p[0] == from,
        p.last() == to,
        forall|i: int|
            0 <= i < p.len() - 1 ==> {
                let step = #[trigger] p[i + 1] - p[i];
                step == 1 || step == -1 || step == g.stride || step == -g.stride
            },
{
    assert forall|i: int| 0 <= i < p.len() - 1 implies {
        let step = #[trigger] p[i + 1] - p[i];
        step == 1 || step == -1 || step == g.stride || step == -g.stride
    } by {
        assert(link_cost(rule, g, blocked, to, p[i] as int, p[i + 1] as int) is Some);
    }
}

proof fn lemma_prefix_distance<R: StepRule>(
    rule: R,
    g: Grid,
    blocked: Seq<u8>,
    from: int,
    to: int,
    p: Seq<u32>,
    i: int,
)
    requires
        g.wf(),
        0 <= from < g.cells(),
        is_route(rule, g, blocked, from, to, p),
        0 <= i < p.len(),
    ensures
        0 <= p[i] < g.cells(),
        g.distance(from, p[i] as int) <= i,
    decreases i,
{
    if i > 0 {
        lemma_prefix_distance(rule, g, blocked, from, to, p, i - 1);
        let j = i - 1;
        assert(link_cost(rule, g, blocked, to, p[j] as int, p[j + 1] as int) is Some);
        let d = g.dir_between(p[j] as int, p[i] as int)->0;
        g.lemma_neighbor(p[j] as int, d);
    }
}

/// A route has at least one cell more than the Manhattan distance between its ends.
pub proof fn lemma_route_not_shorter_than_distance<R: StepRule>(
    rule: R,
    g: Grid,
    blocked: Seq<u8>,
    from: int,
    to: int,
    p: Seq<u32>,
)
    requires
        g.wf(),
        0 <= from < g.cells(),
        is_route(rule, g, blocked, from, to, p),
    ensures
        p.len() >= 1 + g.distance(from, to),
{
    lemma_prefix_distance(rule, g, blocked, from, to, p, p.len() - 1);
}

/// No move of a strict route completes a four-way crossing at either of its cells.
pub proof fn lemma_strict_route_never_crosses(
    rule: StrictRule,
    g: Grid,
    blocked: Seq<u8>,
    from: int,
    to: int,
    p: Seq<u32>,
)
    requires
        g.wf(),
        is_route(rule, g, blocked, from, to, p),
        rule.used_points is Some,
    ensures
        forall|i: int|
            0 <= i < p.len() - 1 ==> {
                let points = rule.used_points->0@;
                let d = g.dir_between(p[i] as int, p[i + 1] as int)->0;
                &&& !completes_crossing(points[#[trigger] p[i] as int], d.out_bit())
                &&& !completes_crossing(points[p[i + 1] as int], d.in_bit())
            },
{
    assert forall|i: int| 0 <= i < p.len() - 1 implies {
        let points = rule.used_points->0@;
        let d = g.dir_between(p[i] as int, p[i + 1] as int)->0;
        &&& !completes_crossing(points[#[trigger] p[i] as int], d.out_bit())
        &&& !completes_crossing(points[p[i + 1] as int], d.in_bit())
    } by {
        assert(link_cost(rule, g, blocked, to, p[i] as int, p[i + 1] as int) is Some);
    }
}

/// The number of crossings the moves of `p` complete, counted at both cells of each move.
pub open spec fn crossing_count(rule: RelaxedRule, g: Grid, p: Seq<u32>) -> int
    decreases p.len(),
{
    if p.len() <= 1 {
        0
    } else {
        let c = p[p.len() - 2] as int;
        let n = p.last() as int;
        crossing_count(rule, g, p.drop_last()) + rule.penalty(c, n, g.dir_between(c, n)->0)
    }
}

proof fn lemma_relaxed_cost_prefix(rule: RelaxedRule, g: Grid, blocked: Seq<u8>, to: int, p: Seq<u32>)
    requires
        p.len() >= 1,
        forall|i: int|
            0 <= i < p.len() - 1 ==> (#[trigger] link_cost(rule, g, blocked, to, p[i] as int, p[i + 1] as int)) is Some,
    ensures
        route_cost(rule, g, blocked, to, p) == (p.len() - 1) + crossing_count(rule, g, p),
    decreases p.len(),
{
    if p.len() > 1 {
        let q = p.drop_last();
        assert forall|i: int| 0 <= i < q.len() - 1 implies (#[trigger] link_cost(
            rule,
            g,
            blocked,
            to,
            q[i] as int,
            q[i + 1] as int,
        )) is Some by {
            assert(q[i] == p[i] && q[i + 1] == p[i + 1]);
        }
        lemma_relaxed_cost_prefix(rule, g, blocked, to, q);
        let j = p.len() - 2;
        assert(link_cost(rule, g, blocked, to, p[j] as int, p[j + 1] as int) is Some);
    }
}

/// The cost of a relaxed route is its number of moves plus the crossings they complete.
pub proof fn lemma_relaxed_cost_counts_crossings(
    rule: RelaxedRule,
    g: Grid,
    blocked: Seq<u8>,
    from: int,
    to: int,
    p: Seq<u32>,
)
    requires
        is_route(rule, g, blocked, from, to, p),
    ensures
        route_cost(rule, g, blocked, to, p) == (p.len() - 1) + crossing_count(rule, g, p),
{
    lemma_relaxed_cost_prefix(rule, g, blocked, to, p);
}

/// Where a relaxed route walks into a cell that earlier strokes touch (other than its
/// destination), the cell ends up with at most three arms; with at most two where the
/// move is the route's first, and also where it neither is the first nor leads to a
/// cell next to the route's end.
pub proof fn lemma_relaxed_route_caps_arms(
    rule: RelaxedRule,
    g: Grid,
    blocked: Seq<u8>,
    from: int,
    to: int,
    p: Seq<u32>,
)
    requires
        g.wf(),
        is_route(rule, g, blocked, from, to, p),
        rule.used_points is Some,
    ensures
        forall|i: int|
            0 <= i < p.len() - 1 ==> {
                let points = rule.used_points->0@;
                let c = #[trigger] p[i] as int;
                let n = p[i + 1] as int;
                let arms = arm_count(points[n] | g.dir_between(c, n)->0.in_bit());
                (n != to && points[n] != 0) ==> {
                    &&& arms <= 3
                    &&& (c != rule.ends.route_from_idx && !rule.pre_target(g, n)) ==> arms <= 2
                    &&& c == rule.ends.route_from_idx ==> arms <= 2
                }
            },
{
    assert forall|i: int| 0 <= i < p.len() - 1 implies {
        let points = rule.used_points->0@;
        let c = #[trigger] p[i] as int;
        let n = p[i + 1] as int;
        let arms = arm_count(points[n] | g.dir_between(c, n)->0.in_bit());
        (n != to && points[n] != 0) ==> {
            &&& arms <= 3
            &&& (c != rule.ends.route_from_idx && !rule.pre_target(g, n)) ==> arms <= 2
            &&& c == rule.ends.route_from_idx ==> arms <= 2
        }
    } by {
        assert(link_cost(rule, g, blocked, to, p[i] as int, p[i + 1] as int) is Some);
    }
}

/// The cell at column `x` and row `y`.
pub open spec fn cell_at(g: Grid, x: int, y: int) -> int {
    y * g.stride + x
}

proof fn lemma_cell_at(g: Grid, x: int, y: int)
    requires
        g.wf(),
        0 <= x < g.stride,
        0 <= y < g.height,
    ensures
        0 <= cell_at(g, x, y) < g.cells(),
        g.x_of(cell_at(g, x, y)) == x,
        g.y_of(cell_at(g, x, y)) == y,
{
    let s = g.stride as int;
    let h = g.height as int;
    vstd::arithmetic::div_mod::lemma_fundamental_div_mod_converse(y * s + x, s, y, x);
    assert(0 <= y * s + x < s * h) by (nonlinear_arith)
        requires 0 <= x < s, 0 <= y < h;
}

/// The L-shaped route from `from` to `to`: along the start's row to the end's column,
/// then along that column.
pub open spec fn l_route(g: Grid, from: int, to: int) -> Seq<u32> {
    let (x0, y0, x1, y1) = (g.x_of(from), g.y_of(from), g.x_of(to), g.y_of(to));
    let h = if x1 >= x0 {
        x1 - x0
    } else {
        x0 - x1
    };
    let v = if y1 >= y0 {
        y1 - y0
    } else {
        y0 - y1
    };
    Seq::new(
        (h + v + 1) as nat,
        |i: int|
            (if i <= h {
                cell_at(g, if x1 >= x0 { x0 + i } else { x0 - i }, y0)
            } else {
                cell_at(g, x1, if y1 >= y0 { y0 + (i - h) } else { y0 - (i - h) })
            }) as u32,
    )
}

/// Where no cell of the L-shaped route between two cells inside the traversal bounds
/// is blocked (the destination may be), the free policy has a route with one cell
/// more than their Manhattan distance; `get_path` then returns a route of that length.
pub proof fn lemma_open_l_route_is_shortest(g: Grid, blocked: Seq<u8>, from: int, to: int)
    requires
        g.wf(),
        0 <= from < g.cells(),
        0 <= to < g.cells(),
        blocked.len() >= g.cells(),
        g.x_of(from) <= g.max_x,
        g.x_of(to) <= g.max_x,
        g.y_of(from) <= g.max_y,
        g.y_of(to) <= g.max_y,
        forall|i: int| 0 < i < l_route(g, from, to).len() - 1 ==> blocked[#[trigger] l_route(g, from, to)[i] as int] == 0,
    ensures
        is_route(FreeRule {  }, g, blocked, from, to, l_route(g, from, to)),
        l_route(g, from, to).len() == 1 + g.distance(from, to),
{
    let p = l_route(g, from, to);
    let (x0, y0, x1, y1) = (g.x_of(from), g.y_of(from), g.x_of(to), g.y_of(to));
    let h = if x1 >= x0 {
        x1 - x0
    } else {
        x0 - x1
    };
    g.lemma_coords(from);
    g.lemma_coords(to);
    lemma_cell_at(g, x0, y0);
    lemma_cell_at(g, x1, y1);
    assert(from == cell_at(g, x0, y0));
    assert(to == cell_at(g, x1, y1));
    assert(p[0] == from);
    assert(p.last() == to);
    assert forall|i: int| 0 <= i < p.len() - 1 implies (#[trigger] link_cost(
        FreeRule {  },
        g,
        blocked,
        to,
        p[i] as int,
        p[i + 1] as int,
    )) is Some by {
        if i < h {
            let xa = if x1 >= x0 { x0 + i } else { x0 - i };
            let xb = if x1 >= x0 { x0 + i + 1 } else { x0 - i - 1 };
            lemma_cell_at(g, xa, y0);
            lemma_cell_at(g, xb, y0);
            let d = if x1 >= x0 { Dir::Right } else { Dir::Left };
            assert(g.neighbor(cell_at(g, xa, y0), d) == Some(cell_at(g, xb, y0)));
            g.lemma_neighbor(cell_at(g, xa, y0), d);
        } else {
            let ya = if y1 >= y0 { y0 + (i - h) } else { y0 - (i - h) };
            let yb = if y1 >= y0 { y0 + (i + 1 - h) } else { y0 - (i + 1 - h) };
            lemma_cell_at(g, x1, ya);
            lemma_cell_at(g, x1, yb);
            if i == h {
                assert(p[i] == cell_at(g, x1, ya) as u32);
            }
            let d = if y1 >= y0 { Dir::Down } else { Dir::Up };
            let st = g.stride as int;
            assert((ya + 1) * st + x1 == ya * st + x1 + st) by (nonlinear_arith);
            assert((ya - 1) * st + x1 == ya * st + x1 - st) by (nonlinear_arith);
            assert(g.neighbor(cell_at(g, x1, ya), d) == Some(cell_at(g, x1, yb)));
            g.lemma_neighbor(cell_at(g, x1, ya), d);
        }
        if i + 1 < p.len() - 1 {
            assert(blocked[p[i + 1] as int] == 0);
        }
    }
}

/// Every strict route is a free route: the strict policy only removes moves. With the
/// shortest-route guarantee of `get_path`, the free route is never longer than the
/// strict one.
pub proof fn lemma_strict_route_is_free_route(
    rule: StrictRule,
    g: Grid,
    blocked: Seq<u8>,
    from: int,
    to: int,
    p: Seq<u32>,
)
    requires
        is_route(rule, g, blocked, from, to, p),
    ensures
        is_route(FreeRule {  }, g, blocked, from, to, p),
{
    assert forall|i: int| 0 <= i < p.len() - 1 implies (#[trigger] link_cost(
        FreeRule {  },
        g,
        blocked,
        to,
        p[i] as int,
        p[i + 1] as int,
    )) is Some by {
        assert(link_cost(rule, g, blocked, to, p[i] as int, p[i + 1] as int) is Some);
    }
}

/// Every relaxed route is a free route.
pub proof fn lemma_relaxed_route_is_free_route(
    rule: RelaxedRule,
    g: Grid,
    blocked: Seq<u8>,
    from: int,
    to: int,
    p: Seq<u32>,
)
    requires
        is_route(rule, g, blocked, from, to, p),
    ensures
        is_route(FreeRule {  }, g, blocked, from, to, p),
{
    assert forall|i: int| 0 <= i < p.len() - 1 implies (#[trigger] link_cost(
        FreeRule {  },
        g,
        blocked,
        to,
        p[i] as int,
        p[i + 1] as int,
    )) is Some by {
        assert(link_cost(rule, g, blocked, to, p[i] as int, p[i + 1] as int) is Some);
    }
}

/// With no drawn segment and no touched cell, the strict policy allows exactly the
/// free routes; so `get_path_strict` and `get_path` then find routes of equal length.
pub proof fn lemma_strict_on_empty_tables_is_free(
    rule: StrictRule,
    g: Grid,
    blocked: Seq<u8>,
    from: int,
    to: int,
)
    requires
        g.wf(),
        rule.usage.covers(2 * g.cells()),
        forall|k: int| 0 <= k < 2 * g.cells() ==> #[trigger] rule.usage.segment_used@[k] == 0,
        match rule.used_points {
            Some(pts) => pts@.len() >= g.cells() && forall|v: int| 0 <= v < g.cells() ==> #[trigger] pts@[v] == 0,
            None => true,
        },
    ensures
        forall|q: Seq<u32>|
            #[trigger] is_route(rule, g, blocked, from, to, q) == is_route(FreeRule {  }, g, blocked, from, to, q),
{
    assert forall|c: int, n: int|
        #[trigger] link_cost(FreeRule {  }, g, blocked, to, c, n) is Some implies link_cost(
        rule,
        g,
        blocked,
        to,
        c,
        n,
    ) is Some by {
        let d = g.dir_between(c, n)->0;
        g.lemma_neighbor(c, d);
    }
    assert forall|q: Seq<u32>|
        #[trigger] is_route(rule, g, blocked, from, to, q) == is_route(FreeRule {  }, g, blocked, from, to, q) by {
        if is_route(FreeRule {  }, g, blocked, from, to, q) {
            assert forall|i: int| 0 <= i < q.len() - 1 implies (#[trigger] link_cost(
                rule,
                g,
                blocked,
                to,
                q[i] as int,
                q[i + 1] as int,
            )) is Some by {
                assert(link_cost(FreeRule {  }, g, blocked, to, q[i] as int, q[i + 1] as int) is Some);
            }
        }
        if is_route(rule, g, blocked, from, to, q) {
            lemma_strict_route_is_free_route(rule, g, blocked, from, to, q);
        }
    }
}

} // verus!
