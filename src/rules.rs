//! Per-step legality and cost for the three routing policies.
//!
//! A search asks its rule about one move at a time: whether the move from cell `c`
//! to its neighbour `n` is legal, and what it costs. The free rule allows every move
//! at cost one; the strict rule forbids four-way crossings and most reuse of drawn
//! segments; the relaxed rule charges for crossings and forbids walking into
//! touched cells except near the route's ends or along a trunk of the same pair.

use crate::grid::{arm_count, arm_count_exec, completes_crossing, completes_crossing_exec, Dir, Grid};
use vstd::prelude::*;

verus! {

pub open spec fn opt_cost(r: Option<u32>) -> Option<int> {
    match r {
        Some(w) => Some(w as int),
        None => None,
    }
}

/// A policy for single moves of the search.
pub trait StepRule {
    /// The rule's tables are long enough for a grid of `cells` cells.
    spec fn covers(&self, cells: int) -> bool;

    /// The cost of moving from `c` to its neighbour `n` by `d`, on a search towards
    /// `to`; `None` where the move is forbidden.
    spec fn step_cost(&self, g: Grid, to: int, c: int, n: int, d: Dir) -> Option<int>;

    proof fn lemma_step_cost_range(&self, g: Grid, to: int, c: int, n: int, d: Dir)
        ensures
            self.step_cost(g, to, c, n, d) is Some ==> 1 <= self.step_cost(g, to, c, n, d)->0 <= 3,
    ;

    fn step(&self, g: &Grid, to: usize, c: usize, n: usize, d: Dir) -> (r: Option<u32>)
        requires
            g.wf(),
            self.covers(g.cells()),
            c < g.cells(),
            n < g.cells(),
            to < g.cells(),
            g.neighbor(c as int, d) == Some(n as int),
        ensures
            opt_cost(r) == self.step_cost(*g, to as int, c as int, n as int, d),
    ;
}

/// Every move in bounds is legal and costs one.
pub struct FreeRule {}

impl StepRule for FreeRule {
    open spec fn covers(&self, cells: int) -> bool {
        true
    }

    open spec fn step_cost(&self, g: Grid, to: int, c: int, n: int, d: Dir) -> Option<int> {
        Some(1)
    }

    proof fn lemma_step_cost_range(&self, g: Grid, to: int, c: int, n: int, d: Dir) {
    }

    fn step(&self, g: &Grid, to: usize, c: usize, n: usize, d: Dir) -> (r: Option<u32>) {
        Some(1)
    }
}

/// The endpoints of the connector being routed.
#[derive(Clone, Copy, Debug)]
pub struct RouteEnds {
    /// The cell where the connector starts.
    pub route_from_idx: u32,
    /// The cell where the connector ends.
    pub route_to_idx: u32,
    /// The identifier of the connector's source node.
    pub edge_from_id: u32,
    /// The identifier of the connector's target node.
    pub edge_to_id: u32,
}

impl RouteEnds {
    /// The identifier of the (source, target) pair, where both fit in 16 bits.
    pub open spec fn pair_id(self) -> Option<u32> {
        if self.edge_from_id <= 0xffff && self.edge_to_id <= 0xffff {
            Some((self.edge_from_id * 0x10000 + self.edge_to_id) as u32)
        } else {
            None
        }
    }

    fn pair_id_exec(&self) -> (r: Option<u32>)
        ensures
            r == self.pair_id(),
    {
        if self.edge_from_id <= 0xffff && self.edge_to_id <= 0xffff {
            Some(self.edge_from_id * 0x10000 + self.edge_to_id)
        } else {
            None
        }
    }
}

/// What earlier connectors left on each unit segment, indexed by `Grid::segment_of`.
#[derive(Clone, Copy)]
pub struct SegmentUsage<'a> {
    /// Non-zero where a connector has drawn the segment.
    pub segment_used: &'a [u8],
    /// Non-zero where some connector passed through the segment mid-route.
    pub used_as_middle: &'a [u8],
    /// The source node that claimed the segment as a first segment, or zero.
    pub start_source: &'a [u32],
    /// Non-zero where several distinct sources claimed it so.
    pub start_source_multi: &'a [u8],
    /// The target node that claimed the segment as a last segment, or zero.
    pub end_target: &'a [u32],
    /// Non-zero where several distinct targets claimed it so.
    pub end_target_multi: &'a [u8],
}

impl<'a> SegmentUsage<'a> {
    pub open spec fn covers(&self, segs: int) -> bool {
        &&& self.segment_used@.len() >= segs
        &&& self.used_as_middle@.len() >= segs
        &&& self.start_source@.len() >= segs
        &&& self.start_source_multi@.len() >= segs
        &&& self.end_target@.len() >= segs
        &&& self.end_target_multi@.len() >= segs
    }

    pub open spec fn used(&self, k: int) -> bool {
        self.segment_used@[k] != 0
    }

    pub open spec fn middle(&self, k: int) -> bool {
        self.used_as_middle@[k] != 0
    }

    /// Reuse of drawn segment `k` as a first and/or last segment is allowed only
    /// when the claims on it come from this connector's own endpoints alone.
    pub open spec fn shared_end_ok(&self, k: int, is_start: bool, is_end: bool, e: RouteEnds) -> bool {
        let ss = self.start_source@[k];
        let et = self.end_target@[k];
        let ss_multi = self.start_source_multi@[k] != 0;
        let et_multi = self.end_target_multi@[k] != 0;
        if is_start && is_end {
            &&& !ss_multi && (ss == 0 || ss == e.edge_from_id)
            &&& !et_multi && (et == 0 || et == e.edge_to_id)
        } else if is_start {
            !et_multi && et == 0 && !ss_multi && ss == e.edge_from_id
        } else if is_end {
            !ss_multi && ss == 0 && !et_multi && et == e.edge_to_id
        } else {
            false
        }
    }

    fn shared_end_ok_exec(&self, k: usize, is_start: bool, is_end: bool, e: &RouteEnds) -> (r: bool)
        requires
            self.covers(k + 1),
        ensures
            r == self.shared_end_ok(k as int, is_start, is_end, *e),
    {
        let ss = self.start_source[k];
        let et = self.end_target[k];
        let ss_multi = self.start_source_multi[k] != 0;
        let et_multi = self.end_target_multi[k] != 0;
        if is_start && is_end {
            let start_ok = !ss_multi && (ss == 0 || ss == e.edge_from_id);
            let end_ok = !et_multi && (et == 0 || et == e.edge_to_id);
            return start_ok && end_ok;
        }
        if is_start {
            return !et_multi && et == 0 && !ss_multi && ss == e.edge_from_id;
        }
        if is_end {
            return !ss_multi && ss == 0 && !et_multi && et == e.edge_to_id;
        }
        false
    }
}

/// Neither cell of a move becomes a four-way crossing.
pub open spec fn no_crossing(points: Option<&[u8]>, step_from: int, step_to: int, from_bit: u8, to_bit: u8) -> bool {
    match points {
        Some(p) => !completes_crossing(p@[step_from], from_bit) && !completes_crossing(p@[step_to], to_bit),
        None => true,
    }
}

pub open spec fn points_cover(points: Option<&[u8]>, cells: int) -> bool {
    match points {
        Some(p) => p@.len() >= cells,
        None => true,
    }
}

/// The strict policy: crossings are forbidden, and a drawn segment may be reused
/// only as a first or last segment shared with the same endpoint.
#[derive(Clone, Copy)]
pub struct StrictRule<'a> {
    pub usage: SegmentUsage<'a>,
    pub used_points: Option<&'a [u8]>,
    pub ends: RouteEnds,
}

impl<'a> StrictRule<'a> {
    pub open spec fn allows(&self, step_from: int, step_to: int, seg_key: int, from_bit: u8, to_bit: u8) -> bool {
        &&& no_crossing(self.used_points, step_from, step_to, from_bit, to_bit)
        &&& (!self.usage.used(seg_key) || (!self.usage.middle(seg_key) && self.usage.shared_end_ok(
            seg_key,
            step_from == self.ends.route_from_idx,
            step_to == self.ends.route_to_idx,
            self.ends,
        )))
    }
}

/// Decides whether one move is legal under the strict policy.
fn is_step_allowed_strict(
    rule: &StrictRule,
    step_from: usize,
    step_to: usize,
    seg_key: usize,
    from_bit: u8,
    to_bit: u8,
) -> (r: bool)
    requires
        rule.usage.covers(seg_key + 1),
        points_cover(rule.used_points, step_from + 1),
        points_cover(rule.used_points, step_to + 1),
    ensures
        r == rule.allows(step_from as int, step_to as int, seg_key as int, from_bit, to_bit),
{
    if let Some(points) = rule.used_points {
        if completes_crossing_exec(points[step_from], from_bit) {
            return false;
        }
        if completes_crossing_exec(points[step_to], to_bit) {
            return false;
        }
    }
    if rule.usage.segment_used[seg_key] == 0 {
        return true;
    }
    if rule.usage.used_as_middle[seg_key] != 0 {
        return false;
    }
    let is_start_step = step_from as u64 == rule.ends.route_from_idx as u64;
    let is_end_step = step_to as u64 == rule.ends.route_to_idx as u64;
    rule.usage.shared_end_ok_exec(seg_key, is_start_step, is_end_step, &rule.ends)
}

impl<'a> StepRule for StrictRule<'a> {
    open spec fn covers(&self, cells: int) -> bool {
        self.usage.covers(2 * cells) && points_cover(self.used_points, cells)
    }

    open spec fn step_cost(&self, g: Grid, to: int, c: int, n: int, d: Dir) -> Option<int> {
        if self.allows(c, n, Grid::segment_of(c, n, d), d.out_bit(), d.in_bit()) {
            Some(1)
        } else {
            None
        }
    }

    proof fn lemma_step_cost_range(&self, g: Grid, to: int, c: int, n: int, d: Dir) {
    }

    fn step(&self, g: &Grid, to: usize, c: usize, n: usize, d: Dir) -> (r: Option<u32>) {
        proof {
            g.lemma_neighbor(c as int, d);
        }
        let seg_key = match d {
            Dir::Right => 2 * c,
            Dir::Left => 2 * n,
            Dir::Down => 2 * c + 1,
            Dir::Up => 2 * n + 1,
        };
        if is_step_allowed_strict(self, c, n, seg_key, d.out_bit_exec(), d.in_bit_exec()) {
            Some(1)
        } else {
            None
        }
    }
}

/// The extra cost of a move at one of its cells: one where the move completes a
/// four-way crossing there.
pub open spec fn crossing_cost(mask: u8, bit: u8) -> int {
    if completes_crossing(mask, bit) {
        1
    } else {
        0
    }
}

fn crossing_penalty(from_mask: u8, add_bit: u8) -> (r: u32)
    ensures
        r as int == crossing_cost(from_mask, add_bit),
{
    if completes_crossing_exec(from_mask, add_bit) {
        1
    } else {
        0
    }
}

/// The relaxed policy: crossings cost extra, walking into touched cells is limited,
/// and drawn segments may be shared by connectors of the same node pair.
#[derive(Clone, Copy)]
pub struct RelaxedRule<'a> {
    pub usage: SegmentUsage<'a>,
    /// The (source, target) pair that last drew each segment.
    pub segment_pair: &'a [u32],
    /// Non-zero where several distinct pairs drew the segment.
    pub segment_pair_multi: &'a [u8],
    pub used_points: Option<&'a [u8]>,
    pub ends: RouteEnds,
    /// Lets a last segment be reused; meant for a retry after a failed search.
    pub allow_end_segment_reuse: bool,
}

impl<'a> RelaxedRule<'a> {
    /// Segment `k` was drawn by a connector of this very node pair, and by no other pair.
    pub open spec fn same_pair(&self, k: int) -> bool {
        match self.ends.pair_id() {
            Some(p) => self.segment_pair_multi@[k] == 0 && self.segment_pair@[k] == p,
            None => false,
        }
    }

    pub open spec fn segment_ok(&self, step_from: int, step_to: int, seg_key: int) -> bool {
        let is_start = step_from == self.ends.route_from_idx;
        let is_end = step_to == self.ends.route_to_idx;
        ||| !self.usage.used(seg_key)
        ||| self.same_pair(seg_key)
        ||| {
            &&& !self.usage.middle(seg_key)
            &&& (is_end ==> self.allow_end_segment_reuse)
            &&& self.usage.shared_end_ok(seg_key, is_start, is_end, self.ends)
        }
    }

    /// `n` is next to the route's last cell.
    pub open spec fn pre_target(&self, g: Grid, n: int) -> bool {
        let t = self.ends.route_to_idx as int;
        t == n + 1 || t == n - 1 || t == n + g.stride || t == n - g.stride
    }

    /// Walking into a cell that earlier strokes touch: allowed along a same-pair trunk
    /// up to two arms, on the first move up to two arms, next to the route's end up to
    /// three arms, and nowhere else.
    pub open spec fn point_ok(&self, g: Grid, to: int, c: int, n: int, d: Dir) -> bool {
        match self.used_points {
            None => true,
            Some(p) => {
                let mask = p@[n];
                let arms = arm_count(mask | d.in_bit());
                if n == to || mask == 0 {
                    true
                } else if self.same_pair(Grid::segment_of(c, n, d)) && arms <= 2 {
                    true
                } else if c == self.ends.route_from_idx {
                    arms < 3
                } else if self.pre_target(g, n) {
                    arms < 4
                } else {
                    false
                }
            },
        }
    }

    pub open spec fn penalty(&self, c: int, n: int, d: Dir) -> int {
        match self.used_points {
            None => 0,
            Some(p) => crossing_cost(p@[c], d.out_bit()) + crossing_cost(p@[n], d.in_bit()),
        }
    }

    fn same_pair_exec(&self, k: usize) -> (r: bool)
        requires
            self.segment_pair@.len() > k,
            self.segment_pair_multi@.len() > k,
        ensures
            r == self.same_pair(k as int),
    {
        match self.ends.pair_id_exec() {
            Some(pair) => self.segment_pair_multi[k] == 0 && self.segment_pair[k] == pair,
            None => false,
        }
    }
}

/// Decides whether a drawn segment may be crossed lengthwise under the relaxed policy.
fn is_segment_allowed_relaxed(rule: &RelaxedRule, step_from: usize, step_to: usize, seg_key: usize) -> (r: bool)
    requires
        rule.usage.covers(seg_key + 1),
        rule.segment_pair@.len() > seg_key,
        rule.segment_pair_multi@.len() > seg_key,
    ensures
        r == rule.segment_ok(step_from as int, step_to as int, seg_key as int),
{
    if rule.usage.segment_used[seg_key] == 0 {
        return true;
    }
    if rule.same_pair_exec(seg_key) {
        return true;
    }
    if rule.usage.used_as_middle[seg_key] != 0 {
        return false;
    }
    let is_start_step = step_from as u64 == rule.ends.route_from_idx as u64;
    let is_end_step = step_to as u64 == rule.ends.route_to_idx as u64;
    if is_end_step && !rule.allow_end_segment_reuse {
        return false;
    }
    rule.usage.shared_end_ok_exec(seg_key, is_start_step, is_end_step, &rule.ends)
}

impl<'a> StepRule for RelaxedRule<'a> {
    open spec fn covers(&self, cells: int) -> bool {
        &&& self.usage.covers(2 * cells)
        &&& self.segment_pair@.len() >= 2 * cells
        &&& self.segment_pair_multi@.len() >= 2 * cells
        &&& points_cover(self.used_points, cells)
    }

    open spec fn step_cost(&self, g: Grid, to: int, c: int, n: int, d: Dir) -> Option<int> {
        if self.point_ok(g, to, c, n, d) && self.segment_ok(c, n, Grid::segment_of(c, n, d)) {
            Some(1 + self.penalty(c, n, d))
        } else {
            None
        }
    }

    proof fn lemma_step_cost_range(&self, g: Grid, to: int, c: int, n: int, d: Dir) {
    }

    fn step(&self, g: &Grid, to: usize, c: usize, n: usize, d: Dir) -> (r: Option<u32>) {
        proof {
            g.lemma_neighbor(c as int, d);
        }
        let seg_key = match d {
            Dir::Right => 2 * c,
            Dir::Left => 2 * n,
            Dir::Down => 2 * c + 1,
            Dir::Up => 2 * n + 1,
        };
        proof {
            let (s, h) = (g.stride as int, g.height as int);
            assert(s <= s * h) by (nonlinear_arith)
                requires h >= 1, s >= 0;
        }
        let from_bit = d.out_bit_exec();
        let to_bit = d.in_bit_exec();
        let mut penalty: u32 = 0;
        let mut ok = true;
        if let Some(points) = self.used_points {
            penalty = crossing_penalty(points[c], from_bit) + crossing_penalty(points[n], to_bit);
            let mask = points[n];
            if n != to && mask != 0 {
                let arms = arm_count_exec(mask | to_bit);
                let t = self.ends.route_to_idx as u64;
                let n64 = n as u64;
                let is_pre_target = t == n64 + 1 || t + 1 == n64 || t == n64 + g.stride as u64
                    || t + g.stride as u64 == n64;
                if self.same_pair_exec(seg_key) && arms <= 2 {
                } else if c as u64 == self.ends.route_from_idx as u64 {
                    ok = arms < 3;
                } else if is_pre_target {
                    ok = arms < 4;
                } else {
                    ok = false;
                }
            }
        }
        if ok && is_segment_allowed_relaxed(self, c, n, seg_key) {
            Some(1 + penalty)
        } else {
            None
        }
    }
}

} // verus!
