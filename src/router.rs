//! The three routing entry points: free, strict and relaxed.

use crate::error::RouteError;
use crate::grid::{Dir, Grid, MAX_GRID_CELLS};
use crate::rules::{points_cover, FreeRule, RelaxedRule, RouteEnds, SegmentUsage, StepRule, StrictRule};
use crate::search::{is_route, link_cost, route_cost, unit_costs, NativeAStar};
use vstd::prelude::*;

verus! {

pub open spec fn grid_of(stride: usize, height: usize, max_x: u32, max_y: u32) -> Grid {
    Grid { stride, height, max_x: max_x as usize, max_y: max_y as usize }
}

/// What a completed search owes: a legal route, or `None` exactly where no legal
/// route exists.
pub open spec fn search_outcome<R: StepRule>(
    rule: R,
    g: Grid,
    blocked: Seq<u8>,
    from: int,
    to: int,
    r: Option<Vec<u32>>,
) -> bool {
    match r {
        Some(p) => is_route(rule, g, blocked, from, to, p@),
        None => forall|p: Seq<u32>| !#[trigger] is_route(rule, g, blocked, from, to, p),
    }
}

/// A route found has no repeated cell and is no longer than any legal route.
pub open spec fn shortest<R: StepRule>(rule: R, g: Grid, blocked: Seq<u8>, from: int, to: int, r: Option<Vec<u32>>) -> bool {
    match r {
        Some(p) => p@.no_duplicates() && forall|q: Seq<u32>|
            #[trigger] is_route(rule, g, blocked, from, to, q) ==> p@.len() <= q.len(),
        None => true,
    }
}

pub open spec fn no_path<T>(r: Result<Option<T>, RouteError>) -> bool {
    r == Ok::<Option<T>, RouteError>(None)
}

pub open spec fn blocked_error<T>(r: Result<Option<T>, RouteError>, blocked_len: int, n: int) -> bool {
    r == Err::<Option<T>, RouteError>(
        (RouteError::BlockedTooShort { len: blocked_len as usize, cell_count: n as usize }),
    )
}

pub open spec fn points_error<T>(r: Result<Option<T>, RouteError>, points_len: int, n: int) -> bool {
    r == Err::<Option<T>, RouteError>(
        (RouteError::UsedPointsTooShort { len: points_len as usize, cell_count: n as usize }),
    )
}

pub open spec fn index_error<T>(r: Result<Option<T>, RouteError>, from_idx: u32, to_idx: u32, n: int) -> bool {
    r == Err::<Option<T>, RouteError>(
        (RouteError::IndexOutOfRange { from_idx, to_idx, cell_count: n as usize }),
    )
}

pub open spec fn bounds_error<T>(
    r: Result<Option<T>, RouteError>,
    max_x: u32,
    max_y: u32,
    stride: usize,
    height: usize,
) -> bool {
    r == Err::<Option<T>, RouteError>((RouteError::BoundsOutOfRange { max_x, max_y, stride, height }))
}

pub open spec fn usage_error<T>(r: Result<Option<T>, RouteError>, n: int, lengths: Seq<usize>) -> bool {
    match r {
        Err(RouteError::SegmentUsageTooShort { seg_count, lengths: l }) => seg_count == 2 * n && l@
            == lengths,
        _ => false,
    }
}

pub open spec fn points_len_ok(points: Option<&[u8]>, n: int) -> bool {
    points_cover(points, n)
}

pub open spec fn points_len(points: Option<&[u8]>) -> int {
    match points {
        Some(p) => p@.len() as int,
        None => 0,
    }
}

/// The move from `c` to `n`, where there is one.
fn dir_of(g: &Grid, c: usize, n: usize) -> (r: Option<Dir>)
    requires
        g.wf(),
        c < g.cells(),
        n < g.cells(),
    ensures
        r == g.dir_between(c as int, n as int),
{
    proof {
        g.lemma_coords(c as int);
    }
    let x = c % g.stride;
    let y = c / g.stride;
    if x < g.max_x && n == c + 1 {
        Some(Dir::Right)
    } else if x > 0 && n + 1 == c {
        Some(Dir::Left)
    } else if y < g.max_y && n == c + g.stride {
        Some(Dir::Down)
    } else if y > 0 && n + g.stride == c {
        Some(Dir::Up)
    } else {
        None
    }
}

/// The summed move costs of a legal route.
fn path_cost<R: StepRule>(rule: &R, g: &Grid, blocked: &[u8], from: usize, to: usize, path: &Vec<u32>) -> (r: u32)
    requires
        g.wf(),
        rule.covers(g.cells()),
        blocked@.len() >= g.cells(),
        from < g.cells(),
        to < g.cells(),
        is_route(*rule, *g, blocked@, from as int, to as int, path@),
        path@.len() <= 3 * g.cells(),
    ensures
        r == route_cost(*rule, *g, blocked@, to as int, path@),
{
    let mut total: u32 = 0;
    let mut i: usize = 1;
    assert(path@.subrange(0, 1).len() == 1);
    while i < path.len()
        invariant
            1 <= i <= path@.len(),
            g.wf(),
            rule.covers(g.cells()),
            to < g.cells(),
            is_route(*rule, *g, blocked@, from as int, to as int, path@),
            path@.len() <= 3 * g.cells(),
            total == route_cost(*rule, *g, blocked@, to as int, path@.subrange(0, i as int)),
            total <= 3 * (i - 1),
            path@[i - 1] < g.cells(),
        decreases path@.len() - i,
    {
        let c = path[i - 1] as usize;
        let nx = path[i] as usize;
        let ghost j = i - 1;
        assert(link_cost(*rule, *g, blocked@, to as int, path@[j] as int, path@[j + 1] as int) is Some);
        let d = dir_of(g, c, nx).unwrap();
        proof {
            g.lemma_neighbor(c as int, d);
            rule.lemma_step_cost_range(*g, to as int, c as int, nx as int, d);
        }
        let w = rule.step(g, to, c, nx, d).unwrap();
        proof {
            let s = path@.subrange(0, i as int + 1);
            assert(s.drop_last() =~= path@.subrange(0, i as int));
            assert(s[s.len() - 2] == path@[j]);
            assert(s.last() == path@[i as int]);
            assert(3 * (i - 1) + 3 <= 9 * g.cells());
            assert(9 * g.cells() <= 9 * MAX_GRID_CELLS);
        }
        total = total + w;
        i = i + 1;
    }
    assert(path@.subrange(0, path@.len() as int) =~= path@);
    total
}

impl NativeAStar {
    /// Searches best-first for an orthogonal route from `from_idx` to `to_idx` that
    /// avoids blocked cells (the destination is never blocked) and stays within
    /// columns `0..=max_x` and rows `0..=max_y`. `None` means that no such route
    /// exists; where one with no detour exists, the route found has no detour.
    pub fn get_path(
        &mut self,
        stride: usize,
        height: usize,
        from_idx: u32,
        to_idx: u32,
        max_x: u32,
        max_y: u32,
        blocked: &[u8],
    ) -> (r: Result<Option<Vec<u32>>, RouteError>)
        requires
            old(self).wf(),
            stride * height <= MAX_GRID_CELLS,
        ensures
            final(self).wf(),
            final(self).capacity() >= old(self).capacity(),
            final(self).capacity() >= stride * height,
            ({
                let n = stride * height;
                if n == 0 {
                    no_path(r)
                } else if blocked@.len() < n {
                    blocked_error(r, blocked@.len() as int, n)
                } else if from_idx >= n || to_idx >= n {
                    index_error(r, from_idx, to_idx, n)
                } else if max_x >= stride || max_y >= height {
                    bounds_error(r, max_x, max_y, stride, height)
                } else {
                    &&& r is Ok
                    &&& search_outcome(
                        FreeRule {  },
                        grid_of(stride, height, max_x, max_y),
                        blocked@,
                        from_idx as int,
                        to_idx as int,
                        r->Ok_0,
                    )
                    &&& shortest(
                        FreeRule {  },
                        grid_of(stride, height, max_x, max_y),
                        blocked@,
                        from_idx as int,
                        to_idx as int,
                        r->Ok_0,
                    )
                }
            }),
    {
        self.ensure_capacity(stride, height);
        let cell_count = stride * height;
        if cell_count == 0 {
            return Ok(None);
        }
        if blocked.len() < cell_count {
            return Err(RouteError::BlockedTooShort { len: blocked.len(), cell_count });
        }
        if from_idx as usize >= cell_count || to_idx as usize >= cell_count {
            return Err(RouteError::IndexOutOfRange { from_idx, to_idx, cell_count });
        }
        if max_x as usize >= stride || max_y as usize >= height {
            return Err(RouteError::BoundsOutOfRange { max_x, max_y, stride, height });
        }
        let g = Grid { stride, height, max_x: max_x as usize, max_y: max_y as usize };
        let rule = FreeRule {  };
        assert(unit_costs(rule, g, to_idx as int));
        Ok(self.search(&g, from_idx as usize, to_idx as usize, blocked, &rule))
    }

    /// Like `get_path`, and every move also obeys the strict policy: it completes no
    /// four-way crossing, and a drawn segment is reused only as a first or last segment
    /// shared with this connector's own endpoint.
    pub fn get_path_strict(
        &mut self,
        stride: usize,
        height: usize,
        from_idx: u32,
        to_idx: u32,
        max_x: u32,
        max_y: u32,
        blocked: &[u8],
        segment_used: &[u8],
        used_as_middle: &[u8],
        start_source: &[u32],
        start_source_multi: &[u8],
        end_target: &[u32],
        end_target_multi: &[u8],
        used_points: Option<&[u8]>,
        route_from_idx: u32,
        route_to_idx: u32,
        edge_from_id: u32,
        edge_to_id: u32,
    ) -> (r: Result<Option<Vec<u32>>, RouteError>)
        requires
            old(self).wf(),
            stride * height <= MAX_GRID_CELLS,
        ensures
            final(self).wf(),
            final(self).capacity() >= old(self).capacity(),
            final(self).capacity() >= stride * height,
            ({
                let n = stride * height;
                let lengths = seq![
                    segment_used@.len() as usize,
                    used_as_middle@.len() as usize,
                    start_source@.len() as usize,
                    start_source_multi@.len() as usize,
                    end_target@.len() as usize,
                    end_target_multi@.len() as usize,
                ];
                let rule = StrictRule {
                    usage: (SegmentUsage {
                        segment_used,
                        used_as_middle,
                        start_source,
                        start_source_multi,
                        end_target,
                        end_target_multi,
                    }),
                    used_points,
                    ends: (RouteEnds { route_from_idx, route_to_idx, edge_from_id, edge_to_id }),
                };
                if n == 0 {
                    no_path(r)
                } else if blocked@.len() < n {
                    blocked_error(r, blocked@.len() as int, n)
                } else if !rule.usage.covers(2 * n) {
                    usage_error(r, n, lengths)
                } else if !points_len_ok(used_points, n) {
                    points_error(r, points_len(used_points), n)
                } else if from_idx >= n || to_idx >= n {
                    index_error(r, from_idx, to_idx, n)
                } else if max_x >= stride || max_y >= height {
                    bounds_error(r, max_x, max_y, stride, height)
                } else {
                    &&& r is Ok
                    &&& search_outcome(
                        rule,
                        grid_of(stride, height, max_x, max_y),
                        blocked@,
                        from_idx as int,
                        to_idx as int,
                        r->Ok_0,
                    )
                    &&& shortest(
                        rule,
                        grid_of(stride, height, max_x, max_y),
                        blocked@,
                        from_idx as int,
                        to_idx as int,
                        r->Ok_0,
                    )
                }
            }),
    {
        self.ensure_capacity(stride, height);
        let cell_count = stride * height;
        if cell_count == 0 {
            return Ok(None);
        }
        if blocked.len() < cell_count {
            return Err(RouteError::BlockedTooShort { len: blocked.len(), cell_count });
        }
        let seg_count = cell_count * 2;
        if segment_used.len() < seg_count || used_as_middle.len() < seg_count || start_source.len()
            < seg_count || start_source_multi.len() < seg_count || end_target.len() < seg_count
            || end_target_multi.len() < seg_count {
            let lengths = vec![
                segment_used.len(),
                used_as_middle.len(),
                start_source.len(),
                start_source_multi.len(),
                end_target.len(),
                end_target_multi.len(),
            ];
            return Err(RouteError::SegmentUsageTooShort { seg_count, lengths });
        }
        if let Some(points) = used_points {
            if points.len() < cell_count {
                return Err(RouteError::UsedPointsTooShort { len: points.len(), cell_count });
            }
        }
        if from_idx as usize >= cell_count || to_idx as usize >= cell_count {
            return Err(RouteError::IndexOutOfRange { from_idx, to_idx, cell_count });
        }
        if max_x as usize >= stride || max_y as usize >= height {
            return Err(RouteError::BoundsOutOfRange { max_x, max_y, stride, height });
        }
        let g = Grid { stride, height, max_x: max_x as usize, max_y: max_y as usize };
        let rule = StrictRule {
            usage: SegmentUsage {
                segment_used,
                used_as_middle,
                start_source,
                start_source_multi,
                end_target,
                end_target_multi,
            },
            used_points,
            ends: RouteEnds { route_from_idx, route_to_idx, edge_from_id, edge_to_id },
        };
        assert(unit_costs(rule, g, to_idx as int));
        Ok(self.search(&g, from_idx as usize, to_idx as usize, blocked, &rule))
    }

    /// Like `get_path_strict` under the relaxed policy: crossings are allowed at an
    /// extra cost of one per crossing cell, walking into touched cells is limited, and
    /// segments drawn by the same node pair may be shared. Returns the route with its
    /// cost, the summed move costs along it.
    pub fn get_path_relaxed(
        &mut self,
        stride: usize,
        height: usize,
        from_idx: u32,
        to_idx: u32,
        max_x: u32,
        max_y: u32,
        blocked: &[u8],
        segment_used: &[u8],
        used_as_middle: &[u8],
        segment_pair: &[u32],
        segment_pair_multi: &[u8],
        start_source: &[u32],
        start_source_multi: &[u8],
        end_target: &[u32],
        end_target_multi: &[u8],
        used_points: Option<&[u8]>,
        route_from_idx: u32,
        route_to_idx: u32,
        edge_from_id: u32,
        edge_to_id: u32,
        allow_end_segment_reuse: bool,
    ) -> (r: Result<Option<(Vec<u32>, u32)>, RouteError>)
        requires
            old(self).wf(),
            stride * height <= MAX_GRID_CELLS,
        ensures
            final(self).wf(),
            final(self).capacity() >= old(self).capacity(),
            final(self).capacity() >= stride * height,
            ({
                let n = stride * height;
                let lengths = seq![
                    segment_used@.len() as usize,
                    used_as_middle@.len() as usize,
                    segment_pair@.len() as usize,
                    segment_pair_multi@.len() as usize,
                    start_source@.len() as usize,
                    start_source_multi@.len() as usize,
                    end_target@.len() as usize,
                    end_target_multi@.len() as usize,
                ];
                let rule = RelaxedRule {
                    usage: (SegmentUsage {
                        segment_used,
                        used_as_middle,
                        start_source,
                        start_source_multi,
                        end_target,
                        end_target_multi,
                    }),
                    segment_pair,
                    segment_pair_multi,
                    used_points,
                    ends: (RouteEnds { route_from_idx, route_to_idx, edge_from_id, edge_to_id }),
                    allow_end_segment_reuse,
                };
                let g = grid_of(stride, height, max_x, max_y);
                if n == 0 {
                    no_path(r)
                } else if blocked@.len() < n {
                    blocked_error(r, blocked@.len() as int, n)
                } else if !(rule.usage.covers(2 * n) && segment_pair@.len() >= 2 * n
                    && segment_pair_multi@.len() >= 2 * n) {
                    usage_error(r, n, lengths)
                } else if !points_len_ok(used_points, n) {
                    points_error(r, points_len(used_points), n)
                } else if from_idx >= n || to_idx >= n {
                    index_error(r, from_idx, to_idx, n)
                } else if max_x >= stride || max_y >= height {
                    bounds_error(r, max_x, max_y, stride, height)
                } else {
                    r is Ok && match r->Ok_0 {
                        Some((p, cost)) => {
                            &&& is_route(rule, g, blocked@, from_idx as int, to_idx as int, p@)
                            &&& p@.no_duplicates()
                            &&& cost == route_cost(rule, g, blocked@, to_idx as int, p@)
                            &&& forall|q: Seq<u32>|
                                #[trigger] is_route(rule, g, blocked@, from_idx as int, to_idx as int, q) ==> cost
                                    <= route_cost(rule, g, blocked@, to_idx as int, q) + 1
                        },
                        None => forall|p: Seq<u32>|
                            !#[trigger] is_route(rule, g, blocked@, from_idx as int, to_idx as int, p),
                    }
                }
            }),
    {
        self.ensure_capacity(stride, height);
        let cell_count = stride * height;
        if cell_count == 0 {
            return Ok(None);
        }
        if blocked.len() < cell_count {
            return Err(RouteError::BlockedTooShort { len: blocked.len(), cell_count });
        }
        let seg_count = cell_count * 2;
        if segment_used.len() < seg_count || used_as_middle.len() < seg_count || segment_pair.len()
            < seg_count || segment_pair_multi.len() < seg_count || start_source.len() < seg_count
            || start_source_multi.len() < seg_count || end_target.len() < seg_count
            || end_target_multi.len() < seg_count {
            let lengths = vec![
                segment_used.len(),
                used_as_middle.len(),
                segment_pair.len(),
                segment_pair_multi.len(),
                start_source.len(),
                start_source_multi.len(),
                end_target.len(),
                end_target_multi.len(),
            ];
            return Err(RouteError::SegmentUsageTooShort { seg_count, lengths });
        }
        if let Some(points) = used_points {
            if points.len() < cell_count {
                return Err(RouteError::UsedPointsTooShort { len: points.len(), cell_count });
            }
        }
        if from_idx as usize >= cell_count || to_idx as usize >= cell_count {
            return Err(RouteError::IndexOutOfRange { from_idx, to_idx, cell_count });
        }
        if max_x as usize >= stride || max_y as usize >= height {
            return Err(RouteError::BoundsOutOfRange { max_x, max_y, stride, height });
        }
        let g = Grid { stride, height, max_x: max_x as usize, max_y: max_y as usize };
        let rule = RelaxedRule {
            usage: SegmentUsage {
                segment_used,
                used_as_middle,
                start_source,
                start_source_multi,
                end_target,
                end_target_multi,
            },
            segment_pair,
            segment_pair_multi,
            used_points,
            ends: RouteEnds { route_from_idx, route_to_idx, edge_from_id, edge_to_id },
            allow_end_segment_reuse,
        };
        match self.search(&g, from_idx as usize, to_idx as usize, blocked, &rule) {
            Some(path) => {
                let cost = path_cost(&rule, &g, blocked, from_idx as usize, to_idx as usize, &path);
                Ok(Some((path, cost)))
            },
            None => Ok(None),
        }
    }
}

} // verus!
