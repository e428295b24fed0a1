use beautiful_mermaid_rs::{grid_height, MinHeap, NativeAStar, RouteError};

fn assert_orthogonal(path: &[u32], stride: u32) {
    for pair in path.windows(2) {
        let a = pair[0] as i64;
        let b = pair[1] as i64;
        let step = b - a;
        assert!(
            step == 1 || step == -1 || step == stride as i64 || step == -(stride as i64),
            "cells {a} and {b} are not adjacent"
        );
    }
}

fn has_step(path: &[u32], a: u32, b: u32) -> bool {
    path.windows(2).any(|w| w[0] == a && w[1] == b)
}

struct Usage {
    segment_used: Vec<u8>,
    used_as_middle: Vec<u8>,
    segment_pair: Vec<u32>,
    segment_pair_multi: Vec<u8>,
    start_source: Vec<u32>,
    start_source_multi: Vec<u8>,
    end_target: Vec<u32>,
    end_target_multi: Vec<u8>,
}

fn empty_usage(cells: usize) -> Usage {
    Usage {
        segment_used: vec![0; 2 * cells],
        used_as_middle: vec![0; 2 * cells],
        segment_pair: vec![0; 2 * cells],
        segment_pair_multi: vec![0; 2 * cells],
        start_source: vec![0; 2 * cells],
        start_source_multi: vec![0; 2 * cells],
        end_target: vec![0; 2 * cells],
        end_target_multi: vec![0; 2 * cells],
    }
}

#[allow(clippy::too_many_arguments)]
fn strict(
    astar: &mut NativeAStar,
    stride: usize,
    height: usize,
    from: u32,
    to: u32,
    blocked: &[u8],
    u: &Usage,
    points: Option<&[u8]>,
    ids: (u32, u32),
) -> Result<Option<Vec<u32>>, RouteError> {
    astar.get_path_strict(
        stride,
        height,
        from,
        to,
        (stride - 1) as u32,
        (height - 1) as u32,
        blocked,
        &u.segment_used,
        &u.used_as_middle,
        &u.start_source,
        &u.start_source_multi,
        &u.end_target,
        &u.end_target_multi,
        points,
        from,
        to,
        ids.0,
        ids.1,
    )
}

#[allow(clippy::too_many_arguments)]
fn relaxed(
    astar: &mut NativeAStar,
    stride: usize,
    height: usize,
    from: u32,
    to: u32,
    blocked: &[u8],
    u: &Usage,
    points: Option<&[u8]>,
    ids: (u32, u32),
    allow_end_reuse: bool,
) -> Result<Option<(Vec<u32>, u32)>, RouteError> {
    astar.get_path_relaxed(
        stride,
        height,
        from,
        to,
        (stride - 1) as u32,
        (height - 1) as u32,
        blocked,
        &u.segment_used,
        &u.used_as_middle,
        &u.segment_pair,
        &u.segment_pair_multi,
        &u.start_source,
        &u.start_source_multi,
        &u.end_target,
        &u.end_target_multi,
        points,
        from,
        to,
        ids.0,
        ids.1,
        allow_end_reuse,
    )
}

#[test]
fn free_path_on_open_three_by_three_grid() {
    let mut astar = NativeAStar::new();
    let blocked = vec![0u8; 9];
    let path = astar.get_path(3, 3, 0, 8, 2, 2, &blocked).unwrap().unwrap();
    assert_eq!(path.len(), 5);
    assert_eq!(path[0], 0);
    assert_eq!(*path.last().unwrap(), 8);
    for w in path.windows(2) {
        let (ax, ay) = (w[0] % 3, w[0] / 3);
        let (bx, by) = (w[1] % 3, w[1] / 3);
        assert!((bx == ax + 1 && by == ay) || (by == ay + 1 && bx == ax));
    }
}

#[test]
fn free_path_length_is_manhattan_plus_one_without_obstacles() {
    let mut astar = NativeAStar::new();
    let blocked = vec![0u8; 16];
    let path = astar.get_path(4, 4, 0, 15, 3, 3, &blocked).unwrap().unwrap();
    assert_eq!(path.len(), 7);
    assert_orthogonal(&path, 4);
    let path = astar.get_path(4, 4, 13, 2, 3, 3, &blocked).unwrap().unwrap();
    assert_eq!(path.len(), 5);
    assert_orthogonal(&path, 4);
}

#[test]
fn free_path_detours_around_single_wall_cell() {
    let mut astar = NativeAStar::new();
    let mut blocked = vec![0u8; 15];
    blocked[7] = 1;
    let path = astar.get_path(5, 3, 5, 9, 4, 2, &blocked).unwrap().unwrap();
    assert_eq!(path.len(), 7);
    assert!(!path.contains(&7));
    assert_eq!(path[0], 5);
    assert_eq!(*path.last().unwrap(), 9);
    assert_orthogonal(&path, 5);
}

#[test]
fn free_path_same_cell() {
    let mut astar = NativeAStar::new();
    let blocked = vec![0u8; 4];
    assert_eq!(astar.get_path(2, 2, 3, 3, 1, 1, &blocked), Ok(Some(vec![3])));
}

#[test]
fn free_path_enters_blocked_destination() {
    let mut astar = NativeAStar::new();
    let mut blocked = vec![0u8; 3];
    blocked[2] = 1;
    assert_eq!(astar.get_path(3, 1, 0, 2, 2, 0, &blocked), Ok(Some(vec![0, 1, 2])));
}

#[test]
fn free_path_unreachable_is_none() {
    let mut astar = NativeAStar::new();
    let mut blocked = vec![0u8; 9];
    blocked[1] = 1;
    blocked[3] = 1;
    assert_eq!(astar.get_path(3, 3, 0, 8, 2, 2, &blocked), Ok(None));
}

#[test]
fn free_path_respects_traversal_bounds() {
    let mut astar = NativeAStar::new();
    let mut blocked = vec![0u8; 9];
    blocked[4] = 1;
    blocked[7] = 1;
    // Column 2 is out of bounds, so the only way round the wall is gone.
    assert_eq!(astar.get_path(3, 3, 3, 6, 1, 2, &blocked), Ok(Some(vec![3, 6])));
    assert_eq!(astar.get_path(3, 3, 0, 8, 1, 2, &blocked), Ok(None));
}

#[test]
fn degenerate_grid_has_no_path() {
    let mut astar = NativeAStar::new();
    assert_eq!(astar.get_path(0, 5, 0, 0, 0, 0, &[]), Ok(None));
    assert_eq!(astar.get_path(4, 0, 0, 0, 0, 0, &[]), Ok(None));
}

#[test]
fn input_errors_are_reported() {
    let mut astar = NativeAStar::new();
    let blocked = vec![0u8; 5];
    assert_eq!(
        astar.get_path(3, 3, 0, 1, 2, 2, &blocked),
        Err(RouteError::BlockedTooShort { len: 5, cell_count: 9 })
    );
    let blocked = vec![0u8; 9];
    assert_eq!(
        astar.get_path(3, 3, 0, 9, 2, 2, &blocked),
        Err(RouteError::IndexOutOfRange { from_idx: 0, to_idx: 9, cell_count: 9 })
    );
    assert_eq!(
        astar.get_path(3, 3, 0, 8, 3, 2, &blocked),
        Err(RouteError::BoundsOutOfRange { max_x: 3, max_y: 2, stride: 3, height: 3 })
    );
    assert_eq!(
        astar.get_path(3, 3, 0, 8, 2, 3, &blocked),
        Err(RouteError::BoundsOutOfRange { max_x: 2, max_y: 3, stride: 3, height: 3 })
    );
}

#[test]
fn zero_stride_or_ragged_blocked_map_is_an_input_error() {
    assert_eq!(grid_height(0, 9), Err(RouteError::ZeroStride));
    assert_eq!(grid_height(4, 9), Err(RouteError::BlockedNotDivisible { len: 9, stride: 4 }));
    assert_eq!(grid_height(3, 9), Ok(3));
    assert_eq!(grid_height(3, 0), Ok(0));
}

#[test]
fn strict_table_length_errors() {
    let mut astar = NativeAStar::new();
    let blocked = vec![0u8; 9];
    let mut u = empty_usage(9);
    u.end_target = vec![0; 10];
    match strict(&mut astar, 3, 3, 0, 8, &blocked, &u, None, (1, 2)) {
        Err(RouteError::SegmentUsageTooShort { seg_count, lengths }) => {
            assert_eq!(seg_count, 18);
            assert_eq!(lengths, vec![18, 18, 18, 18, 10, 18]);
        }
        other => panic!("unexpected {other:?}"),
    }
    let u = empty_usage(9);
    let points = vec![0u8; 4];
    assert_eq!(
        strict(&mut astar, 3, 3, 0, 8, &blocked, &u, Some(&points), (1, 2)),
        Err(RouteError::UsedPointsTooShort { len: 4, cell_count: 9 })
    );
}

#[test]
fn relaxed_table_length_errors() {
    let mut astar = NativeAStar::new();
    let blocked = vec![0u8; 9];
    let mut u = empty_usage(9);
    u.segment_pair_multi = vec![0; 3];
    match relaxed(&mut astar, 3, 3, 0, 8, &blocked, &u, None, (1, 2), false) {
        Err(RouteError::SegmentUsageTooShort { seg_count, lengths }) => {
            assert_eq!(seg_count, 18);
            assert_eq!(lengths, vec![18, 18, 18, 3, 18, 18, 18, 18]);
        }
        other => panic!("unexpected {other:?}"),
    }
}

#[test]
fn strict_mode_never_completes_a_crossing() {
    let mut astar = NativeAStar::new();
    let blocked = vec![0u8; 9];
    let u = empty_usage(9);
    let mut points = vec![0u8; 9];
    // A T junction in the centre: up, down and left are drawn.
    points[4] = 4 | 8 | 1;
    let free = astar.get_path(3, 3, 4, 5, 2, 2, &blocked).unwrap().unwrap();
    assert_eq!(free, vec![4, 5]);
    let path = strict(&mut astar, 3, 3, 4, 5, &blocked, &u, Some(&points), (1, 2)).unwrap().unwrap();
    assert_eq!(path.len(), 4);
    assert!(!has_step(&path, 4, 5));
    assert_eq!(path[0], 4);
    assert_eq!(*path.last().unwrap(), 5);
    assert_orthogonal(&path, 3);
}

#[test]
fn strict_path_has_no_detour_on_open_grid() {
    let mut astar = NativeAStar::new();
    let blocked = vec![0u8; 9];
    let u = empty_usage(9);
    let points = vec![0u8; 9];
    let path = strict(&mut astar, 3, 3, 0, 8, &blocked, &u, Some(&points), (1, 2)).unwrap().unwrap();
    assert_eq!(path.len(), 5);
    assert_eq!(path[0], 0);
    assert_eq!(*path.last().unwrap(), 8);
    assert_orthogonal(&path, 3);
}

#[test]
fn strict_mode_refuses_middle_segment_reuse() {
    let mut astar = NativeAStar::new();
    let blocked = vec![0u8; 3];
    let mut u = empty_usage(3);
    u.segment_used[2] = 1;
    u.used_as_middle[2] = 1;
    assert_eq!(strict(&mut astar, 3, 1, 0, 2, &blocked, &u, None, (1, 2)), Ok(None));
    let u = empty_usage(3);
    assert_eq!(strict(&mut astar, 3, 1, 0, 2, &blocked, &u, None, (1, 2)), Ok(Some(vec![0, 1, 2])));
}

#[test]
fn strict_mode_shares_start_segment_with_same_source() {
    let mut astar = NativeAStar::new();
    let blocked = vec![0u8; 3];
    let mut u = empty_usage(3);
    u.segment_used[0] = 1;
    u.start_source[0] = 7;
    assert_eq!(strict(&mut astar, 3, 1, 0, 2, &blocked, &u, None, (7, 2)), Ok(Some(vec![0, 1, 2])));
    assert_eq!(strict(&mut astar, 3, 1, 0, 2, &blocked, &u, None, (8, 2)), Ok(None));
}

#[test]
fn relaxed_cost_counts_completed_crossings() {
    let mut astar = NativeAStar::new();
    let blocked = vec![0u8; 9];
    let u = empty_usage(9);
    let mut points = vec![0u8; 9];
    points[4] = 4 | 8 | 1;
    let (path, cost) = relaxed(&mut astar, 3, 3, 4, 5, &blocked, &u, Some(&points), (1, 2), false)
        .unwrap()
        .unwrap();
    assert_eq!(path, vec![4, 5]);
    assert_eq!(cost, 2);
    let (path, cost) = relaxed(&mut astar, 3, 3, 0, 8, &blocked, &u, None, (1, 2), false).unwrap().unwrap();
    assert_eq!(path.len(), 5);
    assert_eq!(cost, 4);
}

fn trunk_usage() -> (Usage, Vec<u8>) {
    // A first connector drew row 1 of a 5 x 3 grid, from cell 5 to cell 9.
    let mut u = empty_usage(15);
    let pair = (1u32 << 16) | 2;
    for cell in 5..9 {
        u.segment_used[2 * cell] = 1;
        u.segment_pair[2 * cell] = pair;
    }
    u.used_as_middle[12] = 1;
    u.used_as_middle[14] = 1;
    u.start_source[10] = 1;
    u.end_target[16] = 2;
    let mut points = vec![0u8; 15];
    points[5] = 2;
    points[6] = 3;
    points[7] = 3;
    points[8] = 3;
    points[9] = 1;
    (u, points)
}

#[test]
fn relaxed_same_pair_shares_trunk() {
    let mut astar = NativeAStar::new();
    let blocked = vec![0u8; 15];
    let (u, points) = trunk_usage();
    let (path, cost) = relaxed(&mut astar, 5, 3, 5, 9, &blocked, &u, Some(&points), (1, 2), false)
        .unwrap()
        .unwrap();
    assert_eq!(path, vec![5, 6, 7, 8, 9]);
    assert_eq!(cost, 4);
}

#[test]
fn relaxed_other_pair_avoids_trunk() {
    let mut astar = NativeAStar::new();
    let blocked = vec![0u8; 15];
    let (u, points) = trunk_usage();
    let (path, cost) = relaxed(&mut astar, 5, 3, 5, 9, &blocked, &u, Some(&points), (1, 3), false)
        .unwrap()
        .unwrap();
    assert!(!has_step(&path, 6, 7));
    assert!(!has_step(&path, 7, 8));
    assert!(path.len() > 5);
    assert_eq!(path[0], 5);
    assert_eq!(*path.last().unwrap(), 9);
    assert_orthogonal(&path, 5);
    assert!(cost as usize >= path.len() - 1);
    // Every touched cell entered mid-route must be a same-pair trunk cell, which this is not.
    for w in path.windows(2) {
        let next = w[1] as usize;
        if next != 9 && points[next] != 0 {
            let pre_target = next + 1 == 9 || next == 9 + 1 || next + 5 == 9 || next == 9 + 5;
            assert!(w[0] == 5 || pre_target);
        }
    }
}

#[test]
fn relaxed_end_segment_reuse_needs_flag() {
    let mut astar = NativeAStar::new();
    let blocked = vec![0u8; 2];
    let mut u = empty_usage(2);
    u.segment_used[0] = 1;
    u.end_target[0] = 2;
    assert_eq!(relaxed(&mut astar, 2, 1, 0, 1, &blocked, &u, None, (0x1_0000, 2), false), Ok(None));
    assert_eq!(
        relaxed(&mut astar, 2, 1, 0, 1, &blocked, &u, None, (0x1_0000, 2), true),
        Ok(Some((vec![0, 1], 1)))
    );
}

#[test]
fn repeated_calls_give_identical_results() {
    let mut astar = NativeAStar::new();
    let blocked = vec![0u8; 15];
    let (u, points) = trunk_usage();
    let first = relaxed(&mut astar, 5, 3, 5, 9, &blocked, &u, Some(&points), (1, 3), false);
    let second = relaxed(&mut astar, 5, 3, 5, 9, &blocked, &u, Some(&points), (1, 3), false);
    assert_eq!(first, second);
    let mut blocked = vec![0u8; 15];
    blocked[7] = 1;
    let a = astar.get_path(5, 3, 5, 9, 4, 2, &blocked);
    let _ = astar.get_path(3, 3, 0, 8, 2, 2, &[0u8; 9]);
    let b = astar.get_path(5, 3, 5, 9, 4, 2, &blocked);
    assert_eq!(a, b);
}

#[test]
fn heap_pops_least_priority_and_keeps_ties_stable() {
    let mut heap = MinHeap::new();
    assert!(heap.is_empty());
    heap.push(10, 5, 0);
    heap.push(11, 3, 0);
    heap.push(12, 5, 1);
    heap.push(13, 3, 1);
    assert_eq!(heap.pop(), Some((11, 0)));
    assert_eq!(heap.pop(), Some((13, 1)));
    assert_eq!(heap.pop(), Some((12, 1)));
    assert_eq!(heap.pop(), Some((10, 0)));
    assert_eq!(heap.pop(), None);
    heap.push(1, 1, 1);
    heap.clear();
    assert!(heap.is_empty());
}

#[test]
fn free_route_on_open_grid_follows_expansion_order() {
    let mut astar = NativeAStar::new();
    let blocked = vec![0u8; 9];
    assert_eq!(astar.get_path(3, 3, 0, 8, 2, 2, &blocked), Ok(Some(vec![0, 1, 2, 5, 8])));
}

#[test]
fn strict_and_relaxed_match_free_on_empty_tables() {
    let mut astar = NativeAStar::new();
    let mut blocked = vec![0u8; 15];
    blocked[7] = 1;
    let u = empty_usage(15);
    let points = vec![0u8; 15];
    let free = astar.get_path(5, 3, 5, 9, 4, 2, &blocked).unwrap().unwrap();
    let strict_path = strict(&mut astar, 5, 3, 5, 9, &blocked, &u, Some(&points), (1, 2)).unwrap().unwrap();
    let (relaxed_path, cost) =
        relaxed(&mut astar, 5, 3, 5, 9, &blocked, &u, None, (1, 2), false).unwrap().unwrap();
    assert_eq!(strict_path, free);
    assert_eq!(relaxed_path, free);
    assert_eq!(cost as usize, free.len() - 1);
}

#[test]
fn routes_have_distinct_cells() {
    let mut astar = NativeAStar::new();
    let mut blocked = vec![0u8; 25];
    for cell in [6, 7, 8, 13, 16, 17, 18] {
        blocked[cell] = 1;
    }
    let path = astar.get_path(5, 5, 12, 24, 4, 4, &blocked).unwrap().unwrap();
    let mut seen = std::collections::HashSet::new();
    for cell in &path {
        assert!(seen.insert(*cell));
    }
    assert_orthogonal(&path, 5);
}
