//! Input-contract failures of the router. They are programmer errors of the caller,
//! never a search outcome: "no route" is `Ok(None)`.

use vstd::prelude::*;

verus! {

#[derive(Debug, Clone, PartialEq, Eq)]
pub enum RouteError {
    /// A grid row cannot have zero cells.
    ZeroStride,
    /// The blocked map does not split into whole rows.
    BlockedNotDivisible { len: usize, stride: usize },
    /// The blocked map has fewer entries than the grid has cells.
    BlockedTooShort { len: usize, cell_count: usize },
    /// Some segment table has fewer than `seg_count` entries; `lengths` lists each
    /// table's length in parameter order.
    SegmentUsageTooShort { seg_count: usize, lengths: Vec<usize> },
    /// The used-point masks have fewer entries than the grid has cells.
    UsedPointsTooShort { len: usize, cell_count: usize },
    /// The start or the destination lies outside the grid.
    IndexOutOfRange { from_idx: u32, to_idx: u32, cell_count: usize },
    /// A traversal bound reaches past the last column or row.
    BoundsOutOfRange { max_x: u32, max_y: u32, stride: usize, height: usize },
}

/// The number of rows of a grid of `stride` columns whose blocked map has
/// `blocked_len` entries.
pub fn grid_height(stride: u32, blocked_len: usize) -> (r: Result<usize, RouteError>)
    ensures
        stride == 0 ==> r == Err::<usize, RouteError>(RouteError::ZeroStride),
        stride > 0 && blocked_len as int % stride as int != 0 ==> r == Err::<usize, RouteError>(
            RouteError::BlockedNotDivisible { len: blocked_len, stride: stride as usize },
        ),
        stride > 0 && blocked_len as int % stride as int == 0 ==> r == Ok::<usize, RouteError>(
            (blocked_len as int / stride as int) as usize,
        ),
{
    if stride == 0 {
        return Err(RouteError::ZeroStride);
    }
    let s = stride as usize;
    if blocked_len % s != 0 {
        return Err(RouteError::BlockedNotDivisible { len: blocked_len, stride: s });
    }
    Ok(blocked_len / s)
}

} // verus!
