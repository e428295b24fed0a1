//! Grid geometry: cell addressing, the four orthogonal moves, and the
//! per-cell direction masks that record which strokes touch a cell.

use vstd::prelude::*;

verus! {

/// A stroke leaves the cell towards the left.
pub const CONNECT_LEFT: u8 = 1;

/// A stroke leaves the cell towards the right.
pub const CONNECT_RIGHT: u8 = 2;

/// A stroke leaves the cell upwards.
pub const CONNECT_UP: u8 = 4;

/// A stroke leaves the cell downwards.
pub const CONNECT_DOWN: u8 = 8;

/// Both horizontal directions.
pub const H_MASK: u8 = 3;

/// Both vertical directions.
pub const V_MASK: u8 = 12;

/// The largest number of cells a grid may have: cell indices and accumulated
/// costs are held in `u32`, and a cost grows by at most three per cell.
pub const MAX_GRID_CELLS: usize = 0x1000_0000;

/// One orthogonal move, in the order in which the search expands them.
#[derive(PartialEq, Eq, Structural, Clone, Copy, Debug)]
pub enum Dir {
    Right,
    Left,
    Down,
    Up,
}

impl Dir {
    /// The mask bit that the move adds at the cell it leaves.
    pub open spec fn out_bit(self) -> u8 {
        match self {
            Dir::Right => CONNECT_RIGHT,
            Dir::Left => CONNECT_LEFT,
            Dir::Down => CONNECT_DOWN,
            Dir::Up => CONNECT_UP,
        }
    }

    /// The mask bit that the move adds at the cell it enters.
    pub open spec fn in_bit(self) -> u8 {
        match self {
            Dir::Right => CONNECT_LEFT,
            Dir::Left => CONNECT_RIGHT,
            Dir::Down => CONNECT_UP,
            Dir::Up => CONNECT_DOWN,
        }
    }

    pub open spec fn is_vertical(self) -> bool {
        self == Dir::Down || self == Dir::Up
    }

    pub fn out_bit_exec(self) -> (r: u8)
        ensures
            r == self.out_bit(),
    {
        match self {
            Dir::Right => CONNECT_RIGHT,
            Dir::Left => CONNECT_LEFT,
            Dir::Down => CONNECT_DOWN,
            Dir::Up => CONNECT_UP,
        }
    }

    pub fn in_bit_exec(self) -> (r: u8)
        ensures
            r == self.in_bit(),
    {
        match self {
            Dir::Right => CONNECT_LEFT,
            Dir::Left => CONNECT_RIGHT,
            Dir::Down => CONNECT_UP,
            Dir::Up => CONNECT_DOWN,
        }
    }
}

/// Adding `bit` to `mask` gives a cell strokes in all four directions.
pub open spec fn forms_crossing(mask: u8, bit: u8) -> bool {
    let m = mask | bit;
    (m & H_MASK) == H_MASK && (m & V_MASK) == V_MASK
}

/// A cell already touched by a stroke would become a four-way crossing.
pub open spec fn completes_crossing(mask: u8, bit: u8) -> bool {
    mask != 0 && forms_crossing(mask, bit)
}

pub fn completes_crossing_exec(mask: u8, bit: u8) -> (r: bool)
    ensures
        r == completes_crossing(mask, bit),
{
    if mask == 0 {
        return false;
    }
    let m = mask | bit;
    (m & H_MASK) == H_MASK && (m & V_MASK) == V_MASK
}

pub open spec fn bit_at(mask: u8, bit: u8) -> int {
    if mask & bit != 0 {
        1
    } else {
        0
    }
}

/// The number of directions set among the four low bits of `mask`.
pub open spec fn arm_count(mask: u8) -> int {
    bit_at(mask, CONNECT_LEFT) + bit_at(mask, CONNECT_RIGHT) + bit_at(mask, CONNECT_UP) + bit_at(
        mask,
        CONNECT_DOWN,
    )
}

pub fn arm_count_exec(mask: u8) -> (r: u8)
    ensures
        r as int == arm_count(mask),
{
    let mut r: u8 = 0;
    if mask & CONNECT_LEFT != 0 {
        r = r + 1;
    }
    if mask & CONNECT_RIGHT != 0 {
        r = r + 1;
    }
    if mask & CONNECT_UP != 0 {
        r = r + 1;
    }
    if mask & CONNECT_DOWN != 0 {
        r = r + 1;
    }
    r
}

/// The shape of a search: a row-major grid of `stride` columns and `height` rows,
/// with moves confined to columns `0..=max_x` and rows `0..=max_y`.
#[derive(Clone, Copy, Debug)]
pub struct Grid {
    pub stride: usize,
    pub height: usize,
    pub max_x: usize,
    pub max_y: usize,
}

impl Grid {
    pub open spec fn cells(self) -> int {
        self.stride * self.height
    }

    pub open spec fn wf(self) -> bool {
        &&& self.stride > 0
        &&& self.max_x < self.stride
        &&& self.max_y < self.height
        &&& self.cells() <= MAX_GRID_CELLS
    }

    pub open spec fn x_of(self, c: int) -> int {
        c % (self.stride as int)
    }

    pub open spec fn y_of(self, c: int) -> int {
        c / (self.stride as int)
    }

    /// The cell that move `d` reaches from `c`, if the traversal bounds allow it.
    pub open spec fn neighbor(self, c: int, d: Dir) -> Option<int> {
        match d {
            Dir::Right => if self.x_of(c) < self.max_x {
                Some(c + 1)
            } else {
                None
            },
            Dir::Left => if self.x_of(c) > 0 {
                Some(c - 1)
            } else {
                None
            },
            Dir::Down => if self.y_of(c) < self.max_y {
                Some(c + self.stride)
            } else {
                None
            },
            Dir::Up => if self.y_of(c) > 0 {
                Some(c - self.stride)
            } else {
                None
            },
        }
    }

    /// The move that takes `c` to `n`, if there is one.
    pub open spec fn dir_between(self, c: int, n: int) -> Option<Dir> {
        if self.neighbor(c, Dir::Right) == Some(n) {
            Some(Dir::Right)
        } else if self.neighbor(c, Dir::Left) == Some(n) {
            Some(Dir::Left)
        } else if self.neighbor(c, Dir::Down) == Some(n) {
            Some(Dir::Down)
        } else if self.neighbor(c, Dir::Up) == Some(n) {
            Some(Dir::Up)
        } else {
            None
        }
    }

    /// The unit segment crossed by a move between `c` and `n`: each cell owns the
    /// segment to its right (`2 * cell`) and the one below it (`2 * cell + 1`).
    pub open spec fn segment_of(c: int, n: int, d: Dir) -> int {
        match d {
            Dir::Right => 2 * c,
            Dir::Left => 2 * n,
            Dir::Down => 2 * c + 1,
            Dir::Up => 2 * n + 1,
        }
    }

    /// Manhattan distance between two cells.
    pub open spec fn distance(self, a: int, b: int) -> int {
        let dx = self.x_of(a) - self.x_of(b);
        let dy = self.y_of(a) - self.y_of(b);
        (if dx >= 0 {
            dx
        } else {
            -dx
        }) + (if dy >= 0 {
            dy
        } else {
            -dy
        })
    }

    /// Column and row of a cell lie inside the grid.
    pub proof fn lemma_coords(self, c: int)
        requires
            self.wf(),
            0 <= c < self.cells(),
        ensures
            0 <= self.x_of(c) < self.stride,
            0 <= self.y_of(c) < self.height,
            c == self.y_of(c) * self.stride + self.x_of(c),
            self.stride <= self.cells(),
            self.height <= self.cells(),
    {
        let s = self.stride as int;
        let h = self.height as int;
        vstd::arithmetic::div_mod::lemma_fundamental_div_mod(c, s);
        let x = self.x_of(c);
        let y = self.y_of(c);
        assert(0 <= y) by {
            vstd::arithmetic::div_mod::lemma_div_pos_is_pos(c, s);
        }
        assert(y < h) by (nonlinear_arith)
            requires c == s * y + x, x >= 0, c < s * h, s > 0;
        assert(s * y == y * s) by (nonlinear_arith);
        assert(s <= s * h && h <= s * h) by (nonlinear_arith)
            requires h >= 1, s >= 1;
    }

    /// A move stays inside the grid, changes one coordinate by one, and is the only
    /// move between its two cells.
    pub proof fn lemma_neighbor(self, c: int, d: Dir)
        requires
            self.wf(),
            0 <= c < self.cells(),
            self.neighbor(c, d) is Some,
        ensures
            ({
                let n = self.neighbor(c, d)->0;
                &&& 0 <= n < self.cells()
                &&& self.dir_between(c, n) == Some(d)
                &&& 0 <= Self::segment_of(c, n, d) < 2 * self.cells()
                &&& match d {
                    Dir::Right => self.x_of(n) == self.x_of(c) + 1 && self.y_of(n) == self.y_of(c),
                    Dir::Left => self.x_of(n) == self.x_of(c) - 1 && self.y_of(n) == self.y_of(c),
                    Dir::Down => self.x_of(n) == self.x_of(c) && self.y_of(n) == self.y_of(c) + 1,
                    Dir::Up => self.x_of(n) == self.x_of(c) && self.y_of(n) == self.y_of(c) - 1,
                }
            }),
    {
        let s = self.stride as int;
        let h = self.height as int;
        let x = self.x_of(c);
        let y = self.y_of(c);
        vstd::arithmetic::div_mod::lemma_fundamental_div_mod(c, s);
        assert(0 <= x < s);
        assert(0 <= y) by {
            vstd::arithmetic::div_mod::lemma_div_pos_is_pos(c, s);
        }
        assert(c == s * y + x);
        assert(y < h) by (nonlinear_arith)
            requires c == s * y + x, x >= 0, c < s * h, s > 0;
        assert(s * y + x == y * s + x) by (nonlinear_arith);
        assert(s * (y + 1) == s * y + s) by (nonlinear_arith);
        assert(s * (y - 1) == s * y - s) by (nonlinear_arith);
        assert(s * (y + 1) == (y + 1) * s) by (nonlinear_arith);
        assert(s * (y - 1) == (y - 1) * s) by (nonlinear_arith);
        assert(s * (y + 1) <= s * h) by (nonlinear_arith)
            requires y + 1 <= h, s > 0;
        let n = self.neighbor(c, d)->0;
        match d {
            Dir::Right => {
                vstd::arithmetic::div_mod::lemma_fundamental_div_mod_converse(n, s, y, x + 1);
            },
            Dir::Left => {
                vstd::arithmetic::div_mod::lemma_fundamental_div_mod_converse(n, s, y, x - 1);
            },
            Dir::Down => {
                assert(s * (y + 2) <= s * h) by (nonlinear_arith)
                    requires y + 2 <= h, s > 0;
                assert(s * (y + 2) == s * y + s + s) by (nonlinear_arith);
                vstd::arithmetic::div_mod::lemma_fundamental_div_mod_converse(n, s, y + 1, x);
            },
            Dir::Up => {
                assert(s * (y - 1) >= 0) by (nonlinear_arith)
                    requires y >= 1, s > 0;
                vstd::arithmetic::div_mod::lemma_fundamental_div_mod_converse(n, s, y - 1, x);
            },
        }
    }
}

} // verus!
