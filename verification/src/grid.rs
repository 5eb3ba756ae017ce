//! The grid that a pixel buffer stands for.
//!
//! Cells are numbered row by row: the cell in column `x` of row `y` has the
//! linear index `y * width + x`. All reasoning about neighbours and paths is
//! done on linear indices; column and row of an index are its remainder and
//! its quotient by the width.

use crate::pixel::{channels, is_path, open_at};
use vstd::arithmetic::div_mod::{
    lemma_fundamental_div_mod,
    lemma_fundamental_div_mod_converse,
    lemma_multiply_divide_lt,
};
use vstd::prelude::*;

verus! {

/// One of the four axis directions. `Up` leads to the row above.
#[derive(Clone, Copy, Debug, PartialEq, Eq, Structural)]
pub enum Direction {
    Up,
    Down,
    Left,
    Right,
}

impl Direction {
    /// Whether the direction runs along a column.
    pub open spec fn vertical(self) -> bool {
        self == Direction::Up || self == Direction::Down
    }

    /// Whether the direction runs along a column.
    pub fn is_vertical(self) -> (vertical: bool)
        ensures
            vertical == self.vertical(),
    {
        match self {
            Direction::Up | Direction::Down => true,
            Direction::Left | Direction::Right => false,
        }
    }
}

/// Whether the cell `at` of a grid of `size` cells in rows of `width` has a
/// neighbour in the grid in the given direction.
pub open spec fn can_step(width: int, size: int, at: int, toward: Direction) -> bool {
    0 <= at < size && width > 0 && match toward {
        Direction::Up => at >= width,
        Direction::Down => at + width < size,
        Direction::Left => at % width > 0,
        Direction::Right => at % width + 1 < width,
    }
}

/// The index one step from `at` in the given direction.
pub open spec fn step(width: int, at: int, toward: Direction) -> int {
    match toward {
        Direction::Up => at - width,
        Direction::Down => at + width,
        Direction::Left => at - 1,
        Direction::Right => at + 1,
    }
}

/// A grid of open and closed cells.
pub struct Grid {
    pub width: nat,
    pub height: nat,
    pub open: Seq<bool>,
}

impl Grid {
    /// The grid holds one flag per cell.
    pub open spec fn wf(self) -> bool {
        self.open.len() == self.width * self.height
    }

    /// The number of cells.
    pub open spec fn size(self) -> int {
        self.open.len() as int
    }

    /// Whether `at` is a cell of the grid and open.
    pub open spec fn is_open(self, at: int) -> bool {
        0 <= at < self.open.len() && self.open[at]
    }

    /// The column of the cell `at`.
    pub open spec fn col(self, at: int) -> int {
        at % (self.width as int)
    }

    /// The row of the cell `at`.
    pub open spec fn row(self, at: int) -> int {
        at / (self.width as int)
    }

    /// Whether `at` has a neighbour in the grid in the given direction.
    pub open spec fn can_step(self, at: int, toward: Direction) -> bool {
        can_step(self.width as int, self.size(), at, toward)
    }

    /// The index one step from `at` in the given direction.
    pub open spec fn step(self, at: int, toward: Direction) -> int {
        step(self.width as int, at, toward)
    }

    /// Whether the neighbour of `at` in the given direction is an open cell.
    pub open spec fn open_toward(self, at: int, toward: Direction) -> bool {
        self.can_step(at, toward) && self.is_open(self.step(at, toward))
    }

    /// Whether the neighbour of `at` in the given direction is an open cell
    /// that has not been seen.
    pub open spec fn free_toward(self, seen: Seq<bool>, at: int, toward: Direction) -> bool {
        self.open_toward(at, toward) && !seen[self.step(at, toward)]
    }

    /// Whether `b` is the neighbour of `a` in one of the four directions:
    /// the two lie in one row and in adjoining columns, or in one column and
    /// in adjoining rows.
    pub open spec fn adjacent(self, a: int, b: int) -> bool {
        ||| self.can_step(a, Direction::Up) && self.step(a, Direction::Up) == b
        ||| self.can_step(a, Direction::Down) && self.step(a, Direction::Down) == b
        ||| self.can_step(a, Direction::Left) && self.step(a, Direction::Left) == b
        ||| self.can_step(a, Direction::Right) && self.step(a, Direction::Right) == b
    }

    /// `to` lies `steps` steps from `from` in the given direction, and the
    /// cells from the one to the other are open.
    pub open spec fn corridor(self, from: int, toward: Direction, steps: int, to: int) -> bool
        decreases steps,
    {
        if steps <= 0 {
            steps == 0 && from == to && self.is_open(from)
        } else {
            &&& self.is_open(from)
            &&& self.can_step(from, toward)
            &&& self.corridor(self.step(from, toward), toward, steps - 1, to)
        }
    }

    /// A path: open cells, each the neighbour of the one before it.
    pub open spec fn is_path(self, path: Seq<usize>) -> bool {
        &&& path.len() > 0
        &&& forall|k: int| 0 <= k < path.len() ==> self.is_open(#[trigger] path[k] as int)
        &&& forall|k: int|
            0 <= k < path.len() - 1 ==> self.adjacent(#[trigger] path[k] as int, path[k + 1] as int)
    }

    /// `path` is a path from `from` to `to`.
    pub open spec fn joins(self, path: Seq<usize>, from: int, to: int) -> bool {
        self.is_path(path) && path[0] == from && path.last() == to
    }

    /// Some path leads from `from` to `to`.
    pub open spec fn connected(self, from: int, to: int) -> bool {
        exists|path: Seq<usize>| #[trigger] self.joins(path, from, to)
    }

    /// `at` is the first open cell among the indices from `low` up to, and
    /// not including, `high`.
    pub open spec fn first_open(self, low: int, high: int, at: int) -> bool {
        &&& low <= at < high
        &&& self.is_open(at)
        &&& forall|i: int| low <= i < at ==> !self.is_open(i)
    }

    /// No cell from `low` up to, and not including, `high` is open.
    pub open spec fn none_open(self, low: int, high: int) -> bool {
        forall|i: int| low <= i < high ==> !self.is_open(i)
    }

    /// `at` is the entrance: the first open cell of the first row.
    pub open spec fn entrance(self, at: int) -> bool {
        self.height > 0 && self.first_open(0, self.width as int, at)
    }

    /// The first row holds no open cell.
    pub open spec fn no_entrance(self) -> bool {
        self.height == 0 || self.none_open(0, self.width as int)
    }

    /// `at` is the exit: the first open cell of the last row.
    pub open spec fn exit(self, at: int) -> bool {
        self.height > 0 && self.first_open(self.size() - self.width, self.size(), at)
    }

    /// The last row holds no open cell.
    pub open spec fn no_exit(self) -> bool {
        self.height == 0 || self.none_open(self.size() - self.width, self.size())
    }
}

/// Whether a buffer of `len` bytes holds an image of the given shape.
pub open spec fn fits(len: nat, width: nat, height: nat, greyscale: bool) -> bool {
    len == width * height * channels(greyscale)
}

/// The grid that a pixel buffer of the given shape stands for.
pub open spec fn grid_of(buffer: Seq<u8>, width: nat, height: nat, greyscale: bool) -> Grid {
    Grid {
        width,
        height,
        open: Seq::new(width * height, |i: int| open_at(buffer, i, greyscale)),
    }
}

/// The product of two 32-bit numbers fits in 64 bits.
pub proof fn lemma_area_bound(width: nat, height: nat)
    requires
        width <= u32::MAX,
        height <= u32::MAX,
    ensures
        width * height <= 0xffff_fffe_0000_0001,
{
    assert(width * height <= 0xffff_ffff * 0xffff_ffff) by (nonlinear_arith)
        requires
            width <= 0xffff_ffff,
            height <= 0xffff_ffff,
    ;
}

/// An image with a cell has a column.
pub proof fn lemma_positive_width(width: int, height: int)
    requires
        0 <= width,
        0 <= height,
        0 < width * height,
    ensures
        0 < width,
        0 < height,
        width <= width * height,
{
    assert(0 < width && 0 < height && width <= width * height) by (nonlinear_arith)
        requires
            0 <= width,
            0 <= height,
            0 < width * height,
    ;
}

/// A cell in column `x` of row `y` lies in the image.
pub proof fn lemma_cell_inside(width: int, height: int, x: int, y: int)
    requires
        0 <= x < width,
        0 <= y < height,
    ensures
        0 <= y * width + x < width * height,
{
    assert(0 <= y * width + x < width * height) by (nonlinear_arith)
        requires
            0 <= x < width,
            0 <= y < height,
    ;
}

/// Row and column of a cell lie in the grid, and give its index back.
pub proof fn lemma_row_col(width: int, height: int, at: int)
    requires
        0 <= at < width * height,
        0 < width,
    ensures
        0 <= at % width < width,
        0 <= at / width < height,
        at == (at / width) * width + at % width,
{
    lemma_fundamental_div_mod(at, width);
    lemma_multiply_divide_lt(at, width, height);
    assert(width * (at / width) == (at / width) * width) by (nonlinear_arith);
    assert(at / width >= 0) by (nonlinear_arith)
        requires
            at >= 0,
            width > 0,
    ;
}

/// The cell in column `x` of row `y` has column `x` and row `y`.
pub proof fn lemma_index_row_col(width: int, x: int, y: int)
    requires
        0 <= x < width,
        0 <= y,
    ensures
        (y * width + x) % width == x,
        (y * width + x) / width == y,
{
    lemma_fundamental_div_mod_converse(y * width + x, width, y, x);
}

/// A cell's neighbour in the grid is a cell of the grid, in the adjoining
/// column of the same row or in the adjoining row of the same column.
pub proof fn lemma_step_inside(width: int, height: int, at: int, toward: Direction)
    requires
        0 <= height,
        can_step(width, width * height, at, toward),
    ensures
        0 <= step(width, at, toward) < width * height,
        toward == Direction::Up ==> step(width, at, toward) % width == at % width && step(
            width,
            at,
            toward,
        ) / width == at / width - 1,
        toward == Direction::Down ==> step(width, at, toward) % width == at % width && step(
            width,
            at,
            toward,
        ) / width == at / width + 1,
        toward == Direction::Left ==> step(width, at, toward) % width == at % width - 1 && step(
            width,
            at,
            toward,
        ) / width == at / width,
        toward == Direction::Right ==> step(width, at, toward) % width == at % width + 1 && step(
            width,
            at,
            toward,
        ) / width == at / width,
{
    lemma_row_col(width, height, at);
    let x = at % width;
    let y = at / width;
    match toward {
        Direction::Up => {
            assert(y >= 1) by (nonlinear_arith)
                requires
                    at == y * width + x,
                    at >= width,
                    0 <= x < width,
            ;
            assert((y - 1) * width + x == at - width) by (nonlinear_arith)
                requires
                    at == y * width + x,
            ;
            lemma_index_row_col(width, x, y - 1);
        },
        Direction::Down => {
            assert((y + 1) * width + x == at + width) by (nonlinear_arith)
                requires
                    at == y * width + x,
            ;
            lemma_index_row_col(width, x, y + 1);
        },
        Direction::Left => {
            lemma_index_row_col(width, x - 1, y);
        },
        Direction::Right => {
            lemma_index_row_col(width, x + 1, y);
            assert(y * width + x + 1 < width * height) by (nonlinear_arith)
                requires
                    0 <= y < height,
                    0 <= x,
                    x + 1 < width,
            ;
        },
    }
}

/// A corridor goes on to the open neighbour of its last cell.
pub proof fn lemma_corridor_extend(grid: Grid, from: int, toward: Direction, steps: int, to: int)
    requires
        grid.corridor(from, toward, steps, to),
        grid.open_toward(to, toward),
    ensures
        grid.corridor(from, toward, steps + 1, grid.step(to, toward)),
    decreases steps,
{
    if steps <= 0 {
        assert(grid.corridor(grid.step(to, toward), toward, 0, grid.step(to, toward)));
    } else {
        lemma_corridor_extend(grid, grid.step(from, toward), toward, steps - 1, to);
    }
}

/// The number of cells of an image, if the buffer holds one of that shape.
pub fn cell_count(len: usize, width: u32, height: u32, is_greyscale: bool) -> (count: Option<
    usize,
>)
    ensures
        count is Some <==> fits(len as nat, width as nat, height as nat, is_greyscale),
        count matches Some(cells) ==> cells == width * height,
{
    proof {
        lemma_area_bound(width as nat, height as nat);
    }
    let cells: u128 = (width as u128) * (height as u128);
    let bytes: u128 = if is_greyscale {
        cells
    } else {
        cells * 3
    };
    if bytes == len as u128 {
        Some(cells as usize)
    } else {
        None
    }
}

/// The neighbour of `at` in the given direction, if it lies in the grid.
pub fn neighbor(at: usize, toward: Direction, width: usize, size: usize) -> (next: Option<usize>)
    requires
        at < size,
        width > 0,
    ensures
        next is Some <==> can_step(width as int, size as int, at as int, toward),
        next matches Some(index) ==> index == step(width as int, at as int, toward),
{
    match toward {
        Direction::Up => if at >= width {
            Some(at - width)
        } else {
            None
        },
        Direction::Down => if size - at > width {
            Some(at + width)
        } else {
            None
        },
        Direction::Left => if at % width > 0 {
            assert(at > 0) by {
                vstd::arithmetic::div_mod::lemma_small_mod(0, width as nat);
            }
            Some(at - 1)
        } else {
            None
        },
        Direction::Right => if at % width + 1 < width {
            Some(at + 1)
        } else {
            None
        },
    }
}

/// Whether cell `at` of the image is open.
pub fn cell_is_open(image_buff: &Vec<u8>, at: usize, width: u32, height: u32, is_grey: bool) -> (open:
    bool)
    requires
        fits(image_buff.len() as nat, width as nat, height as nat, is_grey),
        at < width * height,
    ensures
        open == grid_of(image_buff@, width as nat, height as nat, is_grey).is_open(at as int),
{
    is_path(image_buff, at, is_grey)
}

} // verus!
