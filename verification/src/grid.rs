//! Arithmetic of a rectangular tile grid stored row by row: the tile in
//! column `col` of row `row` has index `col + row * width`.

use crate::direction::Direction;
use vstd::arithmetic::div_mod::*;
use vstd::arithmetic::mul::*;
use vstd::prelude::*;

verus! {

pub open spec fn in_grid(width: int, height: int, col: int, row: int) -> bool {
    0 <= col < width && 0 <= row < height
}

pub open spec fn tile_index(width: int, col: int, row: int) -> int {
    col + row * width
}

pub open spec fn col_of(width: int, index: int) -> int {
    index % width
}

pub open spec fn row_of(width: int, index: int) -> int {
    index / width
}

/// Index of the tile next to `index` in direction `d`, or `None` where the
/// grid ends.
pub open spec fn neighbor(width: int, height: int, index: int, d: Direction) -> Option<int> {
    let col = col_of(width, index) + d.dx();
    let row = row_of(width, index) + d.dy();
    if in_grid(width, height, col, row) {
        Some(tile_index(width, col, row))
    } else {
        None
    }
}

/// The direction in which `to` lies next to `from`, if it does.
pub open spec fn direction_between(width: int, from: int, to: int) -> Option<Direction> {
    let dc = col_of(width, to) - col_of(width, from);
    let dr = row_of(width, to) - row_of(width, from);
    if dc == 0 && dr == 1 {
        Some(Direction::North)
    } else if dc == 1 && dr == 0 {
        Some(Direction::East)
    } else if dc == 0 && dr == -1 {
        Some(Direction::South)
    } else if dc == -1 && dr == 0 {
        Some(Direction::West)
    } else if dc == 1 && dr == 1 {
        Some(Direction::NorthEast)
    } else if dc == 1 && dr == -1 {
        Some(Direction::SouthEast)
    } else if dc == -1 && dr == -1 {
        Some(Direction::SouthWest)
    } else if dc == -1 && dr == 1 {
        Some(Direction::NorthWest)
    } else {
        None
    }
}

/// A tile inside the grid has an index below the number of tiles, and its
/// column and row can be read back from the index.
pub proof fn lemma_tile_index(width: int, height: int, col: int, row: int)
    requires
        in_grid(width, height, col, row),
    ensures
        0 <= tile_index(width, col, row) < width * height,
        col_of(width, tile_index(width, col, row)) == col,
        row_of(width, tile_index(width, col, row)) == row,
{
    lemma_mul_inequality(row + 1, height, width);
    lemma_mul_is_distributive_add_other_way(width, row, 1);
    lemma_mul_nonnegative(row, width);
    lemma_fundamental_div_mod_converse(tile_index(width, col, row), width, row, col);
}

/// Every index below the number of tiles belongs to a tile inside the grid.
pub proof fn lemma_coords(width: int, height: int, index: int)
    requires
        0 <= width,
        0 <= height,
        0 <= index < width * height,
    ensures
        0 < width,
        in_grid(width, height, col_of(width, index), row_of(width, index)),
        tile_index(width, col_of(width, index), row_of(width, index)) == index,
{
    if width == 0 {
        lemma_mul_basics(height);
    }
    lemma_fundamental_div_mod(index, width);
    lemma_mod_bound(index, width);
    lemma_div_pos_is_pos(index, width);
    lemma_multiply_divide_lt(index, width, height);
    lemma_mul_is_commutative(width, index / width);
}

/// A neighbour lies inside the grid, one step away, and is not the tile
/// itself.
pub proof fn lemma_neighbor(width: int, height: int, index: int, d: Direction)
    requires
        0 <= width,
        0 <= height,
        0 <= index < width * height,
    ensures
        neighbor(width, height, index, d) matches Some(n) ==> {
            &&& 0 <= n < width * height
            &&& n != index
            &&& col_of(width, n) == col_of(width, index) + d.dx()
            &&& row_of(width, n) == row_of(width, index) + d.dy()
            &&& direction_between(width, index, n) == Some(d)
            &&& neighbor(width, height, n, d.reversed()) == Some(index)
        },
{
    lemma_coords(width, height, index);
    let col = col_of(width, index) + d.dx();
    let row = row_of(width, index) + d.dy();
    if in_grid(width, height, col, row) {
        lemma_tile_index(width, height, col, row);
    }
}

/// Different directions lead to different neighbours.
pub proof fn lemma_neighbors_distinct(
    width: int,
    height: int,
    index: int,
    d: Direction,
    e: Direction,
)
    requires
        0 <= width,
        0 <= height,
        0 <= index < width * height,
        neighbor(width, height, index, d) is Some,
        neighbor(width, height, index, d) == neighbor(width, height, index, e),
    ensures
        d == e,
{
    lemma_neighbor(width, height, index, d);
    lemma_neighbor(width, height, index, e);
}

/// A tile that lies next to `from` is its neighbour in the direction between
/// them.
pub proof fn lemma_direction_between(width: int, height: int, from: int, to: int)
    requires
        0 <= width,
        0 <= height,
        0 <= from < width * height,
        0 <= to < width * height,
    ensures
        direction_between(width, from, to) matches Some(d) ==> neighbor(width, height, from, d)
            == Some(to),
{
    lemma_coords(width, height, from);
    lemma_coords(width, height, to);
}

} // verus!
