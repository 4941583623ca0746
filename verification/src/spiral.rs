//! The spiral goal layout as a mathematical model.
//!
//! The spiral is cut into straight edges. Edge 0 is the whole top row, edge 1
//! the rest of the right column, edge 2 the rest of the bottom row, edge 3 the
//! rest of the left column, edge 4 the top row of the next ring, and so on.
use vstd::prelude::*;

verus! {

/// Number of cells on edge `r` of the spiral of a board of side `size`.
pub open spec fn edge_span(size: int, r: int) -> int {
    size - (r + 1) / 2
}

/// Number of cells that the spiral has not visited before it enters edge `r`.
pub open spec fn cells_left(size: int, r: int) -> int {
    let s = edge_span(size, r);
    if r % 2 == 0 {
        s * s
    } else {
        s * (s + 1)
    }
}

/// The edge that holds the `value`-th cell counted from the start of edge `r`
/// (the first cell has number 1), and the cell's number on that edge.
pub open spec fn locate(value: int, size: int, r: int) -> (int, int)
    decreases value,
{
    let span = edge_span(size, r);
    if value > span && span > 0 {
        locate(value - span, size, r + 1)
    } else {
        (r, value)
    }
}

/// The cell `(x, y)` that is number `k` on edge `r`.
pub open spec fn edge_cell(size: int, r: int, k: int) -> (int, int) {
    let d = r / 4;
    let c = size - 1 - d;
    if r % 4 == 0 {
        (d + k - 1, d)
    } else if r % 4 == 1 {
        (c, d + k)
    } else if r % 4 == 2 {
        (c - k, c)
    } else {
        (d, c - k)
    }
}

/// The place of a tile along the spiral: tile `v` is the `v`-th cell, and the
/// blank (tile 0) takes the last cell.
pub open spec fn spiral_rank(value: int, size: int) -> int {
    if value == 0 {
        size * size
    } else {
        value
    }
}

/// The goal cell `(x, y)` of tile `value` on a board of side `size`.
pub open spec fn goal_cell(value: int, size: int) -> (int, int) {
    let (r, k) = locate(spiral_rank(value, size), size, 0);
    edge_cell(size, r, k)
}

/// The row-major index of the goal cell of tile `value`.
pub open spec fn goal_index(value: int, size: int) -> int {
    let (x, y) = goal_cell(value, size);
    y * size + x
}

/// One step along the spiral keeps the count of cells that are left.
pub proof fn lemma_cells_left_step(size: int, r: int)
    requires
        r >= 0,
    ensures
        cells_left(size, r + 1) == cells_left(size, r) - edge_span(size, r),
        edge_span(size, r + 1) == edge_span(size, r) - (r + 1) % 2,
{
    let s = edge_span(size, r);
    if r % 2 == 0 {
        assert(edge_span(size, r + 1) == s - 1);
        assert((s - 1) * s == s * s - s) by (nonlinear_arith);
    } else {
        assert(edge_span(size, r + 1) == s);
        assert(s * (s + 1) - s == s * s) by (nonlinear_arith);
    }
}

/// The edge that cell `(x, y)` lies on, and the cell's number on that edge.
pub open spec fn cell_edge(size: int, x: int, y: int) -> (int, int) {
    let a = if x < y { x } else { y };
    let b = if size - 1 - x < size - 1 - y { size - 1 - x } else { size - 1 - y };
    let d = if a < b { a } else { b };
    let c = size - 1 - d;
    if y == d {
        (4 * d, x - d + 1)
    } else if x == c {
        (4 * d + 1, y - d)
    } else if y == c {
        (4 * d + 2, c - x)
    } else {
        (4 * d + 3, c - y)
    }
}

/// The place of cell `(x, y)` along the spiral, counted from 1.
pub open spec fn cell_rank(size: int, x: int, y: int) -> int {
    let (r, k) = cell_edge(size, x, y);
    size * size - cells_left(size, r) + k
}

/// The tile whose goal cell is `(x, y)`.
pub open spec fn goal_tile(size: int, x: int, y: int) -> int {
    let rank = cell_rank(size, x, y);
    if rank == size * size {
        0
    } else {
        rank
    }
}

/// Where `locate` ends: on an edge at or after the one it started from, at
/// a number within that edge, and having passed over as many cells as the
/// edges between hold.
pub proof fn lemma_locate(value: int, size: int, r: int)
    requires
        r >= 0,
        1 <= value <= cells_left(size, r),
        edge_span(size, r) >= 0,
    ensures
        locate(value, size, r).0 >= r,
        1 <= locate(value, size, r).1 <= edge_span(size, locate(value, size, r).0),
        cells_left(size, r) - value == cells_left(size, locate(value, size, r).0) - locate(
            value,
            size,
            r,
        ).1,
    decreases value,
{
    let span = edge_span(size, r);
    lemma_span_positive(size, r);
    if value > span {
        lemma_cells_left_step(size, r);
        assert(edge_span(size, r + 1) >= 0);
        lemma_locate(value - span, size, r + 1);
    }
}

/// An edge that still has cells before it is not empty.
pub proof fn lemma_span_positive(size: int, r: int)
    requires
        edge_span(size, r) >= 0,
        cells_left(size, r) >= 1,
    ensures
        edge_span(size, r) >= 1,
{
    let s = edge_span(size, r);
    if s == 0 {
        assert(s * s == 0 && s * (s + 1) == 0) by (nonlinear_arith)
            requires
                s == 0,
        ;
    }
}

/// A cell of an edge lies on the board, and `cell_edge` finds its edge and
/// its number again.
pub proof fn lemma_edge_cell_inverse(size: int, r: int, k: int)
    requires
        r >= 0,
        1 <= k <= edge_span(size, r),
    ensures
        0 <= edge_cell(size, r, k).0 < size,
        0 <= edge_cell(size, r, k).1 < size,
        cell_edge(size, edge_cell(size, r, k).0, edge_cell(size, r, k).1) == (r, k),
{
}

/// The goal cell of a tile lies on the board, and the tile is found again
/// from it.
pub proof fn lemma_goal_tile_inverse(value: int, size: int)
    requires
        size >= 1,
        0 <= value < size * size,
    ensures
        0 <= goal_cell(value, size).0 < size,
        0 <= goal_cell(value, size).1 < size,
        goal_tile(size, goal_cell(value, size).0, goal_cell(value, size).1) == value,
{
    let rank = spiral_rank(value, size);
    assert(cells_left(size, 0) == size * size);
    lemma_locate(rank, size, 0);
    let (r, k) = locate(rank, size, 0);
    lemma_edge_cell_inverse(size, r, k);
}

/// The spiral gives different tiles different goal cells, all on the board.
pub proof fn lemma_goal_cells_distinct(size: int, v1: int, v2: int)
    requires
        size >= 1,
        0 <= v1 < size * size,
        0 <= v2 < size * size,
        v1 != v2,
    ensures
        goal_cell(v1, size) != goal_cell(v2, size),
        0 <= goal_cell(v1, size).0 < size,
        0 <= goal_cell(v1, size).1 < size,
{
    lemma_goal_tile_inverse(v1, size);
    lemma_goal_tile_inverse(v2, size);
}

/// A cell of the board lies on an edge, at a number within it, and the
/// edge's cell of that number is the cell itself.
pub proof fn lemma_cell_edge_inverse(size: int, x: int, y: int)
    requires
        0 <= x < size,
        0 <= y < size,
    ensures
        cell_edge(size, x, y).0 >= 0,
        1 <= cell_edge(size, x, y).1 <= edge_span(size, cell_edge(size, x, y).0),
        edge_cell(size, cell_edge(size, x, y).0, cell_edge(size, x, y).1) == (x, y),
{
}

/// Counting on from edge `r0`, the cell of number `k` on a later edge `r` is
/// found on that edge.
pub proof fn lemma_locate_reaches(size: int, r0: int, r: int, k: int)
    requires
        0 <= r0 <= r,
        1 <= k <= edge_span(size, r),
    ensures
        cells_left(size, r0) >= cells_left(size, r),
        cells_left(size, r) >= k,
        locate(cells_left(size, r0) - cells_left(size, r) + k, size, r0) == (r, k),
    decreases r - r0,
{
    let s = edge_span(size, r);
    assert(s * s >= s && s * (s + 1) >= s) by (nonlinear_arith)
        requires
            s >= 1,
    ;
    if r0 < r {
        lemma_locate_reaches(size, r0 + 1, r, k);
        lemma_cells_left_step(size, r0);
        assert(edge_span(size, r0) >= edge_span(size, r));
    }
}

/// Every cell of the board is the goal cell of a tile.
pub proof fn lemma_goal_cell_onto(size: int, x: int, y: int)
    requires
        0 <= x < size,
        0 <= y < size,
    ensures
        0 <= goal_tile(size, x, y) < size * size,
        goal_cell(goal_tile(size, x, y), size) == (x, y),
{
    lemma_cell_edge_inverse(size, x, y);
    let (r, k) = cell_edge(size, x, y);
    lemma_locate_reaches(size, 0, r, k);
    assert(cells_left(size, 0) == size * size);
}

/// The tile that follows tile `value` along the spiral; the blank follows
/// the last tile.
pub open spec fn next_tile(value: int, size: int) -> int {
    if value + 1 == size * size {
        0
    } else {
        value + 1
    }
}

/// A tile and the tile that follows it along the spiral have goal cells
/// side by side: in one row or one column, one step apart.
pub proof fn lemma_next_tile_adjacent(value: int, size: int)
    requires
        size >= 1,
        1 <= value < size * size,
    ensures
        ({
            let (x1, y1) = goal_cell(value, size);
            let (x2, y2) = goal_cell(next_tile(value, size), size);
            (x1 == x2 && (y1 == y2 + 1 || y2 == y1 + 1)) || (y1 == y2 && (x1 == x2 + 1 || x2 == x1
                + 1))
        }),
{
    assert(cells_left(size, 0) == size * size);
    lemma_locate(value, size, 0);
    let (r, k) = locate(value, size, 0);
    assert(spiral_rank(next_tile(value, size), size) == value + 1);
    if k < edge_span(size, r) {
        lemma_locate_reaches(size, 0, r, k + 1);
    } else {
        lemma_cells_left_step(size, r);
        lemma_span_positive(size, r + 1);
        lemma_locate_reaches(size, 0, r + 1, 1);
    }
}

} // verus!
