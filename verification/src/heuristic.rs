//! Cost estimates from a board to the goal layout.
use vstd::prelude::*;
use crate::board::{cell_index, lemma_cell_index_bound, lemma_cell_index_injective, valid_state};
use crate::parity::{is_goal_layout, lemma_goal_index_distinct};
use crate::solver::Puzzle;
use crate::spiral::{goal_cell, goal_index, lemma_goal_tile_inverse};

verus! {

/// The estimate that a search is run with.
#[derive(Debug, Clone, Copy, PartialEq, Eq, Structural)]
pub enum Heuristic {
    Manhattan,
    Euclidian,
    Hamming,
}

/// Sum over the tiles of the taxicab distance to the goal cell.
pub struct Manhattan {}

/// Whole part of the root of the summed squared offsets to the goal cells.
pub struct Euclidian {}

/// Number of tiles that are not on their goal cell.
pub struct Hamming {}

/// What the tile on cell `(x, y)` adds to the running total of an estimate.
/// The blank adds nothing.
pub open spec fn term(kind: Heuristic, state: Seq<u32>, size: int, x: int, y: int) -> int {
    let t = state[cell_index(size, x, y)] as int;
    let (gx, gy) = goal_cell(t, size);
    let dx = if gx >= x { gx - x } else { x - gx };
    let dy = if gy >= y { gy - y } else { y - gy };
    if t == 0 {
        0
    } else {
        match kind {
            Heuristic::Manhattan => dx + dy,
            Heuristic::Euclidian => dx * dx + dy * dy,
            Heuristic::Hamming => if gx != x || gy != y { 1 } else { 0 },
        }
    }
}

/// Total of the first `n` cells of row `y`.
pub open spec fn row_total(kind: Heuristic, state: Seq<u32>, size: int, y: int, n: int) -> int
    decreases n,
{
    if n <= 0 {
        0
    } else {
        row_total(kind, state, size, y, n - 1) + term(kind, state, size, n - 1, y)
    }
}

/// Total of the first `rows` rows.
pub open spec fn board_total(kind: Heuristic, state: Seq<u32>, size: int, rows: int) -> int
    decreases rows,
{
    if rows <= 0 {
        0
    } else {
        board_total(kind, state, size, rows - 1) + row_total(kind, state, size, rows - 1, size)
    }
}

/// `r` is the whole part of the square root of `t`.
pub open spec fn is_root(r: int, t: int) -> bool {
    0 <= r && r * r <= t < (r + 1) * (r + 1)
}

/// The whole part of the square root of `t`.
pub open spec fn whole_root(t: int) -> int {
    choose|r: int| is_root(r, t)
}

/// The value of an estimate on a board.
pub open spec fn estimate(kind: Heuristic, state: Seq<u32>, size: int) -> int {
    let total = board_total(kind, state, size, size);
    match kind {
        Heuristic::Euclidian => whole_root(total),
        _ => total,
    }
}

/// The most that one tile adds to a running total.
pub open spec fn term_cap(kind: Heuristic) -> int {
    match kind {
        Heuristic::Manhattan => 0x2_0000,
        Heuristic::Euclidian => 0x2_0000_0000,
        Heuristic::Hamming => 1,
    }
}

/// A number has one whole root at most.
pub proof fn lemma_root_unique(r1: int, r2: int, t: int)
    requires
        is_root(r1, t),
        is_root(r2, t),
    ensures
        r1 == r2,
{
    if r1 < r2 {
        assert((r1 + 1) * (r1 + 1) <= r2 * r2) by (nonlinear_arith)
            requires
                0 <= r1,
                r1 + 1 <= r2,
        ;
    } else if r2 < r1 {
        assert((r2 + 1) * (r2 + 1) <= r1 * r1) by (nonlinear_arith)
            requires
                0 <= r2,
                r2 + 1 <= r1,
        ;
    }
}

/// The whole part of the square root, by bisection.
pub fn integer_root(t: u128) -> (r: u64)
    ensures
        r == whole_root(t as int),
        is_root(r as int, t as int),
{
    let mut lo: u128 = 0;
    let mut hi: u128 = 0x1_0000_0000_0000_0000;
    assert(0x1_0000_0000_0000_0000int * 0x1_0000_0000_0000_0000int > u128::MAX) by (nonlinear_arith);
    while hi - lo > 1
        invariant
            lo < hi <= 0x1_0000_0000_0000_0000,
            lo * lo <= t,
            t < hi * hi,
        decreases hi - lo,
    {
        let mid: u128 = lo + (hi - lo) / 2;
        assert(mid * mid < 0x1_0000_0000_0000_0000int * 0x1_0000_0000_0000_0000int)
            by (nonlinear_arith)
            requires
                0 <= mid < 0x1_0000_0000_0000_0000,
        ;
        if mid * mid <= t {
            lo = mid;
        } else {
            hi = mid;
        }
    }
    proof {
        assert(is_root(lo as int, t as int));
        lemma_root_unique(lo as int, whole_root(t as int), t as int);
    }
    lo as u64
}

/// The running total of an estimate over the whole board.
fn accumulate(puzzle: &Puzzle, state: &[u32], kind: Heuristic) -> (acc: u128)
    requires
        puzzle.table_ready(),
        state@.len() == puzzle.size * puzzle.size,
        forall|p: int| 0 <= p < state@.len() ==> (#[trigger] state@[p]) < puzzle.size * puzzle.size,
    ensures
        acc == board_total(kind, state@, puzzle.size as int, puzzle.size as int),
        acc <= puzzle.size * puzzle.size * term_cap(kind),
{
    broadcast use vstd::std_specs::hash::group_hash_axioms;

    let size: u32 = puzzle.size;
    let ghost n = size as int;
    let ghost cap = term_cap(kind);
    assert(size <= 0xffff) by (nonlinear_arith)
        requires
            size * size <= u32::MAX,
    ;
    let mut acc: u128 = 0;
    let mut i: u32 = 0;
    while i < size
        invariant
            puzzle.table_ready(),
            size == puzzle.size,
            n == size,
            cap == term_cap(kind),
            size <= 0xffff,
            state@.len() == n * n,
            forall|p: int| 0 <= p < state@.len() ==> (#[trigger] state@[p]) < n * n,
            i <= size,
            acc == board_total(kind, state@, n, i as int),
            acc <= i * n * cap,
        decreases size - i,
    {
        let mut row: u128 = 0;
        let mut j: u32 = 0;
        while j < size
            invariant
                puzzle.table_ready(),
                size == puzzle.size,
                n == size,
                cap == term_cap(kind),
                size <= 0xffff,
                state@.len() == n * n,
                forall|p: int| 0 <= p < state@.len() ==> (#[trigger] state@[p]) < n * n,
                i < size,
                j <= size,
                row == row_total(kind, state@, n, i as int, j as int),
                row <= j * cap,
            decreases size - j,
        {
            proof {
                lemma_cell_index_bound(n, j as int, i as int);
            }
            let tile: u32 = state[(i * size + j) as usize];
            if tile != 0 {
                let coord = puzzle.coords.get(&tile).unwrap();
                let dx: u128 = if coord.x >= j { (coord.x - j) as u128 } else { (j - coord.x) as u128 };
                let dy: u128 = if coord.y >= i { (coord.y - i) as u128 } else { (i - coord.y) as u128 };
                assert(dx * dx + dy * dy <= 0x2_0000_0000) by (nonlinear_arith)
                    requires
                        0 <= dx <= 0xffff,
                        0 <= dy <= 0xffff,
                ;
                let add: u128 = match kind {
                    Heuristic::Manhattan => dx + dy,
                    Heuristic::Euclidian => dx * dx + dy * dy,
                    Heuristic::Hamming => if dx != 0 || dy != 0 { 1 } else { 0 },
                };
                assert(add == term(kind, state@, n, j as int, i as int));
                row = row + add;
            }
            j += 1;
            assert(row <= j * cap) by (nonlinear_arith)
                requires
                    row <= (j - 1) * cap + cap,
            ;
        }
        assert(acc + row <= (i + 1) * n * cap) by (nonlinear_arith)
            requires
                acc <= i * n * cap,
                row <= n * cap,
        ;
        assert((i + 1) * n * cap <= 0x1_0000 * 0x1_0000 * 0x2_0000_0000) by (nonlinear_arith)
            requires
                0 <= i + 1 <= 0x1_0000,
                0 <= n <= 0x1_0000,
                0 <= cap <= 0x2_0000_0000,
        ;
        acc = acc + row;
        i += 1;
    }
    acc
}

impl Manhattan {
    /// The sum over all tiles of the taxicab distance to the goal cell.
    pub fn heuristic(puzzle: &Puzzle, state: &[u32]) -> (h: u64)
        requires
            puzzle.table_ready(),
            state@.len() == puzzle.size * puzzle.size,
            forall|p: int| 0 <= p < state@.len() ==> (#[trigger] state@[p]) < puzzle.size * puzzle.size,
        ensures
            h == estimate(Heuristic::Manhattan, state@, puzzle.size as int),
    {
        let total = accumulate(puzzle, state, Heuristic::Manhattan);
        assert(total <= 0xffff_ffff * 0x2_0000) by (nonlinear_arith)
            requires
                total <= puzzle.size * puzzle.size * 0x2_0000,
                puzzle.size * puzzle.size <= 0xffff_ffff,
        ;
        total as u64
    }
}

impl Euclidian {
    /// The sum, over all tiles, of the squared column and row offsets to the
    /// goal cell; the estimate is the whole part of its root.
    pub fn sum_of_squares(puzzle: &Puzzle, state: &[u32]) -> (sum: u128)
        requires
            puzzle.table_ready(),
            state@.len() == puzzle.size * puzzle.size,
            forall|p: int| 0 <= p < state@.len() ==> (#[trigger] state@[p]) < puzzle.size * puzzle.size,
        ensures
            sum == board_total(Heuristic::Euclidian, state@, puzzle.size as int, puzzle.size as int),
    {
        accumulate(puzzle, state, Heuristic::Euclidian)
    }

    /// The whole part of the root of the sum, over all tiles, of the squared
    /// column and row offsets to the goal cell.
    pub fn heuristic(puzzle: &Puzzle, state: &[u32]) -> (h: u64)
        requires
            puzzle.table_ready(),
            state@.len() == puzzle.size * puzzle.size,
            forall|p: int| 0 <= p < state@.len() ==> (#[trigger] state@[p]) < puzzle.size * puzzle.size,
        ensures
            h == estimate(Heuristic::Euclidian, state@, puzzle.size as int),
    {
        integer_root(accumulate(puzzle, state, Heuristic::Euclidian))
    }
}

impl Hamming {
    /// The number of tiles that are not on their goal cell.
    pub fn heuristic(puzzle: &Puzzle, state: &[u32]) -> (h: u64)
        requires
            puzzle.table_ready(),
            state@.len() == puzzle.size * puzzle.size,
            forall|p: int| 0 <= p < state@.len() ==> (#[trigger] state@[p]) < puzzle.size * puzzle.size,
        ensures
            h == estimate(Heuristic::Hamming, state@, puzzle.size as int),
    {
        let total = accumulate(puzzle, state, Heuristic::Hamming);
        total as u64
    }
}

/// The tile on cell `(x, y)` is the blank or lies on its goal cell.
pub open spec fn settled(state: Seq<u32>, size: int, x: int, y: int) -> bool {
    let t = state[cell_index(size, x, y)] as int;
    t == 0 || goal_cell(t, size) == (x, y)
}

/// A tile adds nothing to a total exactly when it is settled, and never
/// less than nothing.
pub proof fn lemma_term_zero(kind: Heuristic, state: Seq<u32>, size: int, x: int, y: int)
    ensures
        term(kind, state, size, x, y) >= 0,
        term(kind, state, size, x, y) == 0 <==> settled(state, size, x, y),
{
    let t = state[cell_index(size, x, y)] as int;
    let (gx, gy) = goal_cell(t, size);
    let dx = if gx >= x { gx - x } else { x - gx };
    let dy = if gy >= y { gy - y } else { y - gy };
    assert(dx * dx >= 0 && dy * dy >= 0 && (dx * dx == 0 <==> dx == 0) && (dy * dy == 0 <==> dy
        == 0)) by (nonlinear_arith)
        requires
            dx >= 0,
            dy >= 0,
    ;
}

/// The total of a row is zero exactly when its tiles are settled.
pub proof fn lemma_row_zero(kind: Heuristic, state: Seq<u32>, size: int, y: int, n: int)
    ensures
        row_total(kind, state, size, y, n) >= 0,
        row_total(kind, state, size, y, n) == 0 <==> forall|x: int|
            0 <= x < n ==> settled(state, size, x, y),
    decreases n,
{
    if n > 0 {
        lemma_row_zero(kind, state, size, y, n - 1);
        lemma_term_zero(kind, state, size, n - 1, y);
        if row_total(kind, state, size, y, n) == 0 {
            assert forall|x: int| 0 <= x < n implies settled(state, size, x, y) by {
                if x < n - 1 {
                }
            }
        }
    }
}

/// The total of the first rows is zero exactly when their tiles are settled.
pub proof fn lemma_board_zero(kind: Heuristic, state: Seq<u32>, size: int, rows: int)
    ensures
        board_total(kind, state, size, rows) >= 0,
        board_total(kind, state, size, rows) == 0 <==> forall|x: int, y: int|
            0 <= x < size && 0 <= y < rows ==> settled(state, size, x, y),
    decreases rows,
{
    if rows > 0 {
        lemma_board_zero(kind, state, size, rows - 1);
        lemma_row_zero(kind, state, size, rows - 1, size);
        if board_total(kind, state, size, rows) == 0 {
            assert forall|x: int, y: int| 0 <= x < size && 0 <= y < rows implies settled(
                state,
                size,
                x,
                y,
            ) by {
                if y < rows - 1 {
                }
            }
        }
    }
}

/// Every number from zero on has a whole root.
pub proof fn lemma_root_exists(t: int)
    requires
        t >= 0,
    ensures
        is_root(whole_root(t), t),
    decreases t,
{
    if t == 0 {
        assert(is_root(0, 0));
    } else {
        lemma_root_exists(t - 1);
        let r = whole_root(t - 1);
        if (r + 1) * (r + 1) <= t {
            assert((r + 1) * (r + 1) < (r + 2) * (r + 2)) by (nonlinear_arith)
                requires
                    r >= 0,
            ;
            assert(is_root(r + 1, t));
        } else {
            assert(is_root(r, t));
        }
    }
}

/// On a valid board every tile is settled exactly when the board is the
/// goal layout: the blank then lies on its goal cell too.
pub proof fn lemma_settled_is_goal(state: Seq<u32>, size: int)
    requires
        size >= 1,
        valid_state(state, size),
    ensures
        is_goal_layout(state, size) <==> forall|x: int, y: int|
            0 <= x < size && 0 <= y < size ==> settled(state, size, x, y),
{
    if is_goal_layout(state, size) {
        assert forall|x: int, y: int| 0 <= x < size && 0 <= y < size implies settled(
            state,
            size,
            x,
            y,
        ) by {
            lemma_cell_index_bound(size, x, y);
            let p = cell_index(size, x, y);
            let t = state[p] as int;
            assert(goal_index(t, size) == p);
            lemma_goal_tile_inverse(t, size);
            lemma_cell_index_injective(size, goal_cell(t, size).0, goal_cell(t, size).1, x, y);
        }
    }
    if forall|x: int, y: int| 0 <= x < size && 0 <= y < size ==> settled(state, size, x, y) {
        assert(0 < size * size) by (nonlinear_arith)
            requires
                size >= 1,
        ;
        lemma_goal_tile_inverse(0, size);
        let (bx, by) = goal_cell(0, size);
        lemma_cell_index_bound(size, bx, by);
        let q = cell_index(size, bx, by);
        assert(settled(state, size, bx, by));
        if state[q] != 0 {
            lemma_goal_index_distinct(size, state[q] as int, 0);
        }
        assert forall|p: int| 0 <= p < state.len() implies goal_index(
            (#[trigger] state[p]) as int,
            size,
        ) == p by {
            let x = p % size;
            let y = p / size;
            assert(y * size + x == p && 0 <= y < size) by (nonlinear_arith)
                requires
                    size >= 1,
                    0 <= p < size * size,
                    x == p % size,
                    y == p / size,
            ;
            assert(settled(state, size, x, y));
            if state[p] == 0 {
                if p < q {
                    assert(state[p] != state[q]);
                } else if q < p {
                    assert(state[q] != state[p]);
                }
            }
        }
    }
}

/// An estimate of a valid board is zero exactly when the board is the goal
/// layout, whichever estimate it is.
pub proof fn lemma_estimate_zero_iff_goal(kind: Heuristic, state: Seq<u32>, size: int)
    requires
        size >= 1,
        valid_state(state, size),
    ensures
        estimate(kind, state, size) >= 0,
        estimate(kind, state, size) == 0 <==> is_goal_layout(state, size),
{
    lemma_board_zero(kind, state, size, size);
    lemma_settled_is_goal(state, size);
    let total = board_total(kind, state, size, size);
    lemma_root_exists(total);
    let root = whole_root(total);
    if total == 0 {
        assert(is_root(0, 0));
        lemma_root_unique(0, root, total);
    } else {
        assert(root != 0) by {
            if root == 0 {
                assert(is_root(0, total));
                assert((0 + 1) * (0 + 1) == 1) by (nonlinear_arith);
            }
        }
    }
    assert(estimate(kind, state, size) == 0 <==> total == 0) by {
        match kind {
            Heuristic::Manhattan => {},
            Heuristic::Euclidian => {},
            Heuristic::Hamming => {},
        }
    }
    assert(estimate(kind, state, size) >= 0);
}

/// The three estimates are zero on the same valid boards.
pub proof fn lemma_estimates_agree_on_zero(a: Heuristic, b: Heuristic, state: Seq<u32>, size: int)
    requires
        size >= 1,
        valid_state(state, size),
    ensures
        estimate(a, state, size) == 0 <==> estimate(b, state, size) == 0,
{
    lemma_estimate_zero_iff_goal(a, state, size);
    lemma_estimate_zero_iff_goal(b, state, size);
}

} // verus!
