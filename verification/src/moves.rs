//! What a move of the blank changes: an estimate by one at most, and never
//! whether the board can be solved.
use vstd::prelude::*;
use crate::board::{lemma_valid_has_blank, blank_at, lemma_blank_unique, can_move, cell_index, is_move, is_walk, lemma_cell_index_bound, lemma_cell_index_injective, lemma_swapped_valid, moved, target, valid_state};
use crate::heuristic::{board_total, estimate, lemma_board_zero, lemma_root_exists, lemma_root_unique, row_total, term, whole_root, Heuristic};
use crate::heuristic::lemma_estimate_zero_iff_goal;
use crate::parity::{is_goal_layout, lemma_sorted_no_inversions, lemma_swap_flips, solvable, targets};
use crate::heuristic::settled;
use crate::spiral::{goal_cell, goal_index, lemma_goal_cells_distinct, lemma_goal_tile_inverse};

verus! {

/// Putting tile `v` on cell `(px, py)` changes the total of the first `n`
/// cells of row `y` by what that cell adds after and before, if it is among
/// them.
pub proof fn lemma_row_update(
    kind: Heuristic,
    s: Seq<u32>,
    size: int,
    y: int,
    n: int,
    px: int,
    py: int,
    v: u32,
)
    requires
        0 <= px < size,
        0 <= py < size,
        0 <= y < size,
        0 <= n <= size,
        s.len() == size * size,
    ensures
        row_total(kind, s.update(cell_index(size, px, py), v), size, y, n) == row_total(
            kind,
            s,
            size,
            y,
            n,
        ) + if y == py && px < n {
            term(kind, s.update(cell_index(size, px, py), v), size, px, py) - term(
                kind,
                s,
                size,
                px,
                py,
            )
        } else {
            0
        },
    decreases n,
{
    if n > 0 {
        lemma_row_update(kind, s, size, y, n - 1, px, py, v);
        lemma_cell_index_bound(size, px, py);
        lemma_cell_index_bound(size, n - 1, y);
        if cell_index(size, n - 1, y) == cell_index(size, px, py) {
            lemma_cell_index_injective(size, n - 1, y, px, py);
        }
    }
}

/// Putting tile `v` on cell `(px, py)` changes the total of the first rows
/// by what that cell adds after and before, if it is in them.
pub proof fn lemma_board_update(
    kind: Heuristic,
    s: Seq<u32>,
    size: int,
    rows: int,
    px: int,
    py: int,
    v: u32,
)
    requires
        0 <= px < size,
        0 <= py < size,
        0 <= rows <= size,
        s.len() == size * size,
    ensures
        board_total(kind, s.update(cell_index(size, px, py), v), size, rows) == board_total(
            kind,
            s,
            size,
            rows,
        ) + if py < rows {
            term(kind, s.update(cell_index(size, px, py), v), size, px, py) - term(
                kind,
                s,
                size,
                px,
                py,
            )
        } else {
            0
        },
    decreases rows,
{
    if rows > 0 {
        lemma_board_update(kind, s, size, rows - 1, px, py, v);
        lemma_row_update(kind, s, size, rows - 1, size, px, py, v);
    }
}

/// One move of the blank lowers an estimate by one at most.
pub proof fn lemma_move_lowers_by_one(
    kind: Heuristic,
    a: Seq<u32>,
    size: int,
    bx: int,
    by: int,
    dir: int,
)
    requires
        valid_state(a, size),
        blank_at(a, size, bx, by),
        can_move(size, bx, by, dir),
    ensures
        valid_state(moved(a, size, bx, by, dir), size),
        estimate(kind, a, size) <= estimate(kind, moved(a, size, bx, by, dir), size) + 1,
{
    let (tx, ty) = target(bx, by, dir);
    lemma_cell_index_bound(size, bx, by);
    lemma_cell_index_bound(size, tx, ty);
    let from = cell_index(size, bx, by);
    let to = cell_index(size, tx, ty);
    if from == to {
        lemma_cell_index_injective(size, bx, by, tx, ty);
    }
    lemma_swapped_valid(a, size, to, from);
    let mid = a.update(to, a[from]);
    let b = moved(a, size, bx, by, dir);
    assert(b == mid.update(from, a[to]));
    lemma_board_update(kind, a, size, size, tx, ty, a[from]);
    lemma_board_update(kind, mid, size, size, bx, by, a[to]);
    assert(mid[from] == 0);
    assert(mid[to] == 0);
    assert(b[from] == a[to]);
    assert(term(kind, mid, size, tx, ty) == 0);
    assert(term(kind, mid, size, bx, by) == 0);
    match kind {
        Heuristic::Euclidian => {
            let total_a = board_total(kind, a, size, size);
            let total_b = board_total(kind, b, size, size);
            lemma_board_zero(kind, a, size, size);
            lemma_board_zero(kind, mid, size, size);
            lemma_board_zero(kind, b, size, size);
            lemma_root_exists(total_a);
            lemma_root_exists(total_b);
            let ra = whole_root(total_a);
            let rb = whole_root(total_b);
            let (gx, gy) = goal_cell(a[to] as int, size);
            let e = if dir < 2 {
                if gx >= bx { gx - bx } else { bx - gx }
            } else {
                if gy >= by { gy - by } else { by - gy }
            };
            let fixed = if dir < 2 {
                if gy >= by { gy - by } else { by - gy }
            } else {
                if gx >= bx { gx - bx } else { bx - gx }
            };
            let da = term(kind, a, size, tx, ty);
            let db = term(kind, b, size, bx, by);
            if a[to] != 0 {
                assert(db == e * e + fixed * fixed);
                assert(da <= (e + 1) * (e + 1) + fixed * fixed) by (nonlinear_arith)
                    requires
                        e >= 0,
                        da == (e + 1) * (e + 1) + fixed * fixed || da == (e - 1) * (e - 1) + fixed
                            * fixed,
                ;
                assert((e + 1) * (e + 1) == e * e + 2 * e + 1) by (nonlinear_arith);
                assert(fixed * fixed >= 0) by (nonlinear_arith);
                assert(total_a <= total_b + 2 * e + 1);
                assert(e * e <= total_b);
                assert(e <= rb) by (nonlinear_arith)
                    requires
                        e >= 0,
                        rb >= 0,
                        e * e <= total_b,
                        total_b < (rb + 1) * (rb + 1),
                ;
                assert(ra <= rb + 1) by (nonlinear_arith)
                    requires
                        ra >= 0,
                        rb >= 0,
                        0 <= e <= rb,
                        ra * ra <= total_a,
                        total_a <= total_b + 2 * e + 1,
                        total_b < (rb + 1) * (rb + 1),
                ;
            } else {
                lemma_root_unique(ra, rb, total_a);
            }
        },
        _ => {
            assert(term(kind, a, size, tx, ty) <= term(kind, b, size, bx, by) + 1);
        },
    }
}

/// Every board of a walk that starts at a valid board is valid.
pub proof fn lemma_walk_valid(p: Seq<Seq<u32>>, size: int, k: int)
    requires
        p.len() >= 1,
        valid_state(p[0], size),
        is_walk(p, size),
        0 <= k < p.len(),
    ensures
        valid_state(p[k], size),
    decreases k,
{
    if k > 0 {
        lemma_walk_valid(p, size, k - 1);
        assert(is_move(p[k - 1], p[k - 1 + 1], size));
        let (bx, by, dir) = choose|bx: int, by: int, dir: int|
            blank_at(p[k - 1], size, bx, by) && can_move(size, bx, by, dir) && p[k]
                == #[trigger] moved(p[k - 1], size, bx, by, dir);
        lemma_move_lowers_by_one(Heuristic::Manhattan, p[k - 1], size, bx, by, dir);
    }
}

/// On a walk from a valid board, an estimate of board `k` is at most the
/// estimate of the last board plus the number of moves that the walk still
/// makes from board `k`.
pub proof fn lemma_estimate_chain(kind: Heuristic, p: Seq<Seq<u32>>, size: int, k: int)
    requires
        p.len() >= 1,
        valid_state(p[0], size),
        is_walk(p, size),
        0 <= k < p.len(),
    ensures
        estimate(kind, p[k], size) <= estimate(kind, p.last(), size) + p.len() - 1 - k,
    decreases p.len() - k,
{
    if k < p.len() - 1 {
        lemma_estimate_chain(kind, p, size, k + 1);
        lemma_walk_valid(p, size, k);
        assert(is_move(p[k], p[k + 1], size));
        let (bx, by, dir) = choose|bx: int, by: int, dir: int|
            blank_at(p[k], size, bx, by) && can_move(size, bx, by, dir) && p[k + 1]
                == #[trigger] moved(p[k], size, bx, by, dir);
        lemma_move_lowers_by_one(kind, p[k], size, bx, by, dir);
    }
}

/// On a walk from a valid board to a board of estimate zero, the estimate of
/// board `k` is at most the number of moves that the walk still makes from it.
pub proof fn lemma_estimate_below_moves_left(kind: Heuristic, p: Seq<Seq<u32>>, size: int, k: int)
    requires
        p.len() >= 1,
        valid_state(p[0], size),
        is_walk(p, size),
        estimate(kind, p.last(), size) == 0,
        0 <= k < p.len(),
    ensures
        estimate(kind, p[k], size) <= p.len() - 1 - k,
{
    lemma_estimate_chain(kind, p, size, k);
}

/// An estimate of a valid board never exceeds the number of moves of a walk
/// from it to a board of estimate zero, so never the least such number.
pub proof fn lemma_admissible(kind: Heuristic, p: Seq<Seq<u32>>, size: int)
    requires
        p.len() >= 1,
        valid_state(p[0], size),
        is_walk(p, size),
        estimate(kind, p.last(), size) == 0,
    ensures
        estimate(kind, p[0], size) <= p.len() - 1,
{
    lemma_estimate_below_moves_left(kind, p, size, 0);
}

/// A move of the blank leaves a board that can be solved one that can be
/// solved, and one that cannot one that cannot.
pub proof fn lemma_move_keeps_solvable(a: Seq<u32>, size: int, bx: int, by: int, dir: int)
    requires
        size >= 1,
        valid_state(a, size),
        blank_at(a, size, bx, by),
        can_move(size, bx, by, dir),
    ensures
        blank_at(moved(a, size, bx, by, dir), size, target(bx, by, dir).0, target(bx, by, dir).1),
        solvable(moved(a, size, bx, by, dir), size, target(bx, by, dir).0, target(bx, by, dir).1)
            == solvable(a, size, bx, by),
{
    let (tx, ty) = target(bx, by, dir);
    lemma_cell_index_bound(size, bx, by);
    lemma_cell_index_bound(size, tx, ty);
    let from = cell_index(size, bx, by);
    let to = cell_index(size, tx, ty);
    if from == to {
        lemma_cell_index_injective(size, bx, by, tx, ty);
    }
    lemma_swap_flips(a, size, to, from);
}

/// The goal layout can be solved.
pub proof fn lemma_goal_is_solvable(s: Seq<u32>, size: int, x: int, y: int)
    requires
        size >= 1,
        valid_state(s, size),
        is_goal_layout(s, size),
        blank_at(s, size, x, y),
    ensures
        solvable(s, size, x, y),
{
    let t = targets(s, size);
    assert forall|i: int| 0 <= i < t.len() implies t[i] == i by {
        assert(goal_index(s[i] as int, size) == i);
    }
    lemma_sorted_no_inversions(t, s.len() as int);
    lemma_cell_index_bound(size, x, y);
    let p = cell_index(size, x, y);
    assert(goal_index(s[p] as int, size) == p);
    assert(0 < size * size) by (nonlinear_arith)
        requires
            size >= 1,
    ;
    lemma_goal_tile_inverse(0, size);
    lemma_cell_index_injective(size, goal_cell(0, size).0, goal_cell(0, size).1, x, y);
}

/// Along a walk from a valid board with its blank on `(x, y)`, every board
/// has its blank on some cell with which it can be solved exactly if the
/// first board can.
pub proof fn lemma_walk_keeps_solvable(p: Seq<Seq<u32>>, size: int, x: int, y: int, k: int) -> (at:
    (int, int))
    requires
        size >= 1,
        p.len() >= 1,
        valid_state(p[0], size),
        blank_at(p[0], size, x, y),
        is_walk(p, size),
        0 <= k < p.len(),
    ensures
        valid_state(p[k], size),
        blank_at(p[k], size, at.0, at.1),
        solvable(p[k], size, at.0, at.1) == solvable(p[0], size, x, y),
    decreases k,
{
    if k == 0 {
        (x, y)
    } else {
        let before = lemma_walk_keeps_solvable(p, size, x, y, k - 1);
        assert(is_move(p[k - 1], p[k - 1 + 1], size));
        let (bx, by, dir) = choose|bx: int, by: int, dir: int|
            blank_at(p[k - 1], size, bx, by) && can_move(size, bx, by, dir) && p[k]
                == #[trigger] moved(p[k - 1], size, bx, by, dir);
        lemma_blank_unique(p[k - 1], size, bx, by, before.0, before.1);
        lemma_move_keeps_solvable(p[k - 1], size, bx, by, dir);
        lemma_walk_valid(p, size, k);
        target(bx, by, dir)
    }
}

/// A valid board that fails the solvability test has no walk to the goal
/// layout: every walk from it ends at a board whose estimates are not zero.
pub proof fn lemma_unsolvable_never_solved(
    kind: Heuristic,
    p: Seq<Seq<u32>>,
    size: int,
    x: int,
    y: int,
)
    requires
        size >= 1,
        p.len() >= 1,
        valid_state(p[0], size),
        blank_at(p[0], size, x, y),
        !solvable(p[0], size, x, y),
        is_walk(p, size),
    ensures
        estimate(kind, p.last(), size) != 0,
{
    let at = lemma_walk_keeps_solvable(p, size, x, y, p.len() - 1);
    lemma_estimate_zero_iff_goal(kind, p.last(), size);
    if is_goal_layout(p.last(), size) {
        lemma_goal_is_solvable(p.last(), size, at.0, at.1);
    }
}

/// One move of the blank changes the taxicab estimate by exactly one.
pub proof fn lemma_move_changes_taxicab(a: Seq<u32>, size: int, bx: int, by: int, dir: int)
    requires
        valid_state(a, size),
        blank_at(a, size, bx, by),
        can_move(size, bx, by, dir),
    ensures
        ({
            let before = estimate(Heuristic::Manhattan, a, size);
            let after = estimate(Heuristic::Manhattan, moved(a, size, bx, by, dir), size);
            after == before + 1 || after == before - 1
        }),
{
    let kind = Heuristic::Manhattan;
    let (tx, ty) = target(bx, by, dir);
    lemma_cell_index_bound(size, bx, by);
    lemma_cell_index_bound(size, tx, ty);
    let from = cell_index(size, bx, by);
    let to = cell_index(size, tx, ty);
    if from == to {
        lemma_cell_index_injective(size, bx, by, tx, ty);
    }
    if from < to {
        assert(a[from] != a[to]);
    } else {
        assert(a[to] != a[from]);
    }
    let mid = a.update(to, a[from]);
    let b = moved(a, size, bx, by, dir);
    assert(b == mid.update(from, a[to]));
    lemma_board_update(kind, a, size, size, tx, ty, a[from]);
    lemma_board_update(kind, mid, size, size, bx, by, a[to]);
    assert(mid[from] == 0);
    assert(mid[to] == 0);
    assert(b[from] == a[to]);
    assert(term(kind, mid, size, tx, ty) == 0);
    assert(term(kind, mid, size, bx, by) == 0);
    let d = term(kind, a, size, tx, ty) - term(kind, b, size, bx, by);
    assert(d == 1 || d == -1);
}

/// The misplaced-tile count of the first cells of a row is at most their
/// number and at most their taxicab total.
pub proof fn lemma_row_misplaced(state: Seq<u32>, size: int, y: int, n: int)
    requires
        0 <= n,
    ensures
        row_total(Heuristic::Hamming, state, size, y, n) <= n,
        row_total(Heuristic::Hamming, state, size, y, n) <= row_total(
            Heuristic::Manhattan,
            state,
            size,
            y,
            n,
        ),
    decreases n,
{
    if n > 0 {
        lemma_row_misplaced(state, size, y, n - 1);
    }
}

/// The misplaced-tile count of the first rows is at most the number of
/// their cells and at most their taxicab total.
pub proof fn lemma_board_misplaced(state: Seq<u32>, size: int, rows: int)
    requires
        0 <= rows,
        0 <= size,
    ensures
        board_total(Heuristic::Hamming, state, size, rows) <= rows * size,
        board_total(Heuristic::Hamming, state, size, rows) <= board_total(
            Heuristic::Manhattan,
            state,
            size,
            rows,
        ),
    decreases rows,
{
    if rows > 0 {
        lemma_board_misplaced(state, size, rows - 1);
        lemma_row_misplaced(state, size, rows - 1, size);
        assert((rows - 1) * size + size == rows * size) by (nonlinear_arith);
    } else {
        assert(rows * size == 0) by (nonlinear_arith)
            requires
                rows == 0,
        ;
    }
}

/// The misplaced-tile estimate of a valid board is at most the taxicab
/// estimate and at most the number of tiles, which is one less than the
/// number of cells.
pub proof fn lemma_misplaced_estimate_bounds(state: Seq<u32>, size: int)
    requires
        size >= 1,
        valid_state(state, size),
    ensures
        estimate(Heuristic::Hamming, state, size) <= estimate(Heuristic::Manhattan, state, size),
        estimate(Heuristic::Hamming, state, size) <= size * size - 1,
{
    let kind = Heuristic::Hamming;
    lemma_board_misplaced(state, size, size);
    lemma_valid_has_blank(state, size);
    let p = choose|p: int| 0 <= p < state.len() && #[trigger] state[p] == 0;
    let x = p % size;
    let y = p / size;
    assert(y * size + x == p && 0 <= y < size && 0 <= x < size) by (nonlinear_arith)
        requires
            size >= 1,
            0 <= p < size * size,
            x == p % size,
            y == p / size,
    ;
    if size >= 2 {
        assert(size * size >= 4) by (nonlinear_arith)
            requires
                size >= 2,
        ;
        lemma_goal_cells_distinct(size, 1, 2);
        let w: u32 = if goal_cell(1, size) == (x, y) { 2 } else { 1 };
        let other = state.update(p, w);
        lemma_board_update(kind, state, size, size, x, y, w);
        lemma_board_misplaced(other, size, size);
        assert(term(kind, other, size, x, y) == 1);
        assert(term(kind, state, size, x, y) == 0);
    } else {
        lemma_board_zero(kind, state, size, size);
        assert(size * size == 1) by (nonlinear_arith)
            requires
                size == 1,
        ;
        assert forall|cx: int, cy: int| 0 <= cx < size && 0 <= cy < size implies settled(
            state,
            size,
            cx,
            cy,
        ) by {
            assert(cell_index(size, cx, cy) == 0) by (nonlinear_arith)
                requires
                    cx == 0,
                    cy == 0,
                    cell_index(size, cx, cy) == cy * size + cx,
            ;
        }
    }
}

} // verus!
