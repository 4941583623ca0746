//! Boards as sequences of tiles in row-major order, and the moves of the blank.
use vstd::prelude::*;

verus! {

/// The row-major index of cell `(x, y)`.
pub open spec fn cell_index(size: int, x: int, y: int) -> int {
    y * size + x
}

/// A board of side `size`: `size * size` tiles, each below `size * size`,
/// none twice.
pub open spec fn valid_state(s: Seq<u32>, size: int) -> bool {
    &&& s.len() == size * size
    &&& forall|p: int| 0 <= p < s.len() ==> (#[trigger] s[p]) < size * size
    &&& forall|p: int, q: int| 0 <= p < q < s.len() ==> s[p] != s[q]
}

/// The board `s` with the tiles at `i` and `j` exchanged.
pub open spec fn swapped(s: Seq<u32>, i: int, j: int) -> Seq<u32> {
    s.update(i, s[j]).update(j, s[i])
}

/// The blank of `s` lies at cell `(x, y)`.
pub open spec fn blank_at(s: Seq<u32>, size: int, x: int, y: int) -> bool {
    0 <= x < size && 0 <= y < size && s[cell_index(size, x, y)] == 0
}

/// Some tile is the blank.
pub open spec fn has_blank(tiles: Seq<u32>) -> bool {
    exists|p: int| 0 <= p < tiles.len() && #[trigger] tiles[p] == 0
}

/// A valid board has a blank: as many different tiles as there are numbers
/// below the number of cells leave none of these numbers out.
pub proof fn lemma_valid_has_blank(s: Seq<u32>, size: int)
    requires
        size >= 1,
        valid_state(s, size),
    ensures
        has_blank(s),
{
    let m = s.len() as int;
    assert(m >= 1) by (nonlinear_arith)
        requires
            m == size * size,
            size >= 1,
    ;
    let t = Seq::new(s.len(), |i: int| s[i] as int);
    assert(t.no_duplicates()) by {
        assert forall|i: int, j: int| 0 <= i < t.len() && 0 <= j < t.len() && i != j implies t[i]
            != t[j] by {
            if i < j {
                assert(s[i] != s[j]);
            } else {
                assert(s[j] != s[i]);
            }
        }
    }
    t.unique_seq_to_set();
    vstd::seq_lib::seq_to_set_is_finite(t);
    vstd::set_lib::lemma_int_range(0, m);
    let all = vstd::set_lib::set_int_range(0, m);
    assert(t.to_set().subset_of(all)) by {
        assert forall|v: int| t.to_set().contains(v) implies all.contains(v) by {
            let i = choose|i: int| 0 <= i < t.len() && t[i] == v;
            assert(s[i] < size * size);
        }
    }
    vstd::set_lib::lemma_subset_equality(t.to_set(), all);
    assert(all.contains(0));
    assert(t.to_set().contains(0));
    assert(t.contains(0));
    let i = choose|i: int| 0 <= i < t.len() && t[i] == 0;
    assert(s[i] == 0);
}

/// A row-major index of a board of side `size` is below `size * size`.
pub proof fn lemma_cell_index_bound(size: int, x: int, y: int)
    requires
        0 <= x < size,
        0 <= y < size,
    ensures
        0 <= cell_index(size, x, y) < size * size,
{
    assert(y * size + x < size * size) by (nonlinear_arith)
        requires
            0 <= x < size,
            0 <= y < size,
    ;
    assert(0 <= y * size) by (nonlinear_arith)
        requires
            0 <= y,
            0 <= size,
    ;
}

/// Different cells have different row-major indices.
pub proof fn lemma_cell_index_injective(size: int, x1: int, y1: int, x2: int, y2: int)
    requires
        0 <= x1 < size,
        0 <= y1 < size,
        0 <= x2 < size,
        0 <= y2 < size,
        cell_index(size, x1, y1) == cell_index(size, x2, y2),
    ensures
        x1 == x2,
        y1 == y2,
{
    assert(y1 == y2) by (nonlinear_arith)
        requires
            0 <= x1 < size,
            0 <= x2 < size,
            y1 * size + x1 == y2 * size + x2,
    ;
}

/// The cell next to `(bx, by)` in direction `dir`: 0 is left, 1 right, 2 up
/// and 3 down.
pub open spec fn target(bx: int, by: int, dir: int) -> (int, int) {
    if dir == 0 {
        (bx - 1, by)
    } else if dir == 1 {
        (bx + 1, by)
    } else if dir == 2 {
        (bx, by - 1)
    } else {
        (bx, by + 1)
    }
}

/// The blank at `(bx, by)` can move in direction `dir` without leaving the board.
pub open spec fn can_move(size: int, bx: int, by: int, dir: int) -> bool {
    let (x, y) = target(bx, by, dir);
    0 <= dir < 4 && 0 <= x < size && 0 <= y < size
}

/// The board after the blank at `(bx, by)` has moved in direction `dir`.
pub open spec fn moved(s: Seq<u32>, size: int, bx: int, by: int, dir: int) -> Seq<u32> {
    let (x, y) = target(bx, by, dir);
    swapped(s, cell_index(size, x, y), cell_index(size, bx, by))
}

/// How many of the directions below `dirs` the blank at `(bx, by)` can move in.
pub open spec fn count_moves(size: int, bx: int, by: int, dirs: int) -> int
    decreases dirs,
{
    if dirs <= 0 {
        0
    } else {
        count_moves(size, bx, by, dirs - 1) + if can_move(size, bx, by, dirs - 1) {
            1int
        } else {
            0int
        }
    }
}

/// Board `b` comes from board `a` by one move of the blank.
pub open spec fn is_move(a: Seq<u32>, b: Seq<u32>, size: int) -> bool {
    exists|bx: int, by: int, dir: int|
        blank_at(a, size, bx, by) && can_move(size, bx, by, dir) && b == #[trigger] moved(
            a,
            size,
            bx,
            by,
            dir,
        )
}

/// Each board of `p` but the first comes from the one before it by one move.
pub open spec fn is_walk(p: Seq<Seq<u32>>, size: int) -> bool {
    forall|k: int| 0 <= k < p.len() - 1 ==> is_move(#[trigger] p[k], p[k + 1], size)
}

/// Exchanging two tiles of a valid board gives a valid board.
pub proof fn lemma_swapped_valid(s: Seq<u32>, size: int, i: int, j: int)
    requires
        valid_state(s, size),
        0 <= i < s.len(),
        0 <= j < s.len(),
    ensures
        valid_state(swapped(s, i, j), size),
{
    let t = swapped(s, i, j);
    assert forall|p: int| 0 <= p < t.len() implies (#[trigger] t[p]) < size * size by {
        if p == j {
            assert(t[p] == s[i]);
        } else if p == i {
            assert(t[p] == s[j]);
        } else {
            assert(t[p] == s[p]);
        }
    }
    assert forall|p: int, q: int| 0 <= p < q < t.len() implies t[p] != t[q] by {
        let sp = if p == j { i } else if p == i { j } else { p };
        let sq = if q == j { i } else if q == i { j } else { q };
        assert(t[p] == s[sp]);
        assert(t[q] == s[sq]);
        assert(sp != sq);
        if sp < sq {
            assert(s[sp] != s[sq]);
        } else {
            assert(s[sq] != s[sp]);
        }
    }
}

/// A valid board has its blank on one cell only.
pub proof fn lemma_blank_unique(s: Seq<u32>, size: int, x1: int, y1: int, x2: int, y2: int)
    requires
        valid_state(s, size),
        blank_at(s, size, x1, y1),
        blank_at(s, size, x2, y2),
    ensures
        x1 == x2,
        y1 == y2,
{
    lemma_cell_index_bound(size, x1, y1);
    lemma_cell_index_bound(size, x2, y2);
    let i1 = cell_index(size, x1, y1);
    let i2 = cell_index(size, x2, y2);
    if i1 < i2 {
        assert(s[i1] != s[i2]);
    } else if i2 < i1 {
        assert(s[i2] != s[i1]);
    }
    lemma_cell_index_injective(size, x1, y1, x2, y2);
}

} // verus!
