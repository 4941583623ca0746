//! Sorting a board into the goal layout by exchanges of two tiles.
use vstd::prelude::*;
use crate::board::{cell_index, lemma_cell_index_bound, lemma_cell_index_injective, lemma_swapped_valid, swapped, valid_state};
use crate::spiral::{goal_cell, goal_index, lemma_goal_cells_distinct, lemma_goal_tile_inverse};

verus! {

/// The board after the exchanges of `swaps`, made in order.
pub open spec fn apply_swaps(s: Seq<u32>, swaps: Seq<(int, int)>) -> Seq<u32>
    decreases swaps.len(),
{
    if swaps.len() == 0 {
        s
    } else {
        swapped(apply_swaps(s, swaps.drop_last()), swaps.last().0, swaps.last().1)
    }
}

/// Each exchange names two different cells of a board of `len` cells.
pub open spec fn swaps_ok(swaps: Seq<(int, int)>, len: int) -> bool {
    forall|k: int|
        0 <= k < swaps.len() ==> 0 <= (#[trigger] swaps[k]).0 < len && 0 <= swaps[k].1 < len
            && swaps[k].0 != swaps[k].1
}

/// Every tile of the board lies on its goal cell.
pub open spec fn is_goal_layout(s: Seq<u32>, size: int) -> bool {
    forall|p: int| 0 <= p < s.len() ==> goal_index((#[trigger] s[p]) as int, size) == p
}

/// The exchanges turn the board into the goal layout.
pub open spec fn sorts(s: Seq<u32>, size: int, swaps: Seq<(int, int)>) -> bool {
    swaps_ok(swaps, s.len() as int) && is_goal_layout(apply_swaps(s, swaps), size)
}

/// The taxicab distance from cell `(x, y)` to the goal cell of the blank.
pub open spec fn blank_distance(size: int, x: int, y: int) -> int {
    let (gx, gy) = goal_cell(0, size);
    (if gx >= x { gx - x } else { x - gx }) + (if gy >= y { gy - y } else { y - gy })
}

/// How many of the first `k` cells hold a tile that is not on its goal cell.
pub open spec fn misplaced(s: Seq<u32>, size: int, k: int) -> int
    decreases k,
{
    if k <= 0 {
        0
    } else {
        misplaced(s, size, k - 1) + if goal_index(s[k - 1] as int, size) != k - 1 {
            1int
        } else {
            0int
        }
    }
}

/// Among `k` cells between none and `k` are misplaced.
pub proof fn lemma_misplaced_bounds(s: Seq<u32>, size: int, k: int)
    requires
        0 <= k,
    ensures
        0 <= misplaced(s, size, k) <= k,
    decreases k,
{
    if k > 0 {
        lemma_misplaced_bounds(s, size, k - 1);
    }
}

/// Putting tile `x` on cell `i` changes the count by what cell `i` counted
/// for before and counts for after.
pub proof fn lemma_misplaced_update(s: Seq<u32>, size: int, k: int, i: int, x: u32)
    requires
        0 <= i < s.len(),
        0 <= k <= s.len(),
    ensures
        misplaced(s.update(i, x), size, k) == misplaced(s, size, k) + if i < k {
            (if goal_index(x as int, size) != i {
                1int
            } else {
                0int
            }) - (if goal_index(s[i] as int, size) != i {
                1int
            } else {
                0int
            })
        } else {
            0int
        },
    decreases k,
{
    if k > 0 {
        lemma_misplaced_update(s, size, k - 1, i, x);
    }
}

/// Two different tiles of a board have different goal indices, both on the board.
pub proof fn lemma_goal_index_distinct(size: int, v1: int, v2: int)
    requires
        size >= 1,
        0 <= v1 < size * size,
        0 <= v2 < size * size,
        v1 != v2,
    ensures
        goal_index(v1, size) != goal_index(v2, size),
        0 <= goal_index(v1, size) < size * size,
{
    lemma_goal_cells_distinct(size, v1, v2);
    lemma_goal_cells_distinct(size, v2, v1);
    let (x1, y1) = goal_cell(v1, size);
    let (x2, y2) = goal_cell(v2, size);
    lemma_cell_index_bound(size, x1, y1);
    if cell_index(size, x1, y1) == cell_index(size, x2, y2) {
        lemma_cell_index_injective(size, x1, y1, x2, y2);
    }
}

/// Moving a misplaced tile to its goal cell, in exchange for the tile that
/// lay there, leaves fewer tiles misplaced.
pub proof fn lemma_swap_places(s: Seq<u32>, size: int, p: int)
    requires
        size >= 1,
        valid_state(s, size),
        0 <= p < s.len(),
        goal_index(s[p] as int, size) != p,
    ensures
        0 <= goal_index(s[p] as int, size) < s.len(),
        misplaced(swapped(s, goal_index(s[p] as int, size), p), size, s.len() as int) < misplaced(
            s,
            size,
            s.len() as int,
        ),
{
    let q = goal_index(s[p] as int, size);
    let n = s.len() as int;
    lemma_goal_tile_inverse(s[p] as int, size);
    lemma_cell_index_bound(size, goal_cell(s[p] as int, size).0, goal_cell(s[p] as int, size).1);
    if p < q {
        assert(s[p] != s[q]);
    } else {
        assert(s[q] != s[p]);
    }
    lemma_goal_index_distinct(size, s[q] as int, s[p] as int);
    let mid = s.update(q, s[p]);
    lemma_misplaced_update(s, size, n, q, s[p]);
    lemma_misplaced_update(mid, size, n, p, s[q]);
    assert(mid[p] == s[p]);
    assert(swapped(s, q, p) == mid.update(p, s[q]));
}

/// A board with the same tiles as a valid board, in any order, is valid.
pub proof fn lemma_rearranged_valid(a: Seq<u32>, b: Seq<u32>, size: int)
    requires
        valid_state(a, size),
        a.to_multiset() == b.to_multiset(),
    ensures
        valid_state(b, size),
{
    a.to_multiset_ensures();
    b.to_multiset_ensures();
    assert forall|p: int| 0 <= p < b.len() implies (#[trigger] b[p]) < size * size by {
        assert(b.contains(b[p]));
        assert(b.to_multiset().count(b[p]) > 0);
        assert(a.to_multiset().count(b[p]) > 0);
        assert(a.contains(b[p]));
        let i = choose|i: int| 0 <= i < a.len() && a[i] == b[p];
        assert(a[i] < size * size);
    }
    assert(a.no_duplicates()) by {
        assert forall|i: int, j: int| 0 <= i < a.len() && 0 <= j < a.len() && i != j implies a[i]
            != a[j] by {
            if i < j {
                assert(a[i] != a[j]);
            } else {
                assert(a[j] != a[i]);
            }
        }
    }
    a.lemma_multiset_has_no_duplicates();
    b.lemma_multiset_has_no_duplicates_conv();
}

/// The goal index of the tile on each cell, cell by cell.
pub open spec fn targets(s: Seq<u32>, size: int) -> Seq<int> {
    Seq::new(s.len(), |p: int| goal_index(s[p] as int, size))
}

/// The sequence with the entries at `a` and `b` exchanged.
pub open spec fn exchanged(t: Seq<int>, a: int, b: int) -> Seq<int> {
    t.update(a, t[b]).update(b, t[a])
}

/// No entry stands twice in the sequence.
pub open spec fn distinct(t: Seq<int>) -> bool {
    forall|i: int, j: int| 0 <= i < j < t.len() ==> t[i] != t[j]
}

/// How many of the first `k` entries are greater than `x`.
pub open spec fn greater_before(t: Seq<int>, k: int, x: int) -> int
    decreases k,
{
    if k <= 0 {
        0
    } else {
        greater_before(t, k - 1, x) + if t[k - 1] > x {
            1int
        } else {
            0int
        }
    }
}

/// How many pairs of the first `n` entries stand in falling order.
pub open spec fn inversions(t: Seq<int>, n: int) -> int
    decreases n,
{
    if n <= 0 {
        0
    } else {
        inversions(t, n - 1) + greater_before(t, n - 1, t[n - 1])
    }
}

/// Whether a board with its blank on cell `(x, y)` can be solved: the
/// inversions of its tiles' goal indices and the distance of the blank to its
/// goal cell are both even or both odd.
pub open spec fn solvable(s: Seq<u32>, size: int, x: int, y: int) -> bool {
    (inversions(targets(s, size), s.len() as int) + blank_distance(size, x, y)) % 2 == 0
}

/// Changing entry `i` changes the count of greater entries by what the
/// entry counts for after and before, if it is among the first `k`.
pub proof fn lemma_greater_update(t: Seq<int>, k: int, x: int, i: int, v: int)
    requires
        0 <= i < t.len(),
        0 <= k <= t.len(),
    ensures
        greater_before(t.update(i, v), k, x) == greater_before(t, k, x) + if i < k {
            (if v > x {
                1int
            } else {
                0int
            }) - (if t[i] > x {
                1int
            } else {
                0int
            })
        } else {
            0int
        },
    decreases k,
{
    if k > 0 {
        lemma_greater_update(t, k - 1, x, i, v);
    }
}

/// Exchanging two entries, both among the first `k` or both not, leaves the
/// count of greater entries among the first `k` as it was.
pub proof fn lemma_greater_exchanged(t: Seq<int>, k: int, x: int, a: int, b: int)
    requires
        0 <= a < t.len(),
        0 <= b < t.len(),
        0 <= k <= t.len(),
        (a < k) == (b < k),
    ensures
        greater_before(exchanged(t, a, b), k, x) == greater_before(t, k, x),
{
    lemma_greater_update(t, k, x, a, t[b]);
    lemma_greater_update(t.update(a, t[b]), k, x, b, t[a]);
}

/// Exchanging two neighbours changes the inversions by one.
pub proof fn lemma_neighbours_exchanged(t: Seq<int>, a: int, n: int)
    requires
        0 <= a,
        a + 1 < t.len(),
        0 <= n <= t.len(),
        t[a] != t[a + 1],
    ensures
        inversions(exchanged(t, a, a + 1), n) == inversions(t, n) + if n <= a {
            0
        } else if n == a + 1 {
            greater_before(t, a, t[a + 1]) - greater_before(t, a, t[a])
        } else if t[a + 1] > t[a] {
            1
        } else {
            -1
        },
    decreases n,
{
    let u = exchanged(t, a, a + 1);
    if n > 0 {
        lemma_neighbours_exchanged(t, a, n - 1);
        if n != a + 2 {
            lemma_greater_exchanged(t, n - 1, u[n - 1], a, a + 1);
        }
        if n == a + 2 {
            lemma_greater_exchanged(t, a, t[a], a, a + 1);
            assert(greater_before(u, a + 1, t[a]) == greater_before(u, a, t[a]) + if u[a] > t[a] {
                1int
            } else {
                0int
            });
            assert(greater_before(t, a + 1, t[a + 1]) == greater_before(t, a, t[a + 1]) + if t[a]
                > t[a + 1] {
                1int
            } else {
                0int
            });
        } else if n == a + 1 {
            lemma_greater_exchanged(t, a, t[a + 1], a, a + 1);
        }
    }
}

/// Exchanging two entries keeps the entries distinct.
pub proof fn lemma_exchanged_distinct(t: Seq<int>, a: int, b: int)
    requires
        distinct(t),
        0 <= a < t.len(),
        0 <= b < t.len(),
    ensures
        distinct(exchanged(t, a, b)),
{
    let u = exchanged(t, a, b);
    assert forall|i: int, j: int| 0 <= i < j < u.len() implies u[i] != u[j] by {
        let si = if i == b { a } else if i == a { b } else { i };
        let sj = if j == b { a } else if j == a { b } else { j };
        assert(u[i] == t[si]);
        assert(u[j] == t[sj]);
        if si < sj {
            assert(t[si] != t[sj]);
        } else {
            assert(t[sj] != t[si]);
        }
    }
}

/// Exchanging two entries of a sequence of distinct entries turns an even
/// number of inversions into an odd one and an odd one into an even one.
pub proof fn lemma_exchange_flips(t: Seq<int>, a: int, b: int)
    requires
        distinct(t),
        0 <= a < b < t.len(),
    ensures
        (inversions(exchanged(t, a, b), t.len() as int) - inversions(t, t.len() as int)) % 2 != 0,
    decreases b - a,
{
    let n = t.len() as int;
    if b == a + 1 {
        lemma_neighbours_exchanged(t, a, n);
    } else {
        let t1 = exchanged(t, a, a + 1);
        lemma_exchanged_distinct(t, a, a + 1);
        lemma_neighbours_exchanged(t, a, n);
        let t2 = exchanged(t1, a + 1, b);
        lemma_exchange_flips(t1, a + 1, b);
        lemma_exchanged_distinct(t1, a + 1, b);
        let t3 = exchanged(t2, a, a + 1);
        lemma_neighbours_exchanged(t2, a, n);
        assert(t3 =~= exchanged(t, a, b));
    }
}

/// Where no entry before place `k` is greater than `x`, none is counted.
pub proof fn lemma_greater_none(t: Seq<int>, k: int, x: int)
    requires
        0 <= k <= t.len(),
        forall|i: int| 0 <= i < k ==> t[i] <= x,
    ensures
        greater_before(t, k, x) == 0,
    decreases k,
{
    if k > 0 {
        lemma_greater_none(t, k - 1, x);
    }
}

/// A sequence that holds its own places has no inversions.
pub proof fn lemma_sorted_no_inversions(t: Seq<int>, n: int)
    requires
        0 <= n <= t.len(),
        forall|i: int| 0 <= i < t.len() ==> t[i] == i,
    ensures
        inversions(t, n) == 0,
    decreases n,
{
    if n > 0 {
        lemma_sorted_no_inversions(t, n - 1);
        lemma_greater_none(t, n - 1, t[n - 1]);
    }
}

/// Exchanging two tiles of a valid board turns an even number of
/// inversions of the goal indices into an odd one, and an odd one into an
/// even one.
pub proof fn lemma_swap_flips(s: Seq<u32>, size: int, i: int, j: int)
    requires
        size >= 1,
        valid_state(s, size),
        0 <= i < s.len(),
        0 <= j < s.len(),
        i != j,
    ensures
        (inversions(targets(swapped(s, i, j), size), s.len() as int) - inversions(
            targets(s, size),
            s.len() as int,
        )) % 2 != 0,
{
    let t = targets(s, size);
    assert(distinct(t)) by {
        assert forall|a: int, b: int| 0 <= a < b < t.len() implies t[a] != t[b] by {
            assert(s[a] != s[b]);
            lemma_goal_index_distinct(size, s[a] as int, s[b] as int);
        }
    }
    assert(targets(swapped(s, i, j), size) =~= exchanged(t, i, j));
    if i < j {
        lemma_exchange_flips(t, i, j);
    } else {
        assert(exchanged(t, i, j) =~= exchanged(t, j, i));
        lemma_exchange_flips(t, j, i);
    }
}

/// After a run of exchanges the board is valid still, and the number of its
/// inversions has changed from even to odd, or from odd to even, once for
/// each exchange.
pub proof fn lemma_swaps_parity(s: Seq<u32>, size: int, swaps: Seq<(int, int)>)
    requires
        size >= 1,
        valid_state(s, size),
        swaps_ok(swaps, s.len() as int),
    ensures
        valid_state(apply_swaps(s, swaps), size),
        (inversions(targets(apply_swaps(s, swaps), size), s.len() as int) + swaps.len()) % 2
            == inversions(targets(s, size), s.len() as int) % 2,
    decreases swaps.len(),
{
    if swaps.len() > 0 {
        let head = swaps.drop_last();
        assert forall|k: int| 0 <= k < head.len() implies 0 <= (#[trigger] head[k]).0 < s.len() && 0
            <= head[k].1 < s.len() && head[k].0 != head[k].1 by {
            assert(head[k] == swaps[k]);
        }
        lemma_swaps_parity(s, size, head);
        let mid = apply_swaps(s, head);
        let (i, j) = swaps.last();
        assert(0 <= swaps[swaps.len() - 1].0 < s.len());
        lemma_swapped_valid(mid, size, i, j);
        lemma_swap_flips(mid, size, i, j);
    }
}

/// Every run of exchanges of two tiles that sorts a valid board into the
/// goal layout has an even number of exchanges if the board has an even
/// number of inversions, and an odd number if it has an odd number.
pub proof fn lemma_sorting_parity(s: Seq<u32>, size: int, swaps: Seq<(int, int)>)
    requires
        size >= 1,
        valid_state(s, size),
        sorts(s, size, swaps),
    ensures
        swaps.len() % 2 == inversions(targets(s, size), s.len() as int) % 2,
{
    lemma_swaps_parity(s, size, swaps);
    let t = targets(apply_swaps(s, swaps), size);
    assert forall|i: int| 0 <= i < t.len() implies t[i] == i by {
        assert(goal_index(apply_swaps(s, swaps)[i] as int, size) == i);
    }
    lemma_sorted_no_inversions(t, s.len() as int);
}

} // verus!
