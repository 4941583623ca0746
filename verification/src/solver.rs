//! The puzzle context: board size, goal table, initial instance and counters.
use std::collections::HashMap;

use rand::seq::SliceRandom;
use vstd::prelude::*;

use crate::algo::{capped, counted, found, passes, same_instance, solves, Algo, Astar, IDAstar, Outcome};
use crate::board::{
    blank_at, has_blank, lemma_cell_index_bound, lemma_cell_index_injective, lemma_swapped_valid,
    lemma_valid_has_blank, swapped, valid_state,
};
use crate::heuristic::{estimate, Euclidian, Hamming, Heuristic, Manhattan};
use crate::node::copy_tiles;
use crate::parity::{
    inversions, is_goal_layout, lemma_misplaced_bounds, lemma_rearranged_valid,
    lemma_sorted_no_inversions, lemma_swap_flips, lemma_swap_places, misplaced, solvable, targets,
};
use crate::reader::{numbers_of, read_numbers};
use crate::spiral::{
    cells_left, edge_span, goal_cell, goal_index, lemma_cells_left_step, locate, spiral_rank,
};

verus! {

/// A cell of the board: column `x`, row `y`.
#[derive(Debug, Clone, Copy, PartialEq, Eq, Hash, Structural)]
pub struct Vec2 {
    pub x: u32,
    pub y: u32,
}

impl Vec2 {
    /// The cell as a pair of mathematical integers.
    pub open spec fn cell(self) -> (int, int) {
        (self.x as int, self.y as int)
    }
}

/// A board side that the solver accepts: its square fits in a `u32`.
pub open spec fn size_ok(size: int) -> bool {
    1 <= size && size * size <= u32::MAX
}

/// The goal table holds the goal cell of every tile of a board of side `size`.
pub open spec fn table_ok(coords: Map<u32, Vec2>, size: int) -> bool {
    forall|v: u32|
        v < size * size ==> #[trigger] coords.contains_key(v) && coords[v].cell() == goal_cell(
            v as int,
            size,
        ) && coords[v].x < size && coords[v].y < size
}

/// Why no puzzle was made.
#[derive(Debug, Clone, Copy, PartialEq, Eq, Structural)]
pub enum PuzzleError {
    /// The side of the board is below 3.
    SizeTooSmall,
    /// The number of cells does not fit the type of a tile.
    SizeTooLarge,
    /// A number stands twice among the tiles; the error holds the first
    /// number that repeats an earlier one.
    Duplicate(u32),
    /// There are not as many tiles as the board has cells.
    WrongCount,
    /// A tile is not below the number of cells.
    OutOfRange,
    /// The board cannot be brought into the goal layout.
    Unsolvable,
    /// A word of the text writes no number; the error holds the place of
    /// the word's first byte.
    Unparsable(usize),
}

/// The tile at `k` repeats an earlier one.
pub open spec fn repeats_at(tiles: Seq<u32>, k: int) -> bool {
    exists|j: int| 0 <= j < k && #[trigger] tiles[j] == tiles[k]
}

/// No two of the first `k` tiles are the same.
pub open spec fn distinct_before(tiles: Seq<u32>, k: int) -> bool {
    forall|a: int, b: int| 0 <= a < b < k ==> tiles[a] != tiles[b]
}

/// Every tile is below `limit`.
pub open spec fn all_below(tiles: Seq<u32>, limit: int) -> bool {
    forall|p: int| 0 <= p < tiles.len() ==> (#[trigger] tiles[p]) < limit
}

/// The place of the first tile that repeats an earlier one.
pub fn first_repeat(tiles: &[u32]) -> (res: Option<usize>)
    ensures
        match res {
            Some(k) => k < tiles@.len() && repeats_at(tiles@, k as int) && distinct_before(
                tiles@,
                k as int,
            ),
            None => distinct_before(tiles@, tiles@.len() as int),
        },
{
    let mut k: usize = 0;
    while k < tiles.len()
        invariant
            k <= tiles@.len(),
            distinct_before(tiles@, k as int),
        decreases tiles@.len() - k,
    {
        let mut j: usize = 0;
        while j < k
            invariant
                j <= k < tiles@.len(),
                distinct_before(tiles@, k as int),
                forall|a: int| 0 <= a < j ==> #[trigger] tiles@[a] != tiles@[k as int],
            decreases k - j,
        {
            if tiles[j] == tiles[k] {
                return Some(k);
            }
            j += 1;
        }
        k += 1;
    }
    None
}

/// Whether every tile is below `limit`.
pub fn tiles_below(tiles: &[u32], limit: u32) -> (res: bool)
    ensures
        res == all_below(tiles@, limit as int),
{
    let mut p: usize = 0;
    while p < tiles.len()
        invariant
            p <= tiles@.len(),
            forall|q: int| 0 <= q < p ==> (#[trigger] tiles@[q]) < limit,
        decreases tiles@.len() - p,
    {
        if tiles[p] >= limit {
            return false;
        }
        p += 1;
    }
    true
}

/// The cell of the first blank of a board of side `size`.
pub fn find_blank(tiles: &[u32], size: u32) -> (res: Option<Vec2>)
    requires
        size_ok(size as int),
        tiles@.len() == size * size,
    ensures
        match res {
            Some(b) => blank_at(tiles@, size as int, b.x as int, b.y as int),
            None => !has_blank(tiles@),
        },
{
    let mut p: usize = 0;
    while p < tiles.len()
        invariant
            p <= tiles@.len(),
            size_ok(size as int),
            tiles@.len() == size * size,
            forall|q: int| 0 <= q < p ==> #[trigger] tiles@[q] != 0,
        decreases tiles@.len() - p,
    {
        if tiles[p] == 0 {
            let at: u32 = p as u32;
            let x: u32 = at % size;
            let y: u32 = at / size;
            assert(y * size + x == at && y < size) by (nonlinear_arith)
                requires
                    size >= 1,
                    0 <= at < size * size,
                    x == at % size,
                    y == at / size,
            ;
            return Some(Vec2 { x, y });
        }
        p += 1;
    }
    None
}

/// Puts the tiles of a board of side `size` into `state`, in rising order.
pub fn fill_tiles(state: &mut Vec<u32>, size: u32)
    requires
        size_ok(size as int),
    ensures
        final(state)@ == Seq::new((size * size) as nat, |i: int| i as u32),
{
    let total: u32 = size * size;
    state.clear();
    let mut n: u32 = 0;
    while n < total
        invariant
            n <= total,
            total == size * size,
            state@.len() == n,
            forall|p: int| 0 <= p < n ==> #[trigger] state@[p] == p,
        decreases total - n,
    {
        state.push(n);
        n += 1;
    }
    assert(state@ =~= Seq::new((size * size) as nat, |i: int| i as u32));
}

/// `rand::seq::SliceRandom::shuffle`, driven by `rand::thread_rng()`. It only
/// exchanges elements of the slice, so the tiles after the call are those
/// before it, each as often as before. Nothing is said of their order.
#[verifier::external_body]
fn shuffle_tiles(tiles: &mut Vec<u32>)
    ensures
        final(tiles)@.to_multiset() == old(tiles)@.to_multiset(),
{
    tiles.shuffle(&mut rand::thread_rng());
}

/// What making a puzzle from a list of numbers gives. The first number is
/// the side of the board and the others are its tiles. The first of these
/// that fails decides the error: a side of 3 or more whose square fits a
/// tile, no repeated tile, as many tiles as cells, every tile below the
/// number of cells, and a board that can be solved.
pub open spec fn described(
    numbers: Seq<u32>,
    silent: bool,
    algo: Algo,
    heuristic: Heuristic,
    res: Result<Puzzle, PuzzleError>,
) -> bool {
    match res {
        Err(PuzzleError::SizeTooSmall) => numbers.len() >= 1 && numbers[0] < 3,
        Err(PuzzleError::SizeTooLarge) => numbers.len() >= 1 && numbers[0] > 0xffff,
        Err(PuzzleError::Duplicate(v)) => numbers.len() >= 1 && 3 <= numbers[0] <= 0xffff
            && exists|k: int|
            0 <= k < numbers.len() - 1 && #[trigger] repeats_at(numbers.skip(1), k)
                && distinct_before(numbers.skip(1), k) && numbers.skip(1)[k] == v,
        Err(PuzzleError::WrongCount) => numbers.len() == 0 || (3 <= numbers[0] <= 0xffff
            && distinct_before(numbers.skip(1), numbers.len() - 1) && numbers.len() - 1
            != numbers[0] * numbers[0]),
        Err(PuzzleError::OutOfRange) => numbers.len() >= 1 && 3 <= numbers[0] <= 0xffff
            && distinct_before(numbers.skip(1), numbers.len() - 1) && numbers.len() - 1 == numbers[0] * numbers[0] && !all_below(
            numbers.skip(1),
            numbers[0] * numbers[0],
        ),
        Err(PuzzleError::Unsolvable) => numbers.len() >= 1 && 3 <= numbers[0] <= 0xffff
            && valid_state(numbers.skip(1), numbers[0] as int) && exists|x: int, y: int|
            blank_at(numbers.skip(1), numbers[0] as int, x, y) && !#[trigger] solvable(numbers.skip(1), numbers[0] as int, x, y),
        Err(PuzzleError::Unparsable(_)) => false,
        Ok(p) => numbers.len() >= 1 && 3 <= numbers[0] <= 0xffff && p.wf() && p.size
            == numbers[0] && p.initial_state@ == numbers.skip(1) && p.silent == silent
            && p.algo == algo && p.heuristic == heuristic && p.total_open == 1
            && p.current_open == 1 && solvable(
                    p.initial_state@,
                    p.size as int,
                    p.initial_blank.x as int,
                    p.initial_blank.y as int,
                ),
    }
}

/// What making a puzzle from a text gives. Where every word writes a number,
/// the numbers decide. Where one does not, the numbers before it decide if
/// the side among them is refused or a tile among them is repeated, and else
/// the word is reported.
pub open spec fn read_as(
    text: Seq<u8>,
    silent: bool,
    algo: Algo,
    heuristic: Heuristic,
    res: Result<Puzzle, PuzzleError>,
) -> bool {
    let numbers = numbers_of(text).0;
    match numbers_of(text).1 {
        None => described(numbers, silent, algo, heuristic, res),
        Some(at) => match res {
            Err(PuzzleError::SizeTooSmall) => numbers.len() >= 1 && numbers[0] < 3,
            Err(PuzzleError::SizeTooLarge) => numbers.len() >= 1 && numbers[0] > 0xffff,
            Err(PuzzleError::Duplicate(v)) => numbers.len() >= 1 && 3 <= numbers[0] <= 0xffff
                && exists|k: int|
                0 <= k < numbers.len() - 1 && #[trigger] repeats_at(numbers.skip(1), k)
                    && distinct_before(numbers.skip(1), k) && numbers.skip(1)[k] == v,
            Err(PuzzleError::Unparsable(place)) => place == at && (numbers.len() == 0 || (3
                <= numbers[0] <= 0xffff && distinct_before(numbers.skip(1), numbers.len() - 1))),
            _ => false,
        },
    }
}

/// The numbers of a list but the first.
pub fn tiles_of(numbers: &[u32]) -> (tiles: Vec<u32>)
    requires
        numbers@.len() >= 1,
    ensures
        tiles@ == numbers@.skip(1),
{
    let mut tiles: Vec<u32> = Vec::new();
    let mut k: usize = 1;
    while k < numbers.len()
        invariant
            1 <= k <= numbers@.len(),
            tiles@ == numbers@.subrange(1, k as int),
        decreases numbers@.len() - k,
    {
        tiles.push(numbers[k]);
        k += 1;
        assert(tiles@ =~= numbers@.subrange(1, k as int));
    }
    assert(tiles@ =~= numbers@.skip(1));
    tiles
}

/// The decimal digits of `v`, as bytes.
pub open spec fn decimal(v: nat) -> Seq<u8>
    decreases v,
{
    if v < 10 {
        seq![(48 + v) as u8]
    } else {
        decimal(v / 10).push((48 + v % 10) as u8)
    }
}

/// How a tile is shown: its decimal digits, then two spaces after a tile
/// below ten and one space after any other.
pub open spec fn tile_text(tile: u32) -> Seq<u8> {
    if tile < 10 {
        decimal(tile as nat) + seq![32u8, 32u8]
    } else {
        decimal(tile as nat) + seq![32u8]
    }
}

/// How the first `n` tiles of row `y` are shown.
pub open spec fn row_text(v: Seq<u32>, size: int, y: int, n: int) -> Seq<u8>
    decreases n,
{
    if n <= 0 {
        Seq::empty()
    } else {
        row_text(v, size, y, n - 1) + tile_text(v[y * size + n - 1])
    }
}

/// How the first `rows` rows are shown: each row ends with a line feed.
pub open spec fn board_text(v: Seq<u32>, size: int, rows: int) -> Seq<u8>
    decreases rows,
{
    if rows <= 0 {
        Seq::empty()
    } else {
        board_text(v, size, rows - 1) + row_text(v, size, rows - 1, size) + seq![10u8]
    }
}

/// Appends the decimal digits of `v` to `out`.
pub fn push_decimal(v: u32, out: &mut Vec<u8>)
    ensures
        final(out)@ == old(out)@ + decimal(v as nat),
    decreases v,
{
    if v >= 10 {
        push_decimal(v / 10, out);
    }
    out.push(48 + (v % 10) as u8);
    assert(out@ =~= old(out)@ + decimal(v as nat));
}

/// One puzzle instance with what a search needs and counts.
pub struct Puzzle {
    /// Nodes generated so far.
    pub total_open: u64,
    /// Nodes held by the running search.
    pub current_open: u64,
    /// Goal cell of each tile.
    pub coords: HashMap<u32, Vec2>,
    /// Side of the board.
    pub size: u32,
    pub initial_blank: Vec2,
    pub initial_state: Vec<u32>,
    /// Whether a solution is reported without its boards.
    pub silent: bool,
    pub algo: Algo,
    pub heuristic: Heuristic,
}

impl Puzzle {
    /// The size is accepted and the goal table is filled for it.
    pub open spec fn table_ready(&self) -> bool {
        size_ok(self.size as int) && table_ok(self.coords@, self.size as int)
    }

    /// The context is ready for a search: the table is filled and the
    /// initial board is valid, with its blank where `initial_blank` says.
    pub open spec fn wf(&self) -> bool {
        &&& self.table_ready()
        &&& valid_state(self.initial_state@, self.size as int)
        &&& blank_at(
            self.initial_state@,
            self.size as int,
            self.initial_blank.x as int,
            self.initial_blank.y as int,
        )
    }

    /// Runs the configured search from the initial board and counts: in
    /// `total_open` every node that a search takes up, in `current_open` the
    /// nodes that it holds, which are the path of the deepening search and
    /// the frontier of the best-first search; a counter stops at its
    /// greatest number. A solution is a walk from the initial board to a
    /// board of estimate zero. One is reported exactly if there is one, and
    /// the one that is reported has the fewest moves.
    pub fn solve(&mut self) -> (res: Outcome)
        requires
            old(self).wf(),
            1 <= old(self).current_open,
        ensures
            same_instance(*final(self), *old(self)),
            final(self).total_open >= old(self).total_open,
            (exists|p: Seq<Seq<u32>>| solves(p, *old(self))) ==> res is Solved,
            !passes(*old(self)) ==> res is NoSolution,
            old(self).algo == Algo::AStar ==> counted(
                old(self).total_open,
                old(self).current_open,
                final(self).total_open,
                final(self).current_open,
                *old(self),
            ),
            match res {
                Outcome::Solved { steps, path } => found(steps, path@, *old(self)) && final(self).total_open >= capped(old(self).total_open + steps) && (old(self).algo
                    == Algo::IDAStar ==> final(self).current_open == capped(
                    old(self).current_open + steps,
                )) && (old(self).algo == Algo::AStar && estimate(
                    old(self).heuristic,
                    old(self).initial_state@,
                    old(self).size as int,
                ) == 0 ==> final(self).total_open == old(self).total_open && final(self).current_open == old(self).current_open - 1),
                Outcome::NoSolution => final(self).current_open == (if old(self).algo
                    == Algo::AStar {
                    old(self).current_open - 1
                } else {
                    old(self).current_open as int
                }) && forall|p: Seq<Seq<u32>>| !#[trigger] solves(p, *old(self)),
            },
    {
        match self.algo {
            Algo::AStar => Astar::solve(self),
            Algo::IDAStar => IDAstar::solve(self),
        }
    }

    /// The text that shows the board `v`, row by row.
    pub fn print_state(&self, v: &[u32]) -> (text: Vec<u8>)
        requires
            size_ok(self.size as int),
            v@.len() == self.size * self.size,
        ensures
            text@ == board_text(v@, self.size as int, self.size as int),
    {
        let size: u32 = self.size;
        let ghost n = size as int;
        let mut text: Vec<u8> = Vec::new();
        let mut i: u32 = 0;
        while i < size
            invariant
                size_ok(n),
                n == size,
                v@.len() == n * n,
                i <= size,
                text@ == board_text(v@, n, i as int),
            decreases size - i,
        {
            let ghost start = text@;
            let mut j: u32 = 0;
            while j < size
                invariant
                    size_ok(n),
                    n == size,
                    v@.len() == n * n,
                    i < size,
                    j <= size,
                    text@ == start + row_text(v@, n, i as int, j as int),
                decreases size - j,
            {
                proof {
                    lemma_cell_index_bound(n, j as int, i as int);
                }
                let ghost before = text@;
                let tile: u32 = v[(i * size + j) as usize];
                push_decimal(tile, &mut text);
                text.push(32);
                if tile < 10 {
                    text.push(32);
                }
                j += 1;
                assert(text@ =~= before + tile_text(tile));
                assert(text@ =~= start + row_text(v@, n, i as int, j as int));
            }
            text.push(10);
            i += 1;
            assert(text@ =~= board_text(v@, n, i as int));
        }
        text
    }

    /// The configured estimate of `state`.
    pub fn calculate_heuristic(&self, state: &[u32]) -> (h: u64)
        requires
            self.table_ready(),
            state@.len() == self.size * self.size,
            forall|p: int| 0 <= p < state@.len() ==> (#[trigger] state@[p]) < self.size * self.size,
        ensures
            h == estimate(self.heuristic, state@, self.size as int),
    {
        match self.heuristic {
            Heuristic::Manhattan => Manhattan::heuristic(self, state),
            Heuristic::Euclidian => Euclidian::heuristic(self, state),
            Heuristic::Hamming => Hamming::heuristic(self, state),
        }
    }

    /// The goal table of a board of side `size`.
    pub fn init_coordinates(size: u32) -> (coords: HashMap<u32, Vec2>)
        requires
            size_ok(size as int),
        ensures
            table_ok(coords@, size as int),
            forall|v: u32| coords@.contains_key(v) ==> v < size * size,
    {
        broadcast use vstd::std_specs::hash::group_hash_axioms;

        let mut coords: HashMap<u32, Vec2> = HashMap::new();
        let total: u32 = size * size;
        let mut count: u32 = 0;
        while count < total
            invariant
                size_ok(size as int),
                total == size * size,
                count <= total,
                forall|v: u32| coords@.contains_key(v) <==> v < count,
                forall|v: u32|
                    v < count ==> (#[trigger] coords@[v]).cell() == goal_cell(v as int, size as int)
                        && coords@[v].x < size && coords@[v].y < size,
            decreases total - count,
        {
            let c = Puzzle::get_coordinates(count, size);
            coords.insert(count, c);
            count += 1;
        }
        coords
    }

    /// The goal cell of tile `value` under the spiral layout.
    pub fn get_coordinates(value: u32, size: u32) -> (res: Vec2)
        requires
            size_ok(size as int),
            value < size * size,
        ensures
            res.cell() == goal_cell(value as int, size as int),
            res.x < size,
            res.y < size,
    {
        let mut v: u32 = if value == 0 { size * size } else { value };
        let mut r: u32 = 0;
        let mut span: u32 = size;
        assert(size <= 0xffff) by (nonlinear_arith)
            requires size * size <= u32::MAX;
        while v > span
            invariant
                size <= 0xffff,
                1 <= v <= cells_left(size as int, r as int),
                span == edge_span(size as int, r as int),
                locate(v as int, size as int, r as int) == locate(
                    spiral_rank(value as int, size as int),
                    size as int,
                    0,
                ),
            decreases v,
        {
            proof {
                lemma_cells_left_step(size as int, r as int);
                assert(span >= 1) by (nonlinear_arith)
                    requires
                        span >= 0,
                        1 <= cells_left(size as int, r as int),
                        cells_left(size as int, r as int) == span * span || cells_left(
                            size as int,
                            r as int,
                        ) == span * (span + 1),
                ;
            }
            v -= span;
            r += 1;
            span -= r % 2;
        }
        proof {
            assert(span >= 1) by (nonlinear_arith)
                requires
                    span >= 0,
                    1 <= cells_left(size as int, r as int),
                    cells_left(size as int, r as int) == span * span || cells_left(
                        size as int,
                        r as int,
                    ) == span * (span + 1),
            ;
        }
        let d: u32 = r / 4;
        let m: u32 = r % 4;
        let c: u32 = size - 1 - d;
        if m == 0 {
            Vec2 { x: d + v - 1, y: d }
        } else if m == 1 {
            Vec2 { x: c, y: d + v }
        } else if m == 2 {
            Vec2 { x: c - v, y: c }
        } else {
            Vec2 { x: d, y: c - v }
        }
    }

    /// Whether the board can be solved. The board is sorted into the goal
    /// layout by exchanges that each move a misplaced tile to its goal cell;
    /// the number of exchanges is even or odd as the inversions of the board
    /// are, and the board can be solved if it is even or odd as the distance
    /// of `blank` to the blank's goal cell is.
    pub fn sovable(state: &[u32], size: u32, blank: Vec2) -> (ok: bool)
        requires
            size_ok(size as int),
            valid_state(state@, size as int),
            blank.x < size,
            blank.y < size,
        ensures
            ok == solvable(state@, size as int, blank.x as int, blank.y as int),
    {
        let ghost n = size as int;
        assert(size <= 0xffff) by (nonlinear_arith)
            requires
                size * size <= u32::MAX,
        ;
        assert(0 < size * size) by (nonlinear_arith)
            requires
                size >= 1,
        ;
        let b = Puzzle::get_coordinates(0, size);
        let dx: u32 = if b.x >= blank.x { b.x - blank.x } else { blank.x - b.x };
        let dy: u32 = if b.y >= blank.y { b.y - blank.y } else { blank.y - b.y };
        let blank_dist: u32 = dx + dy;
        let mut swap: u32 = 0;
        let mut res = copy_tiles(state);
        let mut sorted = false;
        proof {
            lemma_misplaced_bounds(res@, n, n * n);
        }
        while !sorted
            invariant
                size_ok(n),
                n == size,
                size <= 0xffff,
                valid_state(res@, n),
                state@.len() == n * n,
                (swap + inversions(targets(res@, n), n * n)) % 2 == inversions(
                    targets(state@, n),
                    n * n,
                ) % 2,
                0 <= misplaced(res@, n, n * n),
                swap + misplaced(res@, n, n * n) <= n * n,
                sorted ==> is_goal_layout(res@, n),
            decreases misplaced(res@, n, n * n) + if sorted { 0int } else { 1int },
        {
            sorted = true;
            let ghost m0 = misplaced(res@, n, n * n);
            let mut i: u32 = 0;
            while i < size
                invariant
                    size_ok(n),
                    n == size,
                    size <= 0xffff,
                    valid_state(res@, n),
                    state@.len() == n * n,
                    (swap + inversions(targets(res@, n), n * n)) % 2 == inversions(
                        targets(state@, n),
                        n * n,
                    ) % 2,
                    0 <= misplaced(res@, n, n * n),
                    swap + misplaced(res@, n, n * n) <= n * n,
                    i <= size,
                    sorted ==> misplaced(res@, n, n * n) == m0,
                    sorted ==> forall|p: int|
                        0 <= p < i * n && p < res@.len() ==> goal_index(
                            (#[trigger] res@[p]) as int,
                            n,
                        ) == p,
                    !sorted ==> misplaced(res@, n, n * n) < m0,
                decreases size - i,
            {
                let mut j: u32 = 0;
                while j < size
                    invariant
                        size_ok(n),
                        n == size,
                        size <= 0xffff,
                        valid_state(res@, n),
                        state@.len() == n * n,
                        (swap + inversions(targets(res@, n), n * n)) % 2 == inversions(
                            targets(state@, n),
                            n * n,
                        ) % 2,
                        0 <= misplaced(res@, n, n * n),
                        swap + misplaced(res@, n, n * n) <= n * n,
                        i < size,
                        j <= size,
                        sorted ==> misplaced(res@, n, n * n) == m0,
                        sorted ==> forall|p: int|
                            0 <= p < i * n + j && p < res@.len() ==> goal_index(
                                (#[trigger] res@[p]) as int,
                                n,
                            ) == p,
                        !sorted ==> misplaced(res@, n, n * n) < m0,
                    decreases size - j,
                {
                    proof {
                        lemma_cell_index_bound(n, j as int, i as int);
                    }
                    let here: usize = (i * size + j) as usize;
                    let tile: u32 = res[here];
                    let v = Puzzle::get_coordinates(tile, size);
                    proof {
                        lemma_cell_index_bound(n, v.x as int, v.y as int);
                        if goal_index(tile as int, n) == here {
                            lemma_cell_index_injective(n, v.x as int, v.y as int, j as int, i as int);
                        }
                    }
                    if v.y != i || v.x != j {
                        let there: usize = (v.y * size + v.x) as usize;
                        let ghost before = res@;
                        proof {
                            lemma_swap_places(before, n, here as int);
                            lemma_misplaced_bounds(
                                swapped(before, there as int, here as int),
                                n,
                                n * n,
                            );
                        }
                        swap += 1;
                        let other: u32 = res[there];
                        res.set(there, tile);
                        res.set(here, other);
                        sorted = false;
                        proof {
                            assert(res@ =~= swapped(before, there as int, here as int));
                            lemma_swapped_valid(before, n, there as int, here as int);
                            lemma_swap_flips(before, n, there as int, here as int);
                            lemma_misplaced_bounds(res@, n, n * n);
                        }
                    }
                    j += 1;
                }
                assert((i + 1) * n == i * n + n) by (nonlinear_arith);
                i += 1;
            }
            proof {
                if sorted {
                    assert(size * n == n * n);
                }
            }
        }
        proof {
            let t = targets(res@, n);
            assert forall|i: int| 0 <= i < t.len() implies t[i] == i by {
                assert(goal_index(res@[i] as int, n) == i);
            }
            lemma_sorted_no_inversions(t, n * n);
        }
        swap % 2 == blank_dist % 2
    }

    /// Fills `state` with a random solvable board of side `size` and sets
    /// `blank` to the cell of its blank. Boards are drawn until one is
    /// solvable; the function gives up, with `state` empty, after as many
    /// draws as a `u64` counts.
    pub fn generate_random(state: &mut Vec<u32>, size: u32, blank: &mut Vec2) -> (made: bool)
        requires
            size_ok(size as int),
        ensures
            made ==> valid_state(final(state)@, size as int) && blank_at(
                final(state)@,
                size as int,
                final(blank).x as int,
                final(blank).y as int,
            ) && solvable(
                final(state)@,
                size as int,
                final(blank).x as int,
                final(blank).y as int,
            ),
            !made ==> final(state)@.len() == 0,
    {
        let total: u32 = size * size;
        assert(0 < size * size) by (nonlinear_arith)
            requires
                size >= 1,
        ;
        let mut draws: u64 = u64::MAX;
        state.clear();
        while draws > 0
            invariant
                size_ok(size as int),
                total == size * size,
                total > 0,
                state@.len() == 0,
            decreases draws,
        {
            draws -= 1;
            fill_tiles(state, size);
            let ghost filled = state@;
            assert(valid_state(filled, size as int) && filled[0] == 0) by {
                assert forall|p: int| 0 <= p < filled.len() implies (#[trigger] filled[p]) == p by {}
            }
            shuffle_tiles(state);
            proof {
                assert(filled[0] == 0);
                assert(filled.contains(0u32));
                lemma_rearranged_valid(filled, state@, size as int);
                filled.to_multiset_ensures();
                state@.to_multiset_ensures();
                assert(filled.to_multiset().count(0u32) > 0);
                assert(state@.to_multiset().count(0u32) > 0);
                assert(state@.contains(0u32));
                let p = choose|p: int| 0 <= p < state@.len() && state@[p] == 0u32;
                assert(state@[p] == 0);
                assert(has_blank(state@));
            }
            match find_blank(state.as_slice(), size) {
                Some(b) => {
                    *blank = b;
                    if Puzzle::sovable(state.as_slice(), size, b) {
                        return true;
                    }
                },
                None => {},
            }
            state.clear();
        }
        false
    }

    /// The puzzle that a list of numbers describes: the first number is the
    /// side of the board, the others are its tiles in row-major order.
    pub fn from_numbers(numbers: &[u32], silent: bool, algo: Algo, heuristic: Heuristic) -> (res:
        Result<Puzzle, PuzzleError>)
        ensures
            described(numbers@, silent, algo, heuristic, res),
    {
        if numbers.len() == 0 {
            return Err(PuzzleError::WrongCount);
        }
        let size: u32 = numbers[0];
        if size < 3 {
            return Err(PuzzleError::SizeTooSmall);
        }
        if size > 0xffff {
            return Err(PuzzleError::SizeTooLarge);
        }
        assert(size * size <= u32::MAX) by (nonlinear_arith)
            requires
                size <= 0xffff,
        ;
        let tiles = tiles_of(numbers);
        match first_repeat(tiles.as_slice()) {
            Some(k) => {
                return Err(PuzzleError::Duplicate(tiles[k]));
            },
            None => {},
        }
        if tiles.len() != (size * size) as usize {
            return Err(PuzzleError::WrongCount);
        }
        if !tiles_below(tiles.as_slice(), size * size) {
            return Err(PuzzleError::OutOfRange);
        }
        let blank = match find_blank(tiles.as_slice(), size) {
            Some(b) => b,
            None => {
                proof {
                    lemma_valid_has_blank(tiles@, size as int);
                }
                return Err(PuzzleError::OutOfRange);
            },
        };
        if !Puzzle::sovable(tiles.as_slice(), size, blank) {
            return Err(PuzzleError::Unsolvable);
        }
        Ok(
            Puzzle {
                total_open: 1,
                current_open: 1,
                coords: Puzzle::init_coordinates(size),
                size,
                initial_blank: blank,
                initial_state: tiles,
                silent,
                algo,
                heuristic,
            },
        )
    }

    /// The puzzle that a text describes: its first number is the side of the
    /// board, the others are its tiles in row-major order.
    pub fn from_text(text: &[u8], silent: bool, algo: Algo, heuristic: Heuristic) -> (res: Result<
        Puzzle,
        PuzzleError,
    >)
        ensures
            read_as(text@, silent, algo, heuristic, res),
    {
        let scan = read_numbers(text);
        match scan.bad {
            None => Puzzle::from_numbers(scan.numbers.as_slice(), silent, algo, heuristic),
            Some(at) => {
                if scan.numbers.len() == 0 {
                    return Err(PuzzleError::Unparsable(at));
                }
                let size: u32 = scan.numbers[0];
                if size < 3 {
                    return Err(PuzzleError::SizeTooSmall);
                }
                if size > 0xffff {
                    return Err(PuzzleError::SizeTooLarge);
                }
                let tiles = tiles_of(scan.numbers.as_slice());
                match first_repeat(tiles.as_slice()) {
                    Some(k) => Err(PuzzleError::Duplicate(tiles[k])),
                    None => Err(PuzzleError::Unparsable(at)),
                }
            },
        }
    }

    /// A puzzle from the text of a description, if there is one, else a
    /// random solvable puzzle of side `size`, if `random` is set.
    pub fn new(
        text: Option<&[u8]>,
        random: bool,
        size: u32,
        silent: bool,
        algo: Algo,
        heuristic: Heuristic,
    ) -> (res: Result<Puzzle, PuzzleError>)
        ensures
            text matches Some(bytes) ==> read_as(bytes@, silent, algo, heuristic, res),
            text.is_none() && !random ==> res == Err::<Puzzle, PuzzleError>(
                PuzzleError::WrongCount,
            ),
            text.is_none() && random ==> match res {
                Err(PuzzleError::SizeTooSmall) => size < 3,
                Err(PuzzleError::SizeTooLarge) => size > 0xffff,
                Err(PuzzleError::Unsolvable) => 3 <= size <= 0xffff,
                Err(_) => false,
                Ok(p) => 3 <= size <= 0xffff && p.wf() && p.size == size && p.silent == silent
                    && p.algo == algo && p.heuristic == heuristic && p.total_open == 1
                    && p.current_open == 1 && solvable(
                    p.initial_state@,
                    p.size as int,
                    p.initial_blank.x as int,
                    p.initial_blank.y as int,
                ),
            },
    {
        match text {
            Some(bytes) => Puzzle::from_text(bytes, silent, algo, heuristic),
            None => {
                if !random {
                    return Err(PuzzleError::WrongCount);
                }
                if size < 3 {
                    return Err(PuzzleError::SizeTooSmall);
                }
                if size > 0xffff {
                    return Err(PuzzleError::SizeTooLarge);
                }
                assert(size * size <= u32::MAX) by (nonlinear_arith)
                    requires
                        size <= 0xffff,
                ;
                let mut state: Vec<u32> = Vec::new();
                let mut blank = Vec2 { x: 0, y: 0 };
                if !Puzzle::generate_random(&mut state, size, &mut blank) {
                    return Err(PuzzleError::Unsolvable);
                }
                Ok(
                    Puzzle {
                        total_open: 1,
                        current_open: 1,
                        coords: Puzzle::init_coordinates(size),
                        size,
                        initial_blank: blank,
                        initial_state: state,
                        silent,
                        algo,
                        heuristic,
                    },
                )
            },
        }
    }
}

} // verus!
