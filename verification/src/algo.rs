//! The two searches: best-first with a closed list, and iterative deepening.
use vstd::prelude::*;

use crate::board::{
    blank_at, can_move, count_moves, is_move, is_walk, lemma_blank_unique, lemma_cell_index_bound,
    lemma_swapped_valid, moved, swapped, target, valid_state,
};
use crate::finite::{
    count_in, different_boards, digits, lemma_boards_bounded, lemma_count_bounds, lemma_count_more,
    lemma_count_same, lemma_count_taken, lemma_power_positive, power,
};
use crate::heuristic::{estimate, lemma_estimate_zero_iff_goal};
use crate::moves::{
    lemma_estimate_below_moves_left, lemma_estimate_chain, lemma_unsolvable_never_solved,
    lemma_walk_valid,
};
use crate::node::{copy_tiles, Node};
use crate::parity::{is_goal_layout, solvable};
use crate::solver::{Puzzle, Vec2};

verus! {

/// The search that a puzzle is solved with.
#[derive(Debug, Clone, Copy, PartialEq, Eq, Structural)]
pub enum Algo {
    AStar,
    IDAStar,
}

/// The nodes among the first `k` of `new` whose board no closed node holds,
/// in order.
pub open spec fn kept(new: Seq<Node>, nodes: Seq<Node>, close: Seq<usize>, k: int) -> Seq<Node>
    decreases k,
{
    if k <= 0 {
        Seq::empty()
    } else if listed(nodes, close, new[k - 1].state@) {
        kept(new, nodes, close, k - 1)
    } else {
        kept(new, nodes, close, k - 1).push(new[k - 1])
    }
}

/// A store that has grown lists the same boards through a list of its old
/// places.
pub proof fn lemma_listed_same(before: Seq<Node>, after: Seq<Node>, list: Seq<usize>, state: Seq<u32>)
    requires
        places(list, before.len() as int),
        after.len() >= before.len(),
        after.take(before.len() as int) == before,
    ensures
        listed(before, list, state) == listed(after, list, state),
{
    assert forall|k: int| 0 <= k < list.len() implies after[(#[trigger] list[k]) as int]
        == before[list[k] as int] by {
        assert(after.take(before.len() as int)[list[k] as int] == after[list[k] as int]);
    }
    if listed(before, list, state) {
        let k = choose|k: int|
            0 <= k < list.len() && before[(#[trigger] list[k]) as int].state@ == state;
        assert(after[list[k] as int].state@ == state);
    }
    if listed(after, list, state) {
        let k = choose|k: int| 0 <= k < list.len() && after[(#[trigger] list[k]) as int].state@ == state;
        assert(before[list[k] as int].state@ == state);
    }
}

/// A count that stops at the greatest number that a counter holds.
pub open spec fn capped(v: int) -> int {
    if v > u64::MAX {
        u64::MAX as int
    } else {
        v
    }
}

/// `base` and `more` together, or the greatest number that a counter holds.
pub fn count_from(base: u64, more: usize) -> (sum: u64)
    ensures
        sum == capped(base + more),
{
    let more: u64 = more as u64;
    if more > u64::MAX - base {
        u64::MAX
    } else {
        base + more
    }
}

/// Counts one more, unless the counter holds its greatest number.
pub fn bump(counter: &mut u64)
    ensures
        *final(counter) == capped(*old(counter) + 1),
{
    if *counter < u64::MAX {
        *counter += 1;
    }
}

/// The boards of the nodes that a list names, in the order of the list.
pub open spec fn open_boards(nodes: Seq<Node>, list: Seq<usize>) -> Seq<Seq<u32>> {
    Seq::new(list.len(), |j: int| nodes[list[j] as int].state@)
}

/// `fresh` holds every closed board once: its boards are different valid
/// boards, each closed node's board is among them, and each of them is the
/// board of a closed node.
#[verifier::opaque]
pub open spec fn closed_once(nodes: Seq<Node>, close: Seq<usize>, fresh: Seq<Seq<u32>>, size: int) -> bool {
    &&& different_boards(fresh, size * size, size * size)
    &&& forall|c: int| 0 <= c < close.len() ==> fresh.contains(nodes[(#[trigger] close[c]) as int].state@)
    &&& forall|i: int| 0 <= i < fresh.len() ==> listed(nodes, close, #[trigger] fresh[i])
}

/// How many nodes of the frontier hold a closed board.
pub open spec fn stale(nodes: Seq<Node>, open: Seq<usize>, fresh: Seq<Seq<u32>>) -> int {
    count_in(open_boards(nodes, open), fresh, open.len() as int)
}

/// One round of the best-first search closes a board that was not closed, or
/// leaves one node fewer in the frontier that holds a closed board. The
/// round takes the node at `k` out of the frontier, adds nodes whose boards
/// are not closed, and closes the node.
pub proof fn lemma_round(
    nodes0: Seq<Node>,
    open0: Seq<usize>,
    open1: Seq<usize>,
    close0: Seq<usize>,
    fresh: Seq<Seq<u32>>,
    nodes2: Seq<Node>,
    open2: Seq<usize>,
    close2: Seq<usize>,
    cur: usize,
    k: int,
    size: int,
) -> (fresh2: Seq<Seq<u32>>)
    requires
        size >= 1,
        closed_once(nodes0, close0, fresh, size),
        places(open0, nodes0.len() as int),
        places(close0, nodes0.len() as int),
        0 <= k < open0.len(),
        open0[k] == cur,
        open1 == open0.update(k, open0.last()).drop_last(),
        valid_state(nodes0[cur as int].state@, size),
        nodes2.len() >= nodes0.len(),
        nodes2.take(nodes0.len() as int) == nodes0,
        open2.len() >= open1.len(),
        open2.take(open1.len() as int) == open1,
        close2 == close0.push(cur),
        forall|j: int|
            open1.len() <= j < open2.len() ==> !listed(
                nodes0,
                close0,
                nodes2[(#[trigger] open2[j]) as int].state@,
            ),
    ensures
        closed_once(nodes2, close2, fresh2, size),
        fresh2.len() <= power(size * size, size * size),
        0 <= stale(nodes2, open2, fresh2),
        fresh2.len() == fresh.len() + 1 || (fresh2 == fresh && stale(nodes2, open2, fresh2) < stale(
            nodes0,
            open0,
            fresh,
        )),
{
    reveal(closed_once);
    let b = nodes0[cur as int].state@;
    let ob0 = open_boards(nodes0, open0);
    let ob1 = open_boards(nodes0, open1);
    let ob2 = open_boards(nodes2, open2);
    let len1 = open1.len() as int;
    assert forall|j: int| 0 <= j < nodes0.len() implies nodes2[j] == nodes0[j] by {
        assert(nodes2.take(nodes0.len() as int)[j] == nodes2[j]);
    }
    assert(ob1 =~= ob0.update(k, ob0.last()).drop_last());
    lemma_count_taken(ob0, fresh, k);
    assert forall|j: int| 0 <= j < len1 implies ob2[j] == ob1[j] by {
        assert(open2.take(len1)[j] == open2[j]);
        assert(open1[j] == if j == k { open0.last() } else { open0[j] });
    }
    lemma_count_same(ob2, ob1, fresh, len1);
    assert forall|j: int| len1 <= j < open2.len() implies !fresh.contains(#[trigger] ob2[j]) by {
        if fresh.contains(ob2[j]) {
            let i = choose|i: int| 0 <= i < fresh.len() && fresh[i] == ob2[j];
            assert(listed(nodes0, close0, fresh[i]));
            assert(!listed(nodes0, close0, nodes2[open2[j] as int].state@));
        }
    }
    lemma_count_more(ob2, fresh, len1, open2.len() as int);
    let fresh2 = if fresh.contains(b) { fresh } else { fresh.push(b) };
    assert forall|i: int| 0 <= i < fresh.len() implies fresh2.contains(#[trigger] fresh[i]) by {
        assert(fresh2[i] == fresh[i]);
    }
    assert(fresh2.contains(b)) by {
        if !fresh.contains(b) {
            assert(fresh2[fresh.len() as int] == b);
        }
    }
    assert forall|c: int| 0 <= c < close2.len() implies fresh2.contains(
        nodes2[(#[trigger] close2[c]) as int].state@,
    ) by {
        if c < close0.len() {
            let x = nodes0[close0[c] as int].state@;
            assert(fresh.contains(x));
            let i = choose|i: int| 0 <= i < fresh.len() && fresh[i] == x;
            assert(fresh2.contains(fresh[i]));
        }
    }
    assert forall|i: int| 0 <= i < fresh2.len() implies listed(nodes2, close2, #[trigger] fresh2[i]) by {
        if i < fresh.len() {
            assert(listed(nodes0, close0, fresh[i]));
            let c = choose|c: int|
                0 <= c < close0.len() && nodes0[(#[trigger] close0[c]) as int].state@ == fresh[i];
            assert(nodes2[close2[c] as int].state@ == fresh2[i]);
        } else {
            assert(nodes2[close2[close0.len() as int] as int].state@ == b);
        }
    }
    assert(different_boards(fresh2, size * size, size * size)) by {
        assert forall|i: int| 0 <= i < fresh2.len() implies (#[trigger] fresh2[i]).len() == size
            * size && digits(fresh2[i], size * size) by {
            if i < fresh.len() {
                assert(fresh2[i] == fresh[i]);
            }
        }
        assert forall|i: int, j: int| 0 <= i < j < fresh2.len() implies fresh2[i] != fresh2[j] by {
            if j < fresh.len() {
                assert(fresh[i] != fresh[j]);
            } else {
                assert(fresh.contains(fresh[i]));
            }
        }
    }
    assert(size * size >= 1) by (nonlinear_arith)
        requires
            size >= 1,
    ;
    lemma_boards_bounded(fresh2, size * size, size * size);
    lemma_count_bounds(ob2, fresh2, open2.len() as int);
    fresh2
}

/// The counters are those of a best-first search: `total_open` has grown
/// by the number of nodes that entered the frontier, which with the first
/// node make up a sound store, and `current_open`, less the first node that
/// left, by the number of nodes that the frontier still holds.
pub open spec fn counted(
    total_before: u64,
    current_before: u64,
    total_after: u64,
    current_after: u64,
    puzzle: Puzzle,
) -> bool {
    exists|nodes: Seq<Node>, open: Seq<usize>| #[trigger]
        store_ok(nodes, puzzle) && nodes.len() >= 1 && #[trigger] places(open, nodes.len() as int)
            && total_after == capped(total_before + nodes.len() - 1) && current_after == capped(
            current_before - 1 + open.len(),
        )
}

/// Best-first search over a frontier ordered by `f`, with a closed list
/// that keeps a board from entering the frontier once it was expanded.
pub struct Astar {}

/// Depth-first search under a bound on `f` that grows from one round to
/// the next.
pub struct IDAstar {}

/// The node holds a valid board of the puzzle, the cell of its blank and
/// the configured estimate of the board.
pub open spec fn node_ok(node: Node, puzzle: Puzzle) -> bool {
    &&& valid_state(node.state@, puzzle.size as int)
    &&& blank_at(node.state@, puzzle.size as int, node.blank.x as int, node.blank.y as int)
    &&& node.h == estimate(puzzle.heuristic, node.state@, puzzle.size as int)
}

/// `child` is what one move of the blank in direction `dir` makes of
/// `node`, which stands at `at` in its store.
pub open spec fn child_by(child: Node, node: Node, at: usize, puzzle: Puzzle, dir: int) -> bool {
    let size = puzzle.size as int;
    let bx = node.blank.x as int;
    let by = node.blank.y as int;
    &&& can_move(size, bx, by, dir)
    &&& child.state@ == moved(node.state@, size, bx, by, dir)
    &&& child.blank.cell() == target(bx, by, dir)
    &&& child.father == Some(at)
    &&& child.g == node.g + 1
    &&& child.f == child.g + child.h
    &&& node_ok(child, puzzle)
}

/// `child` is what some move of the blank makes of `node`.
pub open spec fn is_child(child: Node, node: Node, at: usize, puzzle: Puzzle) -> bool {
    exists|dir: int| child_by(child, node, at, puzzle, dir)
}

/// Whether the node's board is the goal: its estimate is zero.
pub fn is_goal(node: &Node) -> (goal: bool)
    ensures
        goal == (node.h == 0),
{
    node.h == 0
}

/// The node that one move of the blank in direction `dir` makes of `node`,
/// if the move stays on the board.
fn step(puzzle: &Puzzle, node: &Node, at: usize, dir: u8) -> (res: Option<Node>)
    requires
        puzzle.table_ready(),
        node_ok(*node, *puzzle),
        node.g < u64::MAX,
        dir < 4,
    ensures
        res.is_some() == can_move(
            puzzle.size as int,
            node.blank.x as int,
            node.blank.y as int,
            dir as int,
        ),
        res matches Some(child) ==> child_by(child, *node, at, *puzzle, dir as int),
{
    let size: u32 = puzzle.size;
    let bx: u32 = node.blank.x;
    let by: u32 = node.blank.y;
    let blank: Vec2 = if dir == 0 {
        if bx == 0 {
            return None;
        }
        Vec2 { x: bx - 1, y: by }
    } else if dir == 1 {
        if bx + 1 >= size {
            return None;
        }
        Vec2 { x: bx + 1, y: by }
    } else if dir == 2 {
        if by == 0 {
            return None;
        }
        Vec2 { x: bx, y: by - 1 }
    } else {
        if by + 1 >= size {
            return None;
        }
        Vec2 { x: bx, y: by + 1 }
    };
    proof {
        lemma_cell_index_bound(size as int, bx as int, by as int);
        lemma_cell_index_bound(size as int, blank.x as int, blank.y as int);
    }
    let from: usize = (by * size + bx) as usize;
    let to: usize = (blank.y * size + blank.x) as usize;
    let mut state = copy_tiles(node.state.as_slice());
    let tile: u32 = state[to];
    state.set(to, 0);
    state.set(from, tile);
    proof {
        assert(state@ =~= swapped(node.state@, to as int, from as int));
        lemma_swapped_valid(node.state@, size as int, to as int, from as int);
    }
    let h: u64 = puzzle.calculate_heuristic(state.as_slice());
    let g: u64 = node.g + 1;
    Some(Node { state, father: Some(at), blank, g, h, f: g as u128 + h as u128 })
}

/// The nodes that the legal moves of the blank make of `node`, which stands
/// at `at` in its store: left, right, up, down, in this order.
pub fn neighbors(puzzle: &Puzzle, node: &Node, at: usize) -> (res: Vec<Node>)
    requires
        puzzle.table_ready(),
        node_ok(*node, *puzzle),
        node.g < u64::MAX,
    ensures
        res.len() == count_moves(puzzle.size as int, node.blank.x as int, node.blank.y as int, 4),
        res.len() <= 4,
        forall|dir: int|
            #![trigger can_move(puzzle.size as int, node.blank.x as int, node.blank.y as int, dir)]
            can_move(puzzle.size as int, node.blank.x as int, node.blank.y as int, dir) ==> {
                let k = count_moves(
                    puzzle.size as int,
                    node.blank.x as int,
                    node.blank.y as int,
                    dir,
                );
                0 <= k < res.len() && child_by(res@[k], *node, at, *puzzle, dir)
            },
        forall|k: int| 0 <= k < res.len() ==> is_child(#[trigger] res@[k], *node, at, *puzzle),
{
    let ghost size = puzzle.size as int;
    let ghost bx = node.blank.x as int;
    let ghost by = node.blank.y as int;
    let mut res: Vec<Node> = Vec::new();
    let mut dir: u8 = 0;
    while dir < 4
        invariant
            puzzle.table_ready(),
            node_ok(*node, *puzzle),
            node.g < u64::MAX,
            size == puzzle.size,
            bx == node.blank.x,
            by == node.blank.y,
            dir <= 4,
            res.len() == count_moves(size, bx, by, dir as int),
            res.len() <= dir,
            forall|d: int|
                #![trigger can_move(size, bx, by, d)]
                d < dir && can_move(size, bx, by, d) ==> {
                    let k = count_moves(size, bx, by, d);
                    0 <= k < res.len() && child_by(res@[k], *node, at, *puzzle, d)
                },
            forall|k: int| 0 <= k < res.len() ==> is_child(#[trigger] res@[k], *node, at, *puzzle),
        decreases 4 - dir,
    {
        let ghost before = res@;
        match step(puzzle, node, at, dir) {
            Some(child) => {
                res.push(child);
                assert forall|k: int| 0 <= k < res.len() implies is_child(
                    #[trigger] res@[k],
                    *node,
                    at,
                    *puzzle,
                ) by {
                    if k < before.len() {
                        assert(res@[k] == before[k]);
                    } else {
                        assert(child_by(res@[k], *node, at, *puzzle, dir as int));
                    }
                }
            },
            None => {},
        }
        assert forall|d: int|
            #![trigger can_move(size, bx, by, d)]
            d < dir + 1 && can_move(size, bx, by, d) implies {
            let k = count_moves(size, bx, by, d);
            0 <= k < res.len() && child_by(res@[k], *node, at, *puzzle, d)
        } by {
            let k = count_moves(size, bx, by, d);
            if d < dir {
                assert(res@[k] == before[k]);
            } else {
                assert(k == before.len());
            }
        }
        dir += 1;
    }
    res
}

/// What a search reports.
pub enum Outcome {
    /// A node with estimate zero was reached after `steps` moves. `path`
    /// holds the boards from the initial one to the last, or nothing when
    /// the puzzle is silent.
    Solved { steps: u64, path: Vec<Vec<u32>> },
    /// The search ran out of nodes.
    NoSolution,
}

/// The boards of a list as sequences of tiles.
pub open spec fn boards(v: Seq<Vec<u32>>) -> Seq<Seq<u32>> {
    Seq::new(v.len(), |i: int| v[i]@)
}

/// The boards of a list of nodes.
pub open spec fn node_boards(v: Seq<Node>) -> Seq<Seq<u32>> {
    Seq::new(v.len(), |i: int| v[i].state@)
}

/// `p` leads from the initial board of the puzzle, move by move, to a board
/// whose estimate is zero.
pub open spec fn solves(p: Seq<Seq<u32>>, puzzle: Puzzle) -> bool {
    &&& p.len() >= 1
    &&& p[0] == puzzle.initial_state@
    &&& is_walk(p, puzzle.size as int)
    &&& estimate(puzzle.heuristic, p.last(), puzzle.size as int) == 0
}

/// What a search states of a solution that it reports: some walk from the
/// initial board to a board of estimate zero has `steps` moves, `path` holds
/// its boards unless the puzzle is silent, and no solution has fewer moves.
pub open spec fn found(steps: u64, path: Seq<Vec<u32>>, puzzle: Puzzle) -> bool {
    &&& exists|p: Seq<Seq<u32>>|
        #[trigger] solves(p, puzzle) && p.len() == steps + 1 && if puzzle.silent {
            path.len() == 0
        } else {
            boards(path) == p
        }
    &&& forall|other: Seq<Seq<u32>>| #[trigger]
        solves(other, puzzle) ==> steps <= other.len() - 1
}

/// Two searches of one instance with one estimate report solutions of the
/// same number of moves, whichever search each of them is.
pub proof fn lemma_same_length(
    first: Puzzle,
    steps_first: u64,
    path_first: Seq<Vec<u32>>,
    second: Puzzle,
    steps_second: u64,
    path_second: Seq<Vec<u32>>,
)
    requires
        first.size == second.size,
        first.initial_state@ == second.initial_state@,
        first.heuristic == second.heuristic,
        found(steps_first, path_first, first),
        found(steps_second, path_second, second),
    ensures
        steps_first == steps_second,
{
    let p = choose|p: Seq<Seq<u32>>| #[trigger] solves(p, first) && p.len() == steps_first + 1;
    let q = choose|q: Seq<Seq<u32>>| #[trigger] solves(q, second) && q.len() == steps_second + 1;
    assert(solves(p, second));
    assert(solves(q, first));
}

/// The last board of a solution of a valid instance is the goal layout.
pub proof fn lemma_solution_ends_at_goal(p: Seq<Seq<u32>>, puzzle: Puzzle)
    requires
        puzzle.size >= 1,
        valid_state(puzzle.initial_state@, puzzle.size as int),
        solves(p, puzzle),
    ensures
        is_goal_layout(p.last(), puzzle.size as int),
{
    lemma_walk_valid(p, puzzle.size as int, p.len() - 1);
    lemma_estimate_zero_iff_goal(puzzle.heuristic, p.last(), puzzle.size as int);
}

/// The initial board of the puzzle passes the solvability test.
pub open spec fn passes(puzzle: Puzzle) -> bool {
    solvable(
        puzzle.initial_state@,
        puzzle.size as int,
        puzzle.initial_blank.x as int,
        puzzle.initial_blank.y as int,
    )
}

/// A ready puzzle whose initial board fails the solvability test has no
/// solution.
pub proof fn lemma_failing_has_no_solution(puzzle: Puzzle, p: Seq<Seq<u32>>)
    requires
        puzzle.wf(),
        !passes(puzzle),
    ensures
        !solves(p, puzzle),
{
    if solves(p, puzzle) {
        lemma_unsolvable_never_solved(
            puzzle.heuristic,
            p,
            puzzle.size as int,
            puzzle.initial_blank.x as int,
            puzzle.initial_blank.y as int,
        );
    }
}

/// Two contexts describe the same instance and differ in their counters at most.
pub open spec fn same_instance(a: Puzzle, b: Puzzle) -> bool {
    &&& a.size == b.size
    &&& a.coords == b.coords
    &&& a.initial_state == b.initial_state
    &&& a.initial_blank == b.initial_blank
    &&& a.silent == b.silent
    &&& a.algo == b.algo
    &&& a.heuristic == b.heuristic
}

/// Node `i` of a store is sound: it is the initial board at cost zero, or
/// comes by one move from an earlier node of the store at one more than
/// that node's cost.
pub open spec fn link_ok(nodes: Seq<Node>, i: int, puzzle: Puzzle) -> bool {
    &&& node_ok(nodes[i], puzzle)
    &&& nodes[i].g <= i
    &&& nodes[i].f <= nodes[i].g + nodes[i].h
    &&& match nodes[i].father {
        Some(p) => p < i && is_move(nodes[p as int].state@, nodes[i].state@, puzzle.size as int)
            && nodes[i].g == nodes[p as int].g + 1 && nodes[i].f == nodes[i].g + nodes[i].h,
        None => nodes[i].state@ == puzzle.initial_state@ && nodes[i].g == 0,
    }
}

/// Every node of the store is sound.
pub open spec fn store_ok(nodes: Seq<Node>, puzzle: Puzzle) -> bool {
    forall|i: int| 0 <= i < nodes.len() ==> #[trigger] link_ok(nodes, i, puzzle)
}

/// The boards from the first node of the store down to node `i`, along the fathers.
pub open spec fn chain(nodes: Seq<Node>, i: int) -> Seq<Seq<u32>>
    decreases i,
{
    if i > 0 && nodes[i].father.is_some() && nodes[i].father.unwrap() < i {
        chain(nodes, nodes[i].father.unwrap() as int).push(nodes[i].state@)
    } else {
        seq![nodes[i].state@]
    }
}

/// In a sound store the chain of a node is a walk from the initial board to
/// the node's board, as long as the node's cost says.
pub proof fn lemma_chain_walk(nodes: Seq<Node>, i: int, puzzle: Puzzle)
    requires
        store_ok(nodes, puzzle),
        0 <= i < nodes.len(),
    ensures
        chain(nodes, i).len() == nodes[i].g + 1,
        chain(nodes, i)[0] == puzzle.initial_state@,
        chain(nodes, i).last() == nodes[i].state@,
        is_walk(chain(nodes, i), puzzle.size as int),
    decreases i,
{
    assert(link_ok(nodes, i, puzzle));
    let c = chain(nodes, i);
    if i > 0 && nodes[i].father.is_some() && nodes[i].father.unwrap() < i {
        let p = nodes[i].father.unwrap() as int;
        lemma_chain_walk(nodes, p, puzzle);
        let before = chain(nodes, p);
        assert forall|k: int| 0 <= k < c.len() - 1 implies is_move(
            #[trigger] c[k],
            c[k + 1],
            puzzle.size as int,
        ) by {
            if k < before.len() - 1 {
                assert(is_move(before[k], before[k + 1], puzzle.size as int));
            }
        }
    }
}

/// The boards along the fathers from the first node of the store to node `i`.
fn trace(nodes: &Vec<Node>, i: usize) -> (path: Vec<Vec<u32>>)
    requires
        i < nodes.len(),
        forall|k: int|
            0 <= k < nodes.len() && (#[trigger] nodes@[k]).father.is_some()
                ==> nodes@[k].father.unwrap() < k,
    ensures
        boards(path@) == chain(nodes@, i as int),
    decreases i,
{
    match nodes[i].father {
        Some(p) => {
            let mut path = trace(nodes, p);
            let ghost before = path@;
            path.push(copy_tiles(nodes[i].state.as_slice()));
            assert(boards(path@) =~= boards(before).push(nodes@[i as int].state@));
            path
        },
        None => {
            let mut path: Vec<Vec<u32>> = Vec::new();
            path.push(copy_tiles(nodes[i].state.as_slice()));
            assert(boards(path@) =~= seq![nodes@[i as int].state@]);
            path
        },
    }
}

/// Every entry of the list is a place in the store.
pub open spec fn places(list: Seq<usize>, len: int) -> bool {
    forall|k: int| 0 <= k < list.len() ==> (#[trigger] list[k]) < len
}

/// Some node that the list names holds the board `state`.
pub open spec fn listed(nodes: Seq<Node>, list: Seq<usize>, state: Seq<u32>) -> bool {
    exists|k: int| 0 <= k < list.len() && nodes[(#[trigger] list[k]) as int].state@ == state
}

/// The list names place `j`.
pub open spec fn lists(list: Seq<usize>, j: int) -> bool {
    exists|k: int| 0 <= k < list.len() && #[trigger] list[k] == j
}

/// No closed node has estimate zero.
pub open spec fn closed_open_ended(nodes: Seq<Node>, close: Seq<usize>) -> bool {
    forall|c: int| 0 <= c < close.len() ==> nodes[(#[trigger] close[c]) as int].h != 0
}

/// Some node that the list names holds the board `state` at a cost of
/// `cost` at most.
pub open spec fn listed_within(nodes: Seq<Node>, list: Seq<usize>, state: Seq<u32>, cost: int) -> bool {
    exists|k: int|
        0 <= k < list.len() && nodes[(#[trigger] list[k]) as int].state@ == state && nodes[list[k] as int].g
            <= cost
}

/// `w` is a walk from the initial board of the puzzle to the board `state`.
pub open spec fn walk_to(w: Seq<Seq<u32>>, puzzle: Puzzle, state: Seq<u32>) -> bool {
    &&& w.len() >= 1
    &&& w[0] == puzzle.initial_state@
    &&& is_walk(w, puzzle.size as int)
    &&& w.last() == state
}

/// For every closed board, some closed node holds it at a cost that no walk
/// from the initial board to it goes below.
pub open spec fn closed_best(nodes: Seq<Node>, close: Seq<usize>, puzzle: Puzzle) -> bool {
    forall|c: int, w: Seq<Seq<u32>>|
        0 <= c < close.len() && #[trigger] walk_to(w, puzzle, nodes[close[c] as int].state@)
            ==> listed_within(nodes, close, w.last(), w.len() - 1)
}

/// Every board one move away from the board of a closed node is closed, or
/// is `spare`, or stands in the frontier at one more than that node's cost at
/// most.
pub open spec fn closed_followed(
    nodes: Seq<Node>,
    open: Seq<usize>,
    close: Seq<usize>,
    size: int,
    spare: Option<Seq<u32>>,
) -> bool {
    forall|c: int, t: Seq<u32>|
        0 <= c < close.len() && #[trigger] is_move(nodes[close[c] as int].state@, t, size)
            ==> listed(nodes, close, t) || spare == Some(t) || listed_within(
            nodes,
            open,
            t,
            nodes[close[c] as int].g + 1,
        )
}

/// Node `cur` holds its board at a cost that no walk from the initial board
/// to it goes below, or the board is closed at such a cost.
pub open spec fn popped_best(nodes: Seq<Node>, close: Seq<usize>, puzzle: Puzzle, cur: int) -> bool {
    forall|w: Seq<Seq<u32>>| #[trigger]
        walk_to(w, puzzle, nodes[cur].state@) ==> nodes[cur].g <= w.len() - 1 || listed_within(
            nodes,
            close,
            w.last(),
            w.len() - 1,
        )
}

/// Along a walk from the initial board, up to board `i`, some board stands
/// in the frontier at a cost that is at most its place in the walk, or
/// board `i` is closed at such a cost.
pub proof fn lemma_reach(
    nodes: Seq<Node>,
    open: Seq<usize>,
    close: Seq<usize>,
    puzzle: Puzzle,
    w: Seq<Seq<u32>>,
    i: int,
)
    requires
        store_ok(nodes, puzzle),
        nodes.len() >= 1,
        places(open, nodes.len() as int),
        places(close, nodes.len() as int),
        lists(open, 0) || lists(close, 0),
        closed_best(nodes, close, puzzle),
        closed_followed(nodes, open, close, puzzle.size as int, None),
        w.len() >= 1,
        w[0] == puzzle.initial_state@,
        is_walk(w, puzzle.size as int),
        0 <= i < w.len(),
    ensures
        (exists|k: int| 0 <= k <= i && #[trigger] listed_within(nodes, open, w[k], k))
            || listed_within(nodes, close, w[i], i),
    decreases i,
{
    if i == 0 {
        assert(link_ok(nodes, 0, puzzle));
        if lists(open, 0) {
            let k = choose|k: int| 0 <= k < open.len() && #[trigger] open[k] == 0;
            assert(nodes[open[k] as int].state@ == w[0]);
            assert(listed_within(nodes, open, w[0], 0));
        } else {
            let k = choose|k: int| 0 <= k < close.len() && #[trigger] close[k] == 0;
            assert(nodes[close[k] as int].state@ == w[0]);
        }
    } else {
        lemma_reach(nodes, open, close, puzzle, w, i - 1);
        if exists|k: int| 0 <= k <= i - 1 && #[trigger] listed_within(nodes, open, w[k], k) {
            let k = choose|k: int| 0 <= k <= i - 1 && #[trigger] listed_within(nodes, open, w[k], k);
            assert(0 <= k <= i && listed_within(nodes, open, w[k], k));
        } else {
            let c = choose|c: int|
                0 <= c < close.len() && nodes[(#[trigger] close[c]) as int].state@ == w[i - 1]
                    && nodes[close[c] as int].g <= i - 1;
            assert(is_move(w[i - 1], w[i - 1 + 1], puzzle.size as int));
            assert(is_move(nodes[close[c] as int].state@, w[i], puzzle.size as int));
            if listed(nodes, close, w[i]) {
                let c3 = choose|c3: int|
                    0 <= c3 < close.len() && nodes[(#[trigger] close[c3]) as int].state@ == w[i];
                let head = w.take(i + 1);
                assert forall|k: int| 0 <= k < head.len() - 1 implies is_move(
                    #[trigger] head[k],
                    head[k + 1],
                    puzzle.size as int,
                ) by {
                    assert(is_move(w[k], w[k + 1], puzzle.size as int));
                }
                assert(walk_to(head, puzzle, nodes[close[c3] as int].state@));
            } else {
                assert(listed_within(nodes, open, w[i], i));
            }
        }
    }
}

/// The node that leaves the frontier with the least `f` holds its board at
/// the least cost, unless the board is closed at such a cost already.
pub proof fn lemma_popped_best(
    nodes: Seq<Node>,
    open: Seq<usize>,
    close: Seq<usize>,
    puzzle: Puzzle,
    cur: int,
    w: Seq<Seq<u32>>,
)
    requires
        valid_state(puzzle.initial_state@, puzzle.size as int),
        store_ok(nodes, puzzle),
        nodes.len() >= 1,
        places(open, nodes.len() as int),
        places(close, nodes.len() as int),
        lists(open, 0) || lists(close, 0),
        closed_best(nodes, close, puzzle),
        closed_followed(nodes, open, close, puzzle.size as int, None),
        0 <= cur < nodes.len(),
        forall|k: int| 0 <= k < open.len() ==> nodes[cur].f <= nodes[(#[trigger] open[k]) as int].f,
        w.len() >= 1,
        w[0] == puzzle.initial_state@,
        is_walk(w, puzzle.size as int),
    ensures
        nodes[cur].g + nodes[cur].h <= w.len() - 1 + estimate(
            puzzle.heuristic,
            w.last(),
            puzzle.size as int,
        ) || listed_within(nodes, close, w.last(), w.len() - 1),
{
    lemma_reach(nodes, open, close, puzzle, w, w.len() - 1);
    if !listed_within(nodes, close, w.last(), w.len() - 1) {
        let k = choose|k: int| 0 <= k <= w.len() - 1 && #[trigger] listed_within(nodes, open, w[k], k);
        let m = choose|m: int|
            0 <= m < open.len() && nodes[(#[trigger] open[m]) as int].state@ == w[k] && nodes[open[m] as int].g
                <= k;
        let j = open[m] as int;
        assert(link_ok(nodes, j, puzzle));
        assert(link_ok(nodes, cur, puzzle));
        lemma_estimate_chain(puzzle.heuristic, w, puzzle.size as int, k);
        lemma_estimate_chain(puzzle.heuristic, w, puzzle.size as int, 0);
        assert(nodes[cur].f <= nodes[j].f);
    }
}

/// Some node of the store holds the board `state`.
pub open spec fn stored(nodes: Seq<Node>, state: Seq<u32>) -> bool {
    exists|j: int| 0 <= j < nodes.len() && (#[trigger] nodes[j]).state@ == state
}

/// Whether a node named by the list holds the same board as `node`.
fn in_list(nodes: &Vec<Node>, list: &Vec<usize>, node: &Node) -> (found: bool)
    requires
        places(list@, nodes.len() as int),
    ensures
        found == listed(nodes@, list@, node.state@),
{
    let mut k: usize = 0;
    while k < list.len()
        invariant
            places(list@, nodes.len() as int),
            k <= list.len(),
            forall|j: int| 0 <= j < k ==> nodes@[(#[trigger] list@[j]) as int].state@ != node.state@,
        decreases list.len() - k,
    {
        if nodes[list[k]].same_state(node) {
            return true;
        }
        k += 1;
    }
    false
}

/// Takes a node with the least `f` out of the frontier: the first such
/// node in the frontier's order.
fn pop_min(nodes: &Vec<Node>, open: &mut Vec<usize>) -> (idx: usize)
    requires
        old(open).len() > 0,
        places(old(open)@, nodes.len() as int),
    ensures
        idx < nodes.len(),
        exists|k: int|
            0 <= k < old(open).len() && #[trigger] old(open)@[k] == idx && final(open)@ == old(open)@.update(k, old(open)@.last()).drop_last(),
        forall|k: int|
            0 <= k < old(open).len() ==> nodes@[idx as int].f <= nodes@[(#[trigger] old(open)@[k]) as int].f,
        places(final(open)@, nodes.len() as int),
{
    let mut best: usize = 0;
    let mut k: usize = 1;
    while k < open.len()
        invariant
            open.len() > 0,
            places(open@, nodes.len() as int),
            best < open.len(),
            k <= open.len(),
            forall|j: int|
                0 <= j < k ==> nodes@[open@[best as int] as int].f <= nodes@[(#[trigger] open@[j]) as int].f,
        decreases open.len() - k,
    {
        if nodes[open[k]].before(&nodes[open[best]]) {
            best = k;
        }
        k += 1;
    }
    let idx = open.swap_remove(best);
    idx
}

impl Astar {
    /// Runs the search on the puzzle and counts in `total_open` and
    /// `current_open`. A node with the least `f` leaves the frontier; if its
    /// estimate is zero the search ends with it, else its children enter the
    /// frontier unless their board is closed, and the node is closed. A
    /// solution is reported exactly if there is one; it is a walk from the
    /// initial board to a board of estimate zero, and no solution has fewer
    /// moves. Every node that entered the frontier is counted in
    /// `total_open`, and `current_open` follows the size of the frontier; a
    /// counter stops at its greatest number.
    pub fn solve(puzzle: &mut Puzzle) -> (res: Outcome)
        requires
            old(puzzle).wf(),
            1 <= old(puzzle).current_open,
        ensures
            same_instance(*final(puzzle), *old(puzzle)),
            final(puzzle).total_open >= old(puzzle).total_open,
            final(puzzle).current_open >= old(puzzle).current_open - 1,
            counted(
                old(puzzle).total_open,
                old(puzzle).current_open,
                final(puzzle).total_open,
                final(puzzle).current_open,
                *old(puzzle),
            ),
            (exists|p: Seq<Seq<u32>>| solves(p, *old(puzzle))) ==> res is Solved,
            !passes(*old(puzzle)) ==> res is NoSolution,
            match res {
                Outcome::Solved { steps, path } => found(steps, path@, *old(puzzle)) && final(puzzle).total_open >= capped(old(puzzle).total_open + steps) && (estimate(
                    old(puzzle).heuristic,
                    old(puzzle).initial_state@,
                    old(puzzle).size as int,
                ) == 0 ==> steps == 0 && final(puzzle).total_open == old(puzzle).total_open
                    && final(puzzle).current_open == old(puzzle).current_open - 1),
                Outcome::NoSolution => final(puzzle).current_open == old(puzzle).current_open - 1
                    && forall|p: Seq<Seq<u32>>| !#[trigger] solves(p, *old(puzzle)),
            },
    {
        let mut total_open: u64 = puzzle.total_open;
        let mut current_open: u64 = puzzle.current_open;
        let res = Astar::run(puzzle, &mut total_open, &mut current_open);
        proof {
            if !passes(*puzzle) && res is Solved {
                let p = choose|p: Seq<Seq<u32>>| solves(p, *puzzle);
                lemma_failing_has_no_solution(*puzzle, p);
            }
        }
        puzzle.total_open = total_open;
        puzzle.current_open = current_open;
        res
    }

    /// The search itself, with the counters apart from the puzzle.
    fn run(puzzle: &Puzzle, total_open: &mut u64, current_open: &mut u64) -> (res: Outcome)
        requires
            puzzle.wf(),
            1 <= *old(current_open),
        ensures
            *final(total_open) >= *old(total_open),
            *final(current_open) >= *old(current_open) - 1,
            counted(
                *old(total_open),
                *old(current_open),
                *final(total_open),
                *final(current_open),
                *puzzle,
            ),
            match res {
                Outcome::Solved { steps, path } => found(steps, path@, *puzzle) && *final(total_open)
                    >= capped(*old(total_open) + steps) && (estimate(
                    puzzle.heuristic,
                    puzzle.initial_state@,
                    puzzle.size as int,
                ) == 0 ==> steps == 0 && *final(total_open) == *old(total_open) && *final(current_open) == *old(current_open) - 1),
                Outcome::NoSolution => *final(current_open) == *old(current_open) - 1 && forall|
                    p: Seq<Seq<u32>>,
                |
                    !#[trigger] solves(p, *puzzle),
            },
    {
        let ghost size = puzzle.size as int;
        let state = copy_tiles(puzzle.initial_state.as_slice());
        let h: u64 = puzzle.calculate_heuristic(state.as_slice());
        let root = Node { state, father: None, blank: puzzle.initial_blank, g: 0, h, f: 0 };
        let mut nodes: Vec<Node> = Vec::new();
        nodes.push(root);
        let mut open: Vec<usize> = Vec::new();
        open.push(0);
        let mut close: Vec<usize> = Vec::new();
        let base: u64 = *current_open - 1;
        let ghost mut fresh: Seq<Seq<u32>> = Seq::empty();
        proof {
            assert(link_ok(nodes@, 0, *puzzle));
            assert(open@[0] == 0);
            assert(lists(open@, 0));
            assert(closed_once(nodes@, close@, fresh, size)) by {
                reveal(closed_once);
            }
            assert(size * size >= 1) by (nonlinear_arith)
                requires
                    size >= 1,
            ;
            lemma_power_positive(size * size, size * size);
            lemma_count_bounds(open_boards(nodes@, open@), fresh, open.len() as int);
        }
        loop
            invariant
                puzzle.wf(),
                size == puzzle.size,
                store_ok(nodes@, *puzzle),
                nodes.len() >= 1,
                places(open@, nodes.len() as int),
                places(close@, nodes.len() as int),
                *total_open == capped(*old(total_open) + nodes.len() - 1),
                base == *old(current_open) - 1,
                *current_open == capped(base + open.len()),
                lists(close@, 0) || (nodes.len() == 1 && open.len() == 1 && open@[0] == 0),
                closed_once(nodes@, close@, fresh, size),
                fresh.len() <= power(size * size, size * size),
                0 <= stale(nodes@, open@, fresh),
                closed_open_ended(nodes@, close@),
                closed_followed(nodes@, open@, close@, size, None),
                closed_best(nodes@, close@, *puzzle),
                forall|j: int| 0 <= j < nodes.len() ==> lists(open@, j) || #[trigger] lists(close@, j),
            decreases power(size * size, size * size) - fresh.len(), stale(nodes@, open@, fresh),
        {
            if open.len() == 0 {
                proof {
                    assert(lists(close@, 0)) by {
                        assert(!lists(open@, 0));
                    }
                    assert forall|p: Seq<Seq<u32>>| !#[trigger] solves(p, *puzzle) by {
                        if solves(p, *puzzle) {
                            lemma_reach(nodes@, open@, close@, *puzzle, p, p.len() - 1);
                            let c = choose|c: int|
                                0 <= c < close.len() && nodes@[(#[trigger] close@[c]) as int].state@
                                    == p.last() && nodes@[close@[c] as int].g <= p.len() - 1;
                            assert(nodes@[close@[c] as int].h != 0);
                            assert(link_ok(nodes@, close@[c] as int, *puzzle));
                        }
                    }
                }
                assert(counted(
                    *old(total_open),
                    *old(current_open),
                    *total_open,
                    *current_open,
                    *puzzle,
                )) by {
                    assert(store_ok(nodes@, *puzzle) && places(open@, nodes.len() as int));
                }
                return Outcome::NoSolution;
            }
            let ghost open0 = open@;
            let cur = pop_min(&nodes, &mut open);
            *current_open = count_from(base, open.len());
            proof {
                assert(link_ok(nodes@, cur as int, *puzzle));
                assert(lists(open0, 0) || lists(close@, 0));
            }
            if is_goal(&nodes[cur]) {
                let steps: u64 = nodes[cur].g;
                proof {
                    lemma_chain_walk(nodes@, cur as int, *puzzle);
                    assert(solves(chain(nodes@, cur as int), *puzzle));
                    assert forall|other: Seq<Seq<u32>>| #[trigger]
                        solves(other, *puzzle) implies steps <= other.len() - 1 by {
                        lemma_popped_best(nodes@, open0, close@, *puzzle, cur as int, other);
                        if listed_within(nodes@, close@, other.last(), other.len() - 1) {
                            let c = choose|c: int|
                                0 <= c < close.len() && nodes@[(#[trigger] close@[c]) as int].state@
                                    == other.last() && nodes@[close@[c] as int].g <= other.len() - 1;
                            assert(link_ok(nodes@, close@[c] as int, *puzzle));
                            assert(nodes@[close@[c] as int].h != 0);
                        }
                    }
                    assert forall|k: int|
                        0 <= k < nodes.len() && (#[trigger] nodes@[k]).father.is_some()
                            implies nodes@[k].father.unwrap() < k by {
                        assert(link_ok(nodes@, k, *puzzle));
                    }
                    assert(link_ok(nodes@, 0, *puzzle));
                    if lists(close@, 0) {
                        let c = choose|c: int| 0 <= c < close.len() && #[trigger] close@[c] == 0;
                        assert(nodes@[close@[c] as int].h != 0);
                    }
                }
                let path: Vec<Vec<u32>> = if puzzle.silent {
                    Vec::new()
                } else {
                    trace(&nodes, cur)
                };
                assert(counted(
                    *old(total_open),
                    *old(current_open),
                    *total_open,
                    *current_open,
                    *puzzle,
                )) by {
                    assert(store_ok(nodes@, *puzzle) && places(open@, nodes.len() as int));
                }
                return Outcome::Solved { steps, path };
            }
            let ghost nodes0 = nodes@;
            let ghost open1 = open@;
            let ghost close0 = close@;
            proof {
                let k = choose|k: int|
                    0 <= k < open0.len() && #[trigger] open0[k] == cur && open1 == open0.update(
                        k,
                        open0.last(),
                    ).drop_last();
                assert forall|c: int, t: Seq<u32>|
                    0 <= c < close.len() && #[trigger] is_move(
                        nodes@[close@[c] as int].state@,
                        t,
                        size,
                    ) implies listed(nodes@, close@, t) || Some(nodes@[cur as int].state@) == Some(t)
                    || listed_within(nodes@, open1, t, nodes@[close@[c] as int].g + 1) by {
                    if !listed(nodes@, close@, t) && nodes@[cur as int].state@ != t {
                        let m = choose|m: int|
                            0 <= m < open0.len() && nodes@[(#[trigger] open0[m]) as int].state@ == t
                                && nodes@[open0[m] as int].g <= nodes@[close@[c] as int].g + 1;
                        let at = if m == open0.len() - 1 { k } else { m };
                        assert(open1[at] == open0[m]);
                    }
                }
                assert forall|w: Seq<Seq<u32>>| #[trigger]
                    walk_to(w, *puzzle, nodes@[cur as int].state@) implies nodes@[cur as int].g
                    <= w.len() - 1 || listed_within(nodes@, close@, w.last(), w.len() - 1) by {
                    lemma_popped_best(nodes@, open0, close@, *puzzle, cur as int, w);
                }
            }
            Astar::expand(puzzle, cur, &mut nodes, &mut open, &mut close, total_open, current_open);
            proof {
                let k = choose|k: int|
                    0 <= k < open0.len() && #[trigger] open0[k] == cur && open1 == open0.update(
                        k,
                        open0.last(),
                    ).drop_last();
                fresh = lemma_round(
                    nodes0,
                    open0,
                    open1,
                    close0,
                    fresh,
                    nodes@,
                    open@,
                    close@,
                    cur,
                    k,
                    size,
                );
                assert(lists(close@, 0)) by {
                    if lists(close0, 0) {
                        let c = choose|c: int| 0 <= c < close0.len() && #[trigger] close0[c] == 0;
                        assert(close@[c] == 0);
                    } else {
                        assert(close@[close0.len() as int] == cur);
                    }
                }
            }
            proof {
                assert forall|j: int| 0 <= j < nodes.len() implies lists(open@, j) || #[trigger] lists(
                    close@,
                    j,
                ) by {
                    if j >= nodes0.len() {
                    } else if j == cur {
                        assert(close@[close0.len() as int] == j);
                    } else if lists(close0, j) {
                        let c = choose|c: int| 0 <= c < close0.len() && #[trigger] close0[c] == j;
                        assert(close@[c] == j);
                    } else {
                        assert(lists(open0, j));
                        let m = choose|m: int| 0 <= m < open0.len() && #[trigger] open0[m] == j;
                        let k = choose|k: int|
                            0 <= k < open0.len() && #[trigger] open0[k] == cur && open1
                                == open0.update(k, open0.last()).drop_last();
                        let at = if m == open0.len() - 1 { k } else { m };
                        assert(open1[at] == j);
                        assert(open@.take(open1.len() as int)[at] == j);
                        assert(open@[at] == j);
                    }
                }
            }
        }
    }

    /// Makes the children of the node at `at`, puts those whose board is not
    /// closed into the frontier, and closes the node.
    fn expand(
        puzzle: &Puzzle,
        at: usize,
        nodes: &mut Vec<Node>,
        open: &mut Vec<usize>,
        close: &mut Vec<usize>,
        total_open: &mut u64,
        current_open: &mut u64,
    )
        requires
            puzzle.table_ready(),
            store_ok(old(nodes)@, *puzzle),
            at < old(nodes).len(),
            old(nodes)@[at as int].h != 0,
            places(old(open)@, old(nodes).len() as int),
            places(old(close)@, old(nodes).len() as int),
            closed_open_ended(old(nodes)@, old(close)@),
            closed_followed(
                old(nodes)@,
                old(open)@,
                old(close)@,
                puzzle.size as int,
                Some(old(nodes)@[at as int].state@),
            ),
            closed_best(
                old(nodes)@,
                old(close)@,
                *puzzle,
            ) && popped_best(old(nodes)@, old(close)@, *puzzle, at as int),
        ensures
            closed_followed(final(nodes)@, final(open)@, final(close)@, puzzle.size as int, None),
            forall|j: int|
                old(open).len() <= j < final(open).len() ==> !listed(
                    old(nodes)@,
                    old(close)@,
                    final(nodes)@[(#[trigger] final(open)@[j]) as int].state@,
                ),
            closed_best(
                final(nodes)@,
                final(close)@,
                *puzzle,
            ),
            store_ok(final(nodes)@, *puzzle),
            final(nodes).len() >= old(nodes).len(),
            final(nodes)@.take(old(nodes).len() as int) == old(nodes)@,
            places(final(open)@, final(nodes).len() as int),
            places(final(close)@, final(nodes).len() as int),
            final(open)@.take(old(open).len() as int) == old(open)@,
            final(close)@ == old(close)@.push(at),
            final(nodes).len() - old(nodes).len() == final(open).len() - old(open).len(),
            *final(total_open) == capped(
                *old(total_open) + final(nodes).len() - old(nodes).len(),
            ),
            *final(current_open) == capped(
                *old(current_open) + final(nodes).len() - old(nodes).len(),
            ),
            closed_open_ended(final(nodes)@, final(close)@),
            forall|j: int|
                old(nodes).len() <= j < final(nodes).len() ==> #[trigger] lists(final(open)@, j),
    {
        let ghost size = puzzle.size as int;
        let ghost nodes0 = nodes@;
        let ghost close0 = close@;
        let ghost open0 = open@;
        proof {
            assert(link_ok(nodes@, at as int, *puzzle));
        }
        let new_nodes = neighbors(puzzle, &nodes[at], at);
        let ghost made = new_nodes@;
        Astar::add_to_open(puzzle, new_nodes, at, nodes, open, close, total_open, current_open);
        close.push(at);
        proof {
            assert forall|j: int| open0.len() <= j < open.len() implies !listed(
                nodes0,
                close0,
                nodes@[(#[trigger] open@[j]) as int].state@,
            ) by {
                assert(open@[j] == nodes0.len() + (j - open0.len()));
            }
        }
        proof {
            let node = nodes0[at as int];
            let bx = node.blank.x as int;
            let by = node.blank.y as int;
            assert forall|j: int| 0 <= j < nodes0.len() implies nodes@[j] == nodes0[j] by {
                assert(nodes@.take(nodes0.len() as int)[j] == nodes@[j]);
            }
            assert forall|c: int| 0 <= c < close.len() implies nodes@[(#[trigger] close@[c]) as int].h
                != 0 by {
                if c < close0.len() {
                    assert(nodes0[close0[c] as int].h != 0);
                }
            }
            assert forall|c: int, t: Seq<u32>|
                0 <= c < close.len() && #[trigger] is_move(
                    nodes@[close@[c] as int].state@,
                    t,
                    size,
                ) implies listed(nodes@, close@, t) || listed_within(
                nodes@,
                open@,
                t,
                nodes@[close@[c] as int].g + 1,
            ) by {
                if c < close0.len() {
                    assert(is_move(nodes0[close0[c] as int].state@, t, size));
                    if listed(nodes0, close0, t) {
                        let k = choose|k: int|
                            0 <= k < close0.len() && nodes0[(#[trigger] close0[k]) as int].state@ == t;
                        assert(nodes@[close@[k] as int].state@ == t);
                    } else if t == node.state@ {
                        assert(nodes@[close@[close0.len() as int] as int].state@ == t);
                    } else {
                        let m = choose|m: int|
                            0 <= m < open0.len() && nodes0[(#[trigger] open0[m]) as int].state@ == t
                                && nodes0[open0[m] as int].g <= nodes0[close0[c] as int].g + 1;
                        assert(open@.take(open0.len() as int)[m] == open@[m]);
                        assert(nodes@[open@[m] as int] == nodes0[open0[m] as int]);
                    }
                } else {
                    let (x, y, dir) = choose|x: int, y: int, dir: int|
                        blank_at(node.state@, size, x, y) && can_move(size, x, y, dir) && t
                            == #[trigger] moved(node.state@, size, x, y, dir);
                    lemma_blank_unique(node.state@, size, x, y, bx, by);
                    let k = count_moves(size, bx, by, dir);
                    assert(child_by(made[k], node, at, *puzzle, dir));
                    if listed(nodes0, close0, made[k].state@) {
                        let j = choose|j: int|
                            0 <= j < close0.len() && nodes0[(#[trigger] close0[j]) as int].state@ == t;
                        assert(nodes@[close@[j] as int].state@ == t);
                    }
                }
            }
            assert forall|c: int, w: Seq<Seq<u32>>|
                0 <= c < close.len() && #[trigger] walk_to(
                    w,
                    *puzzle,
                    nodes@[close@[c] as int].state@,
                ) implies listed_within(nodes@, close@, w.last(), w.len() - 1) by {
                if c < close0.len() {
                    assert(walk_to(w, *puzzle, nodes0[close0[c] as int].state@));
                } else {
                    assert(walk_to(w, *puzzle, nodes0[at as int].state@));
                }
                if listed_within(nodes0, close0, w.last(), w.len() - 1) {
                    let k = choose|k: int|
                        0 <= k < close0.len() && nodes0[(#[trigger] close0[k]) as int].state@
                            == w.last() && nodes0[close0[k] as int].g <= w.len() - 1;
                    assert(nodes@[close@[k] as int] == nodes0[close0[k] as int]);
                } else {
                    assert(nodes@[close@[close0.len() as int] as int] == node);
                }
            }
        }
    }

    /// Puts the new nodes whose board is not closed into the store and the
    /// frontier, and counts them.
    fn add_to_open(
        puzzle: &Puzzle,
        new_nodes: Vec<Node>,
        at: usize,
        nodes: &mut Vec<Node>,
        open: &mut Vec<usize>,
        close: &Vec<usize>,
        total_open: &mut u64,
        current_open: &mut u64,
    )
        requires
            store_ok(old(nodes)@, *puzzle),
            at < old(nodes).len(),
            places(old(open)@, old(nodes).len() as int),
            places(close@, old(nodes).len() as int),
            forall|k: int|
                0 <= k < new_nodes.len() ==> is_child(
                    #[trigger] new_nodes@[k],
                    old(nodes)@[at as int],
                    at,
                    *puzzle,
                ),
        ensures
            final(nodes)@ == old(nodes)@ + kept(
                new_nodes@,
                old(nodes)@,
                close@,
                new_nodes.len() as int,
            ),
            final(open)@ == old(open)@ + Seq::new(
                (final(nodes).len() - old(nodes).len()) as nat,
                |i: int| (old(nodes).len() + i) as usize,
            ),
            *final(total_open) == capped(
                *old(total_open) + final(nodes).len() - old(nodes).len(),
            ),
            *final(current_open) == capped(
                *old(current_open) + final(nodes).len() - old(nodes).len(),
            ),
            store_ok(final(nodes)@, *puzzle),
            final(nodes).len() >= old(nodes).len(),
            final(nodes)@.take(old(nodes).len() as int) == old(nodes)@,
            places(final(open)@, final(nodes).len() as int),
            final(open)@.take(old(open).len() as int) == old(open)@,
            final(nodes).len() - old(nodes).len() == final(open).len() - old(open).len(),
            forall|j: int|
                old(nodes).len() <= j < final(nodes).len() ==> #[trigger] lists(final(open)@, j),
            forall|j: int|
                old(nodes).len() <= j < final(nodes).len() ==> !listed(
                    old(nodes)@,
                    close@,
                    (#[trigger] final(nodes)@[j]).state@,
                ),
            forall|k: int|
                0 <= k < new_nodes.len() ==> listed(
                    old(nodes)@,
                    close@,
                    (#[trigger] new_nodes@[k]).state@,
                ) || listed_within(
                    final(nodes)@,
                    final(open)@,
                    new_nodes@[k].state@,
                    new_nodes@[k].g as int,
                ),
    {
        let mut new_nodes = new_nodes;
        let ghost all = new_nodes@;
        let ghost nodes0 = nodes@;
        let ghost open0 = open@;
        let ghost father = nodes@[at as int];
        proof {
            assert(nodes@ =~= nodes0 + kept(all, nodes0, close@, 0));
            assert(open@ =~= open0 + Seq::new(0nat, |i: int| (nodes0.len() + i) as usize));
        }
        while new_nodes.len() > 0
            invariant
                store_ok(nodes@, *puzzle),
                nodes.len() >= nodes0.len(),
                nodes@.take(nodes0.len() as int) == nodes0,
                at < nodes0.len(),
                father == nodes0[at as int],
                places(open@, nodes.len() as int),
                places(close@, nodes0.len() as int),
                open@.take(open0.len() as int) == open0,
                open.len() >= open0.len(),
                nodes.len() - nodes0.len() == open.len() - open0.len(),
                nodes@ == nodes0 + kept(all, nodes0, close@, all.len() - new_nodes.len()),
                open@ == open0 + Seq::new(
                    (nodes.len() - nodes0.len()) as nat,
                    |i: int| (nodes0.len() + i) as usize,
                ),
                *total_open == capped(*old(total_open) + nodes.len() - nodes0.len()),
                *current_open == capped(*old(current_open) + nodes.len() - nodes0.len()),
                forall|j: int|
                    nodes0.len() <= j < nodes.len() ==> !listed(
                        nodes0,
                        close@,
                        (#[trigger] nodes@[j]).state@,
                    ),
                new_nodes.len() <= all.len(),
                new_nodes@ == all.skip(all.len() - new_nodes.len()),
                forall|k: int| 0 <= k < all.len() ==> is_child(#[trigger] all[k], father, at, *puzzle),
                forall|j: int| nodes0.len() <= j < nodes.len() ==> #[trigger] lists(open@, j),
                forall|k: int|
                    0 <= k < all.len() - new_nodes.len() ==> listed(
                        nodes0,
                        close@,
                        (#[trigger] all[k]).state@,
                    ) || listed_within(nodes@, open@, all[k].state@, all[k].g as int),
            decreases new_nodes.len(),
        {
            let ghost done = all.len() - new_nodes.len();
            let ghost nodes1 = nodes@;
            let ghost open1 = open@;
            let node = new_nodes.remove(0);
            assert(node == all[done]);
            assert(new_nodes@ =~= all.skip(done + 1));
            assert(is_child(all[done], father, at, *puzzle));
            proof {
                lemma_listed_same(nodes0, nodes1, close@, node.state@);
            }
            if !in_list(nodes, close, &node) {
                open.push(nodes.len());
                nodes.push(node);
                bump(total_open);
                bump(current_open);
                proof {
                    let last = nodes1.len() as int;
                    assert(nodes@ =~= nodes0 + kept(all, nodes0, close@, done + 1));
                    assert(open@ =~= open0 + Seq::new(
                        (nodes.len() - nodes0.len()) as nat,
                        |i: int| (nodes0.len() + i) as usize,
                    ));
                    assert forall|j: int| nodes0.len() <= j < nodes.len() implies !listed(
                        nodes0,
                        close@,
                        (#[trigger] nodes@[j]).state@,
                    ) by {
                        if j < last {
                            assert(nodes@[j] == nodes1[j]);
                        }
                    }
                    assert(nodes@.take(nodes0.len() as int) =~= nodes1.take(nodes0.len() as int));
                    assert(open@.take(open0.len() as int) =~= open1.take(open0.len() as int));
                    assert(nodes@[at as int] == nodes1[at as int]);
                    assert(nodes1[at as int] == nodes1.take(nodes0.len() as int)[at as int]);
                    assert(link_ok(nodes1, at as int, *puzzle));
                    let dir = choose|dir: int| child_by(node, father, at, *puzzle, dir);
                    assert(is_move(father.state@, node.state@, puzzle.size as int));
                    assert forall|i: int| 0 <= i < nodes.len() implies #[trigger] link_ok(
                        nodes@,
                        i,
                        *puzzle,
                    ) by {
                        if i < last {
                            assert(link_ok(nodes1, i, *puzzle));
                            assert(nodes@[i] == nodes1[i]);
                        }
                    }
                    assert(nodes@[last].state@ == all[done].state@);
                    assert forall|j: int| nodes0.len() <= j < nodes.len() implies #[trigger] lists(
                        open@,
                        j,
                    ) by {
                        if j < last {
                            assert(lists(open1, j));
                            let k = choose|k: int| 0 <= k < open1.len() && open1[k] == j;
                            assert(open@[k] == j);
                        } else {
                            assert(open@[open1.len() as int] == j);
                        }
                    }
                }
            } else {
                proof {
                    assert(nodes@ =~= nodes0 + kept(all, nodes0, close@, done + 1));
                }
            }
            proof {
                assert forall|k: int| 0 <= k < done + 1 implies listed(
                    nodes0,
                    close@,
                    (#[trigger] all[k]).state@,
                ) || listed_within(nodes@, open@, all[k].state@, all[k].g as int) by {
                    if k < done {
                        if !listed(nodes0, close@, all[k].state@) {
                            assert(listed_within(nodes1, open1, all[k].state@, all[k].g as int));
                            let m = choose|m: int|
                                0 <= m < open1.len() && nodes1[(#[trigger] open1[m]) as int].state@
                                    == all[k].state@ && nodes1[open1[m] as int].g <= all[k].g;
                            assert(open@[m] == open1[m]);
                            assert(nodes@[open1[m] as int] == nodes1[open1[m] as int]);
                        }
                    } else {
                        if !listed(nodes0, close@, all[k].state@) {
                            assert(nodes@.len() == nodes1.len() + 1);
                            let m = open1.len() as int;
                            assert(open@[m] == nodes1.len());
                            assert(nodes@[open@[m] as int].state@ == all[k].state@);
                        }
                    }
                }
            }
        }
    }
}

/// What one probe of the deepening search reports.
pub enum SearchState {
    /// The last node of the path has estimate zero.
    Found,
    /// No node within the bound has estimate zero below the node that the
    /// probe started from; the value is an `f` that went over the bound, or
    /// the greatest number if none did.
    N(u128),
}

/// The path of a deepening search is sound: it starts at the initial board,
/// each node comes from the one before it by one move, and node `k` has
/// cost `k`.
pub open spec fn stack_ok(path: Seq<Node>, puzzle: Puzzle) -> bool {
    &&& path.len() >= 1
    &&& path[0].state@ == puzzle.initial_state@
    &&& forall|k: int| 0 <= k < path.len() ==> node_ok(#[trigger] path[k], puzzle) && path[k].g == k
    &&& forall|k: int|
        0 <= k < path.len() - 1 ==> is_move(
            (#[trigger] path[k]).state@,
            path[k + 1].state@,
            puzzle.size as int,
        )
}

/// Whether a node of the path holds the same board as `node`.
fn on_path(path: &Vec<Node>, node: &Node) -> (found: bool)
    ensures
        found == stored(path@, node.state@),
{
    let mut k: usize = 0;
    while k < path.len()
        invariant
            k <= path.len(),
            forall|j: int| 0 <= j < k ==> (#[trigger] path@[j]).state@ != node.state@,
        decreases path.len() - k,
    {
        if path[k].same_state(node) {
            return true;
        }
        k += 1;
    }
    false
}

/// Copies of the boards of the nodes of a path, in order.
fn path_boards(path: &Vec<Node>) -> (res: Vec<Vec<u32>>)
    ensures
        boards(res@) == node_boards(path@),
{
    let mut res: Vec<Vec<u32>> = Vec::new();
    let mut k: usize = 0;
    while k < path.len()
        invariant
            k <= path.len(),
            res.len() == k,
            forall|j: int| 0 <= j < k ==> (#[trigger] res@[j])@ == path@[j].state@,
        decreases path.len() - k,
    {
        res.push(copy_tiles(path[k].state.as_slice()));
        k += 1;
    }
    assert(boards(res@) =~= node_boards(path@));
    res
}

/// No board stands twice in the walk.
pub open spec fn simple(q: Seq<Seq<u32>>) -> bool {
    forall|i: int, j: int| 0 <= i < j < q.len() ==> q[i] != q[j]
}

/// `q` is a solution without a repeated board that begins with the boards
/// of `path`.
pub open spec fn continues(q: Seq<Seq<u32>>, path: Seq<Node>, puzzle: Puzzle) -> bool {
    &&& solves(q, puzzle)
    &&& simple(q)
    &&& q.len() >= path.len()
    &&& q.take(path.len() as int) == node_boards(path)
}

/// `n` is at most twice the greatest count and at most the number of moves
/// of `q`.
pub open spec fn within(n: u128, q: Seq<Seq<u32>>) -> bool {
    n <= 0x2_0000_0000_0000_0000 && n <= q.len() - 1
}

/// A solution that begins with the boards of a path and goes on with the
/// board of `next` begins with the boards of the path with `next` added.
pub proof fn lemma_continues_longer(q: Seq<Seq<u32>>, path: Seq<Node>, next: Node, puzzle: Puzzle)
    requires
        continues(q, path, puzzle),
        q.len() > path.len(),
        q[path.len() as int] == next.state@,
    ensures
        continues(q, path.push(next), puzzle),
{
    let longer = path.push(next);
    assert(q.take(longer.len() as int) =~= node_boards(longer)) by {
        assert forall|i: int| 0 <= i < longer.len() implies q[i] == node_boards(longer)[i] by {
            if i < path.len() {
                assert(q[i] == q.take(path.len() as int)[i]);
            }
        }
    }
}

/// A solution without a repeated board that begins with the boards of a
/// path does not go on with a board of the path.
pub proof fn lemma_continues_elsewhere(
    q: Seq<Seq<u32>>,
    path: Seq<Node>,
    tiles: Seq<u32>,
    puzzle: Puzzle,
)
    requires
        continues(q, path, puzzle),
        q.len() > path.len(),
        stored(path, tiles),
    ensures
        q[path.len() as int] != tiles,
{
    let j = choose|j: int| 0 <= j < path.len() && (#[trigger] path[j]).state@ == tiles;
    assert(q[j] == q.take(path.len() as int)[j]);
}

/// A solution that begins with the boards of a sound path whose last node
/// has an estimate other than zero goes on with the board of a child of
/// that node.
pub proof fn lemma_continues_with_child(
    q: Seq<Seq<u32>>,
    path: Seq<Node>,
    all: Seq<Node>,
    at: usize,
    puzzle: Puzzle,
) -> (k: int)
    requires
        puzzle.wf(),
        stack_ok(path, puzzle),
        at == path.len() - 1,
        path.last().h != 0,
        continues(q, path, puzzle),
        forall|dir: int|
            #![trigger can_move(puzzle.size as int, path.last().blank.x as int, path.last().blank.y as int, dir)]
            can_move(
                puzzle.size as int,
                path.last().blank.x as int,
                path.last().blank.y as int,
                dir,
            ) ==> {
                let k = count_moves(
                    puzzle.size as int,
                    path.last().blank.x as int,
                    path.last().blank.y as int,
                    dir,
                );
                0 <= k < all.len() && child_by(all[k], path.last(), at, puzzle, dir)
            },
    ensures
        q.len() > path.len(),
        0 <= k < all.len(),
        all[k].state@ == q[path.len() as int],
{
    let size = puzzle.size as int;
    let m = path.len() as int;
    let father = path.last();
    assert(q[m - 1] == q.take(m)[m - 1]);
    assert(node_ok(father, puzzle));
    if q.len() == m {
        assert(q.last() == father.state@);
    }
    assert(is_move(q[m - 1], q[m - 1 + 1], size));
    let (x, y, dir) = choose|x: int, y: int, dir: int|
        blank_at(q[m - 1], size, x, y) && can_move(size, x, y, dir) && q[m] == #[trigger] moved(
            q[m - 1],
            size,
            x,
            y,
            dir,
        );
    lemma_blank_unique(father.state@, size, x, y, father.blank.x as int, father.blank.y as int);
    let k = count_moves(size, father.blank.x as int, father.blank.y as int, dir);
    assert(child_by(all[k], father, at, puzzle, dir));
    k
}

/// A sound path with one more node that comes by one move from its last
/// node, at one more than its cost, and whose board is not on the path, is
/// a sound path without a repeated board.
pub proof fn lemma_stack_longer(path: Seq<Node>, next: Node, at: usize, puzzle: Puzzle)
    requires
        stack_ok(path, puzzle),
        simple(node_boards(path)),
        at == path.len() - 1,
        is_child(next, path.last(), at, puzzle),
        !stored(path, next.state@),
    ensures
        stack_ok(path.push(next), puzzle),
        simple(node_boards(path.push(next))),
{
    let longer = path.push(next);
    let size = puzzle.size as int;
    let dir = choose|dir: int| child_by(next, path.last(), at, puzzle, dir);
    assert(node_ok(path.last(), puzzle));
    assert(is_move(path.last().state@, next.state@, size));
    assert forall|k: int| 0 <= k < longer.len() - 1 implies is_move(
        (#[trigger] longer[k]).state@,
        longer[k + 1].state@,
        size,
    ) by {
        if k < path.len() - 1 {
            assert(is_move(path[k].state@, path[k + 1].state@, size));
        }
    }
    assert forall|k: int| 0 <= k < longer.len() implies node_ok(#[trigger] longer[k], puzzle)
        && longer[k].g == k by {
        if k < path.len() {
            assert(node_ok(path[k], puzzle));
        }
    }
    let b = node_boards(longer);
    assert forall|i: int, j: int| 0 <= i < j < b.len() implies b[i] != b[j] by {
        if j < path.len() {
            assert(node_boards(path)[i] != node_boards(path)[j]);
        } else {
            assert(path[i].state@ != next.state@);
        }
    }
}



/// Cutting the boards between two equal boards out of a solution leaves a
/// solution, so for every solution there is one without a repeated board
/// that is no longer.
pub proof fn lemma_simple_solution(p: Seq<Seq<u32>>, puzzle: Puzzle) -> (q: Seq<Seq<u32>>)
    requires
        solves(p, puzzle),
    ensures
        solves(q, puzzle),
        simple(q),
        q.len() <= p.len(),
    decreases p.len(),
{
    if simple(p) {
        p
    } else {
        let (i, j) = choose|i: int, j: int| 0 <= i < j < p.len() && p[i] == p[j];
        let cut = p.take(i) + p.skip(j);
        assert(cut.len() == p.len() - (j - i));
        assert forall|k: int| 0 <= k < cut.len() - 1 implies is_move(
            #[trigger] cut[k],
            cut[k + 1],
            puzzle.size as int,
        ) by {
            if k < i - 1 {
                assert(is_move(p[k], p[k + 1], puzzle.size as int));
            } else if k == i - 1 {
                assert(is_move(p[k], p[k + 1], puzzle.size as int));
                assert(cut[k + 1] == p[j]);
            } else {
                assert(cut[k] == p[k - i + j]);
                assert(cut[k + 1] == p[k - i + j + 1]);
                assert(is_move(p[k - i + j], p[k - i + j + 1], puzzle.size as int));
            }
        }
        assert(cut[0] == p[0]);
        assert(cut.last() == p.last());
        lemma_simple_solution(cut, puzzle)
    }
}

/// Every solution without a repeated board that begins with the boards of
/// `path` has `n` moves at least.
#[verifier::opaque]
pub open spec fn probe_bound(n: u128, path: Seq<Node>, puzzle: Puzzle) -> bool {
    forall|q: Seq<Seq<u32>>| #[trigger] continues(q, path, puzzle) ==> within(n, q)
}

/// Every solution without a repeated board that begins with the boards of
/// `path` and goes on with the board of one of the first `done` nodes of
/// `all` has `n` moves at least.
#[verifier::opaque]
pub open spec fn seen_bound(n: u128, path: Seq<Node>, all: Seq<Node>, done: int, puzzle: Puzzle) -> bool {
    forall|q: Seq<Seq<u32>>, k: int| #[trigger]
        continues(q, path, puzzle) && q.len() > path.len() && 0 <= k < done && (#[trigger] all[k]).state@
            == q[path.len() as int] ==> within(n, q)
}

/// The puzzle is ready and `path` is a sound path without a repeated board.
#[verifier::opaque]
pub open spec fn probe_ready(path: Seq<Node>, puzzle: Puzzle) -> bool {
    puzzle.wf() && stack_ok(path, puzzle) && simple(node_boards(path))
}

/// `all` holds children of `father` only, and the child for every move that
/// the blank can make.
#[verifier::opaque]
pub open spec fn all_children(all: Seq<Node>, father: Node, at: usize, puzzle: Puzzle) -> bool {
    &&& forall|k: int| 0 <= k < all.len() ==> is_child(#[trigger] all[k], father, at, puzzle)
    &&& forall|dir: int|
        #![trigger can_move(puzzle.size as int, father.blank.x as int, father.blank.y as int, dir)]
        can_move(puzzle.size as int, father.blank.x as int, father.blank.y as int, dir) ==> {
            let k = count_moves(puzzle.size as int, father.blank.x as int, father.blank.y as int, dir);
            0 <= k < all.len() && child_by(all[k], father, at, puzzle, dir)
        }
}

/// What holds of a bound holds of every lesser one.
pub proof fn lemma_seen_weaker(
    n: u128,
    least: u128,
    path: Seq<Node>,
    all: Seq<Node>,
    done: int,
    puzzle: Puzzle,
)
    requires
        seen_bound(n, path, all, done, puzzle),
        least <= n,
    ensures
        seen_bound(least, path, all, done, puzzle),
{
    reveal(seen_bound);
}

/// Before any child is seen, nothing is asked of the bound.
pub proof fn lemma_seen_none(n: u128, path: Seq<Node>, all: Seq<Node>, puzzle: Puzzle)
    ensures
        seen_bound(n, path, all, 0, puzzle),
{
    reveal(seen_bound);
}

/// The `f` of the last node of a sound path is at most the number of moves
/// of every solution that begins with the boards of the path.
pub proof fn lemma_probe_cut(f: u128, path: Seq<Node>, puzzle: Puzzle)
    requires
        probe_ready(path, puzzle),
        f == path.len() - 1 + path.last().h,
    ensures
        probe_bound(f, path, puzzle),
{
    reveal(probe_bound);
    reveal(probe_ready);
    let last = path.len() - 1;
    assert forall|q: Seq<Seq<u32>>| #[trigger] continues(q, path, puzzle) implies within(f, q) by {
        lemma_estimate_below_moves_left(puzzle.heuristic, q, puzzle.size as int, last);
        assert(q[last] == q.take(path.len() as int)[last]);
        assert(node_ok(path[last], puzzle));
    }
}

/// A child that was probed adds its bound to what was seen.
pub proof fn lemma_seen_more(
    before: u128,
    n: u128,
    least: u128,
    path: Seq<Node>,
    all: Seq<Node>,
    done: int,
    puzzle: Puzzle,
)
    requires
        0 <= done < all.len(),
        seen_bound(before, path, all, done, puzzle),
        probe_bound(n, path.push(all[done]), puzzle),
        least <= before,
        least <= n,
    ensures
        seen_bound(least, path, all, done + 1, puzzle),
{
    reveal(probe_bound);
    reveal(seen_bound);
    assert forall|q: Seq<Seq<u32>>, k: int| #[trigger]
        continues(q, path, puzzle) && q.len() > path.len() && 0 <= k < done + 1 && (#[trigger] all[k]).state@
            == q[path.len() as int] implies within(least, q) by {
        if k < done {
            assert(within(before, q));
        } else {
            lemma_continues_longer(q, path, all[done], puzzle);
            assert(within(n, q));
        }
    }
}

/// A child whose board is on the path adds nothing to what was seen.
pub proof fn lemma_seen_skip(n: u128, path: Seq<Node>, all: Seq<Node>, done: int, puzzle: Puzzle)
    requires
        0 <= done < all.len(),
        seen_bound(n, path, all, done, puzzle),
        stored(path, all[done].state@),
    ensures
        seen_bound(n, path, all, done + 1, puzzle),
{
    reveal(seen_bound);
    assert forall|q: Seq<Seq<u32>>, k: int| #[trigger]
        continues(q, path, puzzle) && q.len() > path.len() && 0 <= k < done + 1 && (#[trigger] all[k]).state@
            == q[path.len() as int] implies within(n, q) by {
        if k == done {
            lemma_continues_elsewhere(q, path, all[done].state@, puzzle);
        }
    }
}

/// Once every child was seen, the bound holds of every solution that begins
/// with the boards of the path.
pub proof fn lemma_seen_all(n: u128, path: Seq<Node>, all: Seq<Node>, at: usize, puzzle: Puzzle)
    requires
        probe_ready(path, puzzle),
        path.len() >= 1,
        path.last().h != 0,
        at == path.len() - 1,
        seen_bound(n, path, all, all.len() as int, puzzle),
        all_children(all, path.last(), at, puzzle),
    ensures
        probe_bound(n, path, puzzle),
{
    reveal(probe_bound);
    reveal(seen_bound);
    reveal(all_children);
    reveal(probe_ready);
    assert forall|q: Seq<Seq<u32>>| #[trigger] continues(q, path, puzzle) implies within(n, q) by {
        let k = lemma_continues_with_child(q, path, all, at, puzzle);
    }
}

/// A bound that holds of every solution beginning with the initial board
/// alone is at most the number of moves of any solution, and below the
/// greatest number if there is a solution.
pub proof fn lemma_root_bound(n: u128, path: Seq<Node>, puzzle: Puzzle, p: Seq<Seq<u32>>)
    requires
        path.len() == 1,
        path[0].state@ == puzzle.initial_state@,
        probe_bound(n, path, puzzle),
        solves(p, puzzle),
    ensures
        n <= p.len() - 1,
        n <= 0x2_0000_0000_0000_0000,
{
    reveal(probe_bound);
    let q = lemma_simple_solution(p, puzzle);
    assert(q.take(1) =~= node_boards(path));
    assert(continues(q, path, puzzle));
}

impl IDAstar {
    /// Runs the search on the puzzle and counts in `total_open` and
    /// `current_open`. The bound starts at the estimate of the initial board
    /// and rises, round by round, to an `f` that went over it. A solution is
    /// reported exactly if there is one; it is a walk from the initial board
    /// to a board of estimate zero, and no solution has fewer moves. The
    /// nodes of the path are counted in `current_open`, and every node that
    /// entered the path in `total_open`; a counter stops at its greatest
    /// number.
    pub fn solve(puzzle: &mut Puzzle) -> (res: Outcome)
        requires
            old(puzzle).wf(),
        ensures
            same_instance(*final(puzzle), *old(puzzle)),
            final(puzzle).total_open >= old(puzzle).total_open,
            (exists|p: Seq<Seq<u32>>| solves(p, *old(puzzle))) ==> res is Solved,
            !passes(*old(puzzle)) ==> res is NoSolution,
            match res {
                Outcome::Solved { steps, path } => found(steps, path@, *old(puzzle))
                    && final(puzzle).current_open == capped(old(puzzle).current_open + steps)
                    && final(puzzle).total_open >= capped(old(puzzle).total_open + steps),
                Outcome::NoSolution => final(puzzle).current_open == old(puzzle).current_open
                    && forall|p: Seq<Seq<u32>>| !#[trigger] solves(p, *old(puzzle)),
            },
    {
        let mut total_open: u64 = puzzle.total_open;
        let mut current_open: u64 = puzzle.current_open;
        let res = IDAstar::run(puzzle, &mut total_open, &mut current_open);
        proof {
            if !passes(*puzzle) && res is Solved {
                let p = choose|p: Seq<Seq<u32>>| solves(p, *puzzle);
                lemma_failing_has_no_solution(*puzzle, p);
            }
        }
        puzzle.total_open = total_open;
        puzzle.current_open = current_open;
        res
    }

    /// The search itself, with the counters apart from the puzzle.
    fn run(puzzle: &Puzzle, total_open: &mut u64, current_open: &mut u64) -> (res: Outcome)
        requires
            puzzle.wf(),
        ensures
            *final(total_open) >= *old(total_open),
            match res {
                Outcome::Solved { steps, path } => found(steps, path@, *puzzle)
                    && *final(current_open) == capped(*old(current_open) + steps)
                    && *final(total_open) >= capped(*old(total_open) + steps),
                Outcome::NoSolution => *final(current_open) == *old(current_open) && forall|
                    p: Seq<Seq<u32>>,
                |
                    !#[trigger] solves(p, *puzzle),
            },
    {
        let state = copy_tiles(puzzle.initial_state.as_slice());
        let h: u64 = puzzle.calculate_heuristic(state.as_slice());
        let root = Node { state, father: None, blank: puzzle.initial_blank, g: 0, h, f: 0 };
        let mut bound: u128 = h as u128;
        let mut path: Vec<Node> = Vec::new();
        path.push(root);
        proof {
            assert(stack_ok(path@, *puzzle));
            assert(probe_ready(path@, *puzzle)) by {
                reveal(probe_ready);
            }
            lemma_probe_cut(bound, path@, *puzzle);
        }
        loop
            invariant
                puzzle.wf(),
                probe_ready(path@, *puzzle),
                path@[0].state@ == puzzle.initial_state@,
                path.len() == 1,
                bound < u128::MAX,
                probe_bound(bound, path@, *puzzle),
                *total_open >= *old(total_open),
                *current_open == *old(current_open),
            decreases u128::MAX - bound,
        {
            let ghost start = path@;
            let t = IDAstar::search(puzzle, &mut path, 0, bound, total_open, current_open);
            match t {
                SearchState::Found => {
                    let steps: u64 = path[path.len() - 1].g;
                    let boards_out: Vec<Vec<u32>> = if puzzle.silent {
                        Vec::new()
                    } else {
                        path_boards(&path)
                    };
                    proof {
                        reveal(probe_ready);
                        let p = node_boards(path@);
                        assert(p[0] == puzzle.initial_state@);
                        assert forall|k: int| 0 <= k < p.len() - 1 implies is_move(
                            #[trigger] p[k],
                            p[k + 1],
                            puzzle.size as int,
                        ) by {
                            assert(is_move(path@[k].state@, path@[k + 1].state@, puzzle.size as int));
                        }
                        assert(node_ok(path@[path.len() - 1], *puzzle));
                        assert(solves(p, *puzzle));
                        assert forall|other: Seq<Seq<u32>>| #[trigger]
                            solves(other, *puzzle) implies steps <= other.len() - 1 by {
                            lemma_root_bound(bound, start, *puzzle, other);
                        }
                    }
                    return Outcome::Solved { steps, path: boards_out };
                },
                SearchState::N(n) => {
                    if n == u128::MAX {
                        proof {
                            assert forall|p: Seq<Seq<u32>>| !#[trigger] solves(p, *puzzle) by {
                                if solves(p, *puzzle) {
                                    lemma_root_bound(n, start, *puzzle, p);
                                }
                            }
                        }
                        return Outcome::NoSolution;
                    }
                    bound = n;
                },
            }
        }
    }

    /// One probe below the last node of `path`, which has cost `g`. A node
    /// whose `f` is over the bound is not entered, and its `f` is reported;
    /// a child whose board is on the path already is passed over.
    fn search(
        puzzle: &Puzzle,
        path: &mut Vec<Node>,
        g: u64,
        bound: u128,
        total_open: &mut u64,
        current_open: &mut u64,
    ) -> (res: SearchState)
        requires
            probe_ready(old(path)@, *puzzle),
            g == old(path).len() - 1,
            bound < u128::MAX,
        ensures
            *final(total_open) >= *old(total_open),
            match res {
                SearchState::Found => {
                    &&& probe_ready(final(path)@, *puzzle)
                    &&& final(path)@.len() >= 1
                    &&& final(path)@.last().h == 0
                    &&& final(path)@.len() - 1 <= bound
                    &&& final(path)@.len() >= old(path)@.len()
                    &&& final(path)@.take(old(path)@.len() as int) == old(path)@
                    &&& *final(current_open) == capped(
                        *old(current_open) + final(path)@.len() - old(path)@.len(),
                    )
                    &&& *final(total_open) >= capped(
                        *old(total_open) + final(path)@.len() - old(path)@.len(),
                    )
                },
                SearchState::N(n) => {
                    &&& final(path)@ == old(path)@
                    &&& n > bound
                    &&& *final(current_open) == *old(current_open)
                    &&& (g + old(path)@.last().h > bound ==> n == g + old(path)@.last().h
                        && *final(total_open) == *old(total_open))
                    &&& probe_bound(n, old(path)@, *puzzle)
                },
            },
        decreases
            (if g <= bound {
                bound - g + 1
            } else {
                0
            }),
            1int,
    {
        let ghost size = puzzle.size as int;
        let ghost path0 = path@;
        assert(path0.len() >= 1 && puzzle.table_ready() && node_ok(path0.last(), *puzzle)
            && path0.last().g == path0.len() - 1) by {
            reveal(probe_ready);
        }
        let last: usize = path.len() - 1;
        let f: u128 = g as u128 + path[last].h as u128;
        if f > bound {
            proof {
                lemma_probe_cut(f, path0, *puzzle);
            }
            return SearchState::N(f);
        }
        if is_goal(&path[last]) {
            assert(path@.take(path0.len() as int) =~= path0);
            return SearchState::Found;
        }
        let ghost father = path@[last as int];
        let mut min: u128 = u128::MAX;
        let mut succs = neighbors(puzzle, &path[last], last);
        let ghost all = succs@;
        proof {
            lemma_seen_none(min, path0, all, *puzzle);
            assert(all_children(all, father, last, *puzzle)) by {
                reveal(all_children);
            }
        }
        while succs.len() > 0
            invariant
                probe_ready(path0, *puzzle),
                path0.len() >= 1,
                path0 == old(path)@,
                path@ == path0,
                last == path0.len() - 1,
                g == last,
                g <= bound,
                bound < u128::MAX,
                father == path0.last(),
                min > bound,
                succs.len() <= all.len(),
                succs@ == all.skip(all.len() - succs.len()),
                all_children(all, father, last, *puzzle),
                father.h != 0,
                seen_bound(min, path0, all, all.len() - succs.len(), *puzzle),
                *total_open >= *old(total_open),
                *current_open == *old(current_open),
            decreases succs.len(),
        {
            let ghost done = all.len() - succs.len();
            let ghost min0 = min;
            let succ = succs.remove(0);
            assert(succ == all[done]);
            assert(succs@ =~= all.skip(done + 1));
            assert(is_child(all[done], father, last, *puzzle)) by {
                reveal(all_children);
            }
            let t = IDAstar::visit(puzzle, path, succ, g, bound, total_open, current_open);
            match t {
                SearchState::Found => {
                    return SearchState::Found;
                },
                SearchState::N(n) => {
                    if n < min {
                        min = n;
                    }
                    proof {
                        if stored(path0, all[done].state@) {
                            lemma_seen_skip(min0, path0, all, done, *puzzle);
                            lemma_seen_weaker(min0, min, path0, all, done + 1, *puzzle);
                        } else {
                            lemma_seen_more(min0, n, min, path0, all, done, *puzzle);
                        }
                    }
                },
            }
        }
        proof {
            lemma_seen_all(min, path0, all, last, *puzzle);
        }
        SearchState::N(min)
    }

    /// Enters one child of the last node of `path`, unless its board is on
    /// the path already, and probes below it. The child leaves the path again
    /// unless a node of estimate zero was found.
    fn visit(
        puzzle: &Puzzle,
        path: &mut Vec<Node>,
        succ: Node,
        g: u64,
        bound: u128,
        total_open: &mut u64,
        current_open: &mut u64,
    ) -> (res: SearchState)
        requires
            probe_ready(old(path)@, *puzzle),
            old(path).len() >= 1,
            g == old(path).len() - 1,
            g <= bound,
            bound < u128::MAX,
            is_child(succ, old(path)@.last(), (old(path).len() - 1) as usize, *puzzle),
        ensures
            *final(total_open) >= *old(total_open),
            match res {
                SearchState::Found => {
                    &&& probe_ready(final(path)@, *puzzle)
                    &&& final(path)@.len() >= 1
                    &&& final(path)@.last().h == 0
                    &&& final(path)@.len() - 1 <= bound
                    &&& final(path)@.len() >= old(path)@.len()
                    &&& final(path)@.take(old(path)@.len() as int) == old(path)@
                    &&& *final(current_open) == capped(
                        *old(current_open) + final(path)@.len() - old(path)@.len(),
                    )
                    &&& *final(total_open) >= capped(
                        *old(total_open) + final(path)@.len() - old(path)@.len(),
                    )
                },
                SearchState::N(n) => {
                    &&& final(path)@ == old(path)@
                    &&& n > bound
                    &&& *final(current_open) == *old(current_open)
                    &&& (stored(old(path)@, succ.state@) || probe_bound(
                        n,
                        old(path)@.push(succ),
                        *puzzle,
                    ))
                },
            },
        decreases
            (if g <= bound {
                bound - g + 1
            } else {
                0
            }),
            0int,
    {
        let ghost path0 = path@;
        if on_path(path, &succ) {
            return SearchState::N(u128::MAX);
        }
        proof {
            reveal(probe_ready);
            lemma_stack_longer(path0, succ, (path0.len() - 1) as usize, *puzzle);
        }
        let saved: u64 = *current_open;
        let ghost entered = succ;
        path.push(succ);
        bump(total_open);
        bump(current_open);
        let ghost path1 = path@;
        let t = IDAstar::search(puzzle, path, g + 1, bound, total_open, current_open);
        match t {
            SearchState::Found => {
                assert(path@.take(path0.len() as int) =~= path0) by {
                    assert(path@.take(path1.len() as int).take(path0.len() as int) =~= path@.take(
                        path0.len() as int,
                    ));
                    assert(path1.take(path0.len() as int) =~= path0);
                }
                SearchState::Found
            },
            SearchState::N(n) => {
                path.pop();
                *current_open = saved;
                assert(path@ =~= path0);
                SearchState::N(n)
            },
        }
    }
}

} // verus!
