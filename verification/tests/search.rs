use std::collections::{HashMap, VecDeque};

use npuzzle::algo::{is_goal, neighbors, Algo, Astar, IDAstar, Outcome};
use npuzzle::heuristic::{integer_root, Euclidian, Hamming, Heuristic, Manhattan};
use npuzzle::node::{copy_tiles, same_tiles, Node};
use npuzzle::solver::{Puzzle, PuzzleError, Vec2};

fn puzzle(size: u32, tiles: &[u32], algo: Algo, heuristic: Heuristic, silent: bool) -> Puzzle {
    let mut numbers = vec![size];
    numbers.extend_from_slice(tiles);
    Puzzle::from_numbers(&numbers, silent, algo, heuristic).unwrap()
}

fn moves_of(board: &[u32], size: usize) -> Vec<Vec<u32>> {
    let at = board.iter().position(|t| *t == 0).unwrap();
    let (x, y) = (at % size, at / size);
    let mut out = Vec::new();
    if x > 0 {
        let mut b = board.to_vec();
        b.swap(at, at - 1);
        out.push(b);
    }
    if x + 1 < size {
        let mut b = board.to_vec();
        b.swap(at, at + 1);
        out.push(b);
    }
    if y > 0 {
        let mut b = board.to_vec();
        b.swap(at, at - size);
        out.push(b);
    }
    if y + 1 < size {
        let mut b = board.to_vec();
        b.swap(at, at + size);
        out.push(b);
    }
    out
}

fn goal_board(size: u32) -> Vec<u32> {
    let mut board = vec![0; (size * size) as usize];
    for value in 0..size * size {
        let c = Puzzle::get_coordinates(value, size);
        board[(c.y * size + c.x) as usize] = value;
    }
    board
}

fn distances_from_goal(size: u32, depth: u64) -> HashMap<Vec<u32>, u64> {
    let mut dist = HashMap::new();
    let mut queue = VecDeque::new();
    let goal = goal_board(size);
    dist.insert(goal.clone(), 0u64);
    queue.push_back(goal);
    while let Some(board) = queue.pop_front() {
        let d = dist[&board];
        if d == depth {
            continue;
        }
        for next in moves_of(&board, size as usize) {
            if !dist.contains_key(&next) {
                dist.insert(next.clone(), d + 1);
                queue.push_back(next);
            }
        }
    }
    dist
}

fn breadth_first(size: u32, start: &[u32]) -> Option<u64> {
    let goal = goal_board(size);
    let mut dist = HashMap::new();
    let mut queue = VecDeque::new();
    dist.insert(start.to_vec(), 0u64);
    queue.push_back(start.to_vec());
    while let Some(board) = queue.pop_front() {
        let d = dist[&board];
        if board == goal {
            return Some(d);
        }
        for next in moves_of(&board, size as usize) {
            if !dist.contains_key(&next) {
                dist.insert(next.clone(), d + 1);
                queue.push_back(next);
            }
        }
    }
    None
}

fn steps_of(outcome: &Outcome) -> u64 {
    match outcome {
        Outcome::Solved { steps, .. } => *steps,
        _ => panic!("no solution reported"),
    }
}

fn check_path(size: u32, start: &[u32], outcome: &Outcome) {
    match outcome {
        Outcome::Solved { steps, path } => {
            assert_eq!(path.len() as u64, *steps + 1);
            assert_eq!(path[0], start.to_vec());
            assert_eq!(path[path.len() - 1], goal_board(size));
            for k in 0..path.len() - 1 {
                assert!(moves_of(&path[k], size as usize).contains(&path[k + 1]));
            }
        }
        _ => panic!("no solution reported"),
    }
}

const EASY: [u32; 9] = [1, 4, 2, 8, 6, 3, 0, 7, 5];
const MIDDLE: [u32; 9] = [1, 8, 2, 7, 5, 3, 0, 6, 4];
const HARDER: [u32; 9] = [8, 2, 3, 6, 0, 5, 4, 1, 7];
const FOUR: [u32; 16] = [1, 2, 3, 4, 13, 10, 14, 5, 9, 12, 7, 15, 11, 8, 0, 6];
const FOUR_SHORT: [u32; 16] = [1, 2, 3, 4, 0, 11, 14, 5, 13, 12, 8, 6, 10, 15, 9, 7];

#[test]
fn estimates_of_the_goal_are_zero() {
    for size in 3..=5u32 {
        let goal = goal_board(size);
        let p = puzzle(size, &goal, Algo::AStar, Heuristic::Manhattan, true);
        assert_eq!(Manhattan::heuristic(&p, &goal), 0);
        assert_eq!(Euclidian::heuristic(&p, &goal), 0);
        assert_eq!(Hamming::heuristic(&p, &goal), 0);
    }
}

#[test]
fn estimates_off_the_goal_are_not_zero() {
    let p = puzzle(3, &MIDDLE, Algo::AStar, Heuristic::Manhattan, true);
    for (board, _) in distances_from_goal(3, 6) {
        let zero = board == goal_board(3);
        assert_eq!(Manhattan::heuristic(&p, &board) == 0, zero);
        assert_eq!(Euclidian::heuristic(&p, &board) == 0, zero);
        assert_eq!(Hamming::heuristic(&p, &board) == 0, zero);
    }
}

#[test]
fn manhattan_values() {
    let p = puzzle(3, &MIDDLE, Algo::AStar, Heuristic::Manhattan, true);
    assert_eq!(Manhattan::heuristic(&p, &EASY), 6);
    assert_eq!(Manhattan::heuristic(&p, &MIDDLE), 8);
    assert_eq!(Manhattan::heuristic(&p, &HARDER), 12);
    assert_eq!(Manhattan::heuristic(&p, &[1, 2, 3, 4, 0, 6, 7, 5, 8]), 8);
    let q = puzzle(4, &FOUR, Algo::AStar, Heuristic::Manhattan, true);
    assert_eq!(Manhattan::heuristic(&q, &FOUR), 14);
}

#[test]
fn hamming_values() {
    let p = puzzle(3, &MIDDLE, Algo::AStar, Heuristic::Hamming, true);
    assert_eq!(Hamming::heuristic(&p, &EASY), 5);
    assert_eq!(Hamming::heuristic(&p, &MIDDLE), 6);
    assert_eq!(Hamming::heuristic(&p, &HARDER), 6);
    assert_eq!(Hamming::heuristic(&p, &[1, 2, 3, 4, 0, 6, 7, 5, 8]), 4);
    let q = puzzle(4, &FOUR, Algo::AStar, Heuristic::Hamming, true);
    assert_eq!(Hamming::heuristic(&q, &FOUR), 9);
}

#[test]
fn euclidian_values() {
    let p = puzzle(3, &MIDDLE, Algo::AStar, Heuristic::Euclidian, true);
    assert_eq!(Euclidian::heuristic(&p, &EASY), 2);
    assert_eq!(Euclidian::heuristic(&p, &MIDDLE), 2);
    assert_eq!(Euclidian::heuristic(&p, &HARDER), 4);
    assert_eq!(Euclidian::heuristic(&p, &[1, 2, 3, 4, 0, 6, 7, 5, 8]), 3);
    let q = puzzle(4, &FOUR, Algo::AStar, Heuristic::Euclidian, true);
    assert_eq!(Euclidian::heuristic(&q, &FOUR), 4);
}

#[test]
fn integer_root_values() {
    assert_eq!(integer_root(0), 0);
    assert_eq!(integer_root(1), 1);
    assert_eq!(integer_root(3), 1);
    assert_eq!(integer_root(4), 2);
    assert_eq!(integer_root(15), 3);
    assert_eq!(integer_root(16), 4);
    assert_eq!(integer_root(1_000_000), 1000);
    assert_eq!(integer_root(999_999), 999);
    assert_eq!(integer_root(u128::MAX), u64::MAX);
}

#[test]
fn configured_estimate_is_dispatched() {
    let a = puzzle(3, &HARDER, Algo::AStar, Heuristic::Manhattan, true);
    let b = puzzle(3, &HARDER, Algo::AStar, Heuristic::Euclidian, true);
    let c = puzzle(3, &HARDER, Algo::AStar, Heuristic::Hamming, true);
    assert_eq!(a.calculate_heuristic(&HARDER), 12);
    assert_eq!(b.calculate_heuristic(&HARDER), 4);
    assert_eq!(c.calculate_heuristic(&HARDER), 6);
}

#[test]
fn estimates_never_exceed_the_true_distance() {
    let p = puzzle(3, &MIDDLE, Algo::AStar, Heuristic::Manhattan, true);
    for (board, d) in distances_from_goal(3, 12) {
        assert!(Manhattan::heuristic(&p, &board) <= d);
        assert!(Hamming::heuristic(&p, &board) <= d);
        assert!(Euclidian::heuristic(&p, &board) <= d);
    }
}

#[test]
fn neighbors_of_a_corner_and_of_the_centre() {
    let p = puzzle(3, &MIDDLE, Algo::AStar, Heuristic::Manhattan, true);
    let corner = Node {
        state: MIDDLE.to_vec(),
        father: None,
        blank: Vec2 { x: 0, y: 2 },
        g: 4,
        h: 8,
        f: 12,
    };
    let next = neighbors(&p, &corner, 7);
    assert_eq!(next.len(), 2);
    assert_eq!(next[0].state, vec![1, 8, 2, 7, 5, 3, 6, 0, 4]);
    assert_eq!(next[0].blank, Vec2 { x: 1, y: 2 });
    assert_eq!(next[1].state, vec![1, 8, 2, 0, 5, 3, 7, 6, 4]);
    assert_eq!(next[1].blank, Vec2 { x: 0, y: 1 });
    for n in &next {
        assert_eq!(n.father, Some(7));
        assert_eq!(n.g, 5);
        assert_eq!(n.h, Manhattan::heuristic(&p, &n.state));
        assert_eq!(n.f, (n.g + n.h) as u128);
    }
    let centre = Node {
        state: HARDER.to_vec(),
        father: None,
        blank: Vec2 { x: 1, y: 1 },
        g: 0,
        h: 12,
        f: 12,
    };
    let around = neighbors(&p, &centre, 0);
    assert_eq!(around.len(), 4);
    assert_eq!(around[0].state, vec![8, 2, 3, 0, 6, 5, 4, 1, 7]);
    assert_eq!(around[1].state, vec![8, 2, 3, 6, 5, 0, 4, 1, 7]);
    assert_eq!(around[2].state, vec![8, 0, 3, 6, 2, 5, 4, 1, 7]);
    assert_eq!(around[3].state, vec![8, 2, 3, 6, 1, 5, 4, 0, 7]);
}

#[test]
fn goal_test_reads_the_estimate() {
    let mut node = Node {
        state: goal_board(3),
        father: None,
        blank: Vec2 { x: 1, y: 1 },
        g: 3,
        h: 0,
        f: 3,
    };
    assert!(is_goal(&node));
    node.h = 1;
    assert!(!is_goal(&node));
}

#[test]
fn nodes_are_the_same_by_their_boards() {
    let a = Node { state: EASY.to_vec(), father: None, blank: Vec2 { x: 0, y: 2 }, g: 0, h: 6, f: 6 };
    let b = Node { state: EASY.to_vec(), father: Some(3), blank: Vec2 { x: 0, y: 2 }, g: 9, h: 6, f: 15 };
    let c = Node { state: MIDDLE.to_vec(), father: None, blank: Vec2 { x: 0, y: 2 }, g: 0, h: 6, f: 6 };
    assert!(a.same_state(&b));
    assert!(!a.same_state(&c));
    assert!(a == b);
    assert!(a != c);
    assert!(a.before(&b));
    assert!(!b.before(&a));
    assert!(!a.before(&c));
    assert!(same_tiles(&vec![1, 2], &vec![1, 2]));
    assert!(!same_tiles(&vec![1, 2], &vec![1, 2, 3]));
    assert_eq!(copy_tiles(&[4, 5, 6]), vec![4, 5, 6]);
}

#[test]
fn solved_board_takes_no_step() {
    let goal = goal_board(3);
    let mut p = puzzle(3, &goal, Algo::AStar, Heuristic::Manhattan, false);
    let out = Astar::solve(&mut p);
    assert_eq!(steps_of(&out), 0);
    check_path(3, &goal, &out);
    let mut q = puzzle(3, &goal, Algo::IDAStar, Heuristic::Manhattan, false);
    let out = IDAstar::solve(&mut q);
    assert_eq!(steps_of(&out), 0);
    check_path(3, &goal, &out);
}

#[test]
fn best_first_length_is_the_breadth_first_length() {
    for board in [EASY, MIDDLE, HARDER] {
        let mut p = puzzle(3, &board, Algo::AStar, Heuristic::Manhattan, false);
        let out = p.solve();
        assert_eq!(Some(steps_of(&out)), breadth_first(3, &board));
        check_path(3, &board, &out);
    }
}

#[test]
fn expected_lengths() {
    let mut p = puzzle(3, &EASY, Algo::AStar, Heuristic::Manhattan, true);
    assert_eq!(steps_of(&p.solve()), 6);
    let mut p = puzzle(3, &MIDDLE, Algo::AStar, Heuristic::Manhattan, true);
    assert_eq!(steps_of(&p.solve()), 10);
    let mut p = puzzle(3, &HARDER, Algo::AStar, Heuristic::Manhattan, true);
    assert_eq!(steps_of(&p.solve()), 16);
}

#[test]
fn row_order_instance_has_no_solution_either_way() {
    let board = [1, 2, 3, 4, 0, 6, 7, 5, 8];
    assert_eq!(breadth_first(3, &board), None);
    let mut numbers = vec![3];
    numbers.extend_from_slice(&board);
    let made = Puzzle::from_numbers(&numbers, true, Algo::AStar, Heuristic::Manhattan);
    assert_eq!(made.err(), Some(PuzzleError::Unsolvable));
}

#[test]
fn both_searches_find_the_same_length() {
    for board in [EASY, MIDDLE, HARDER] {
        for heuristic in [Heuristic::Manhattan, Heuristic::Euclidian] {
            let mut a = puzzle(3, &board, Algo::AStar, heuristic, false);
            let mut b = puzzle(3, &board, Algo::IDAStar, heuristic, false);
            let first = a.solve();
            let second = b.solve();
            assert_eq!(steps_of(&first), steps_of(&second));
            check_path(3, &board, &first);
            check_path(3, &board, &second);
        }
    }
}

#[test]
fn both_searches_agree_with_the_hamming_estimate() {
    for board in [EASY, MIDDLE] {
        let mut a = puzzle(3, &board, Algo::AStar, Heuristic::Hamming, false);
        let mut b = puzzle(3, &board, Algo::IDAStar, Heuristic::Hamming, false);
        let first = Astar::solve(&mut a);
        let second = IDAstar::solve(&mut b);
        assert_eq!(steps_of(&first), steps_of(&second));
        assert_eq!(Some(steps_of(&first)), breadth_first(3, &board));
    }
}

#[test]
fn deepening_search_raises_its_bound_on_side_four() {
    let mut a = puzzle(4, &FOUR, Algo::AStar, Heuristic::Manhattan, false);
    let mut b = puzzle(4, &FOUR, Algo::IDAStar, Heuristic::Manhattan, false);
    assert!(a.calculate_heuristic(&FOUR) < 16);
    let first = Astar::solve(&mut a);
    let second = IDAstar::solve(&mut b);
    assert_eq!(steps_of(&first), 16);
    assert_eq!(steps_of(&second), 16);
    check_path(4, &FOUR, &first);
    check_path(4, &FOUR, &second);
}

#[test]
fn short_instance_of_side_four() {
    let mut a = puzzle(4, &FOUR_SHORT, Algo::AStar, Heuristic::Manhattan, true);
    let mut b = puzzle(4, &FOUR_SHORT, Algo::IDAStar, Heuristic::Manhattan, true);
    assert_eq!(steps_of(&a.solve()), 10);
    assert_eq!(steps_of(&b.solve()), 10);
}

#[test]
fn silent_puzzle_reports_no_boards() {
    let mut a = puzzle(3, &MIDDLE, Algo::AStar, Heuristic::Manhattan, true);
    match a.solve() {
        Outcome::Solved { steps, path } => {
            assert_eq!(steps, 10);
            assert!(path.is_empty());
        }
        _ => panic!("no solution reported"),
    }
    let mut b = puzzle(3, &MIDDLE, Algo::IDAStar, Heuristic::Manhattan, true);
    match b.solve() {
        Outcome::Solved { steps, path } => {
            assert_eq!(steps, 10);
            assert!(path.is_empty());
        }
        _ => panic!("no solution reported"),
    }
}

#[test]
fn counters_only_grow() {
    let mut a = puzzle(3, &MIDDLE, Algo::AStar, Heuristic::Manhattan, true);
    a.solve();
    assert!(a.total_open > 10);
    assert!(a.current_open <= a.total_open);
    assert_eq!(a.initial_state, MIDDLE.to_vec());
    let mut b = puzzle(3, &MIDDLE, Algo::IDAStar, Heuristic::Manhattan, true);
    b.solve();
    assert!(b.total_open > 10);
    assert_eq!(b.current_open, 11);
}

fn side_two(tiles: [u32; 4], algo: Algo, heuristic: Heuristic) -> Puzzle {
    let at = tiles.iter().position(|t| *t == 0).unwrap() as u32;
    Puzzle {
        total_open: 1,
        current_open: 1,
        coords: Puzzle::init_coordinates(2),
        size: 2,
        initial_blank: Vec2 { x: at % 2, y: at / 2 },
        initial_state: tiles.to_vec(),
        silent: false,
        algo,
        heuristic,
    }
}

#[test]
fn searches_exhaust_an_unsolvable_board_of_side_two() {
    assert_eq!(goal_board(2), vec![1, 2, 0, 3]);
    assert_eq!(breadth_first(2, &[2, 1, 0, 3]), None);
    for heuristic in [Heuristic::Manhattan, Heuristic::Euclidian, Heuristic::Hamming] {
        let mut a = side_two([2, 1, 0, 3], Algo::AStar, heuristic);
        assert!(matches!(a.solve(), Outcome::NoSolution));
        assert!(a.total_open >= 12);
        assert_eq!(a.current_open, 0);
        let mut b = side_two([2, 1, 0, 3], Algo::IDAStar, heuristic);
        assert!(matches!(b.solve(), Outcome::NoSolution));
        assert_eq!(b.current_open, 1);
        assert!(b.total_open > 12);
    }
}

#[test]
fn every_board_of_side_two_is_solved_in_the_fewest_moves() {
    for (board, d) in distances_from_goal(2, 100) {
        let tiles = [board[0], board[1], board[2], board[3]];
        for heuristic in [Heuristic::Manhattan, Heuristic::Hamming] {
            let mut a = side_two(tiles, Algo::AStar, heuristic);
            let mut b = side_two(tiles, Algo::IDAStar, heuristic);
            assert!(a.calculate_heuristic(&board) <= d);
            let first = a.solve();
            let second = b.solve();
            assert_eq!(steps_of(&first), d);
            assert_eq!(steps_of(&second), d);
            check_path(2, &board, &first);
            check_path(2, &board, &second);
        }
    }
}

#[test]
fn counters_stop_at_their_greatest_number() {
    let mut a = puzzle(3, &MIDDLE, Algo::AStar, Heuristic::Manhattan, true);
    a.total_open = u64::MAX;
    a.current_open = u64::MAX;
    assert_eq!(steps_of(&a.solve()), 10);
    assert_eq!(a.total_open, u64::MAX);
    let mut b = puzzle(3, &MIDDLE, Algo::IDAStar, Heuristic::Manhattan, true);
    b.total_open = u64::MAX - 3;
    b.current_open = u64::MAX - 3;
    assert_eq!(steps_of(&b.solve()), 10);
    assert_eq!(b.total_open, u64::MAX);
    assert_eq!(b.current_open, u64::MAX);
}

#[test]
fn one_move_instance_counts() {
    let board = [1, 2, 3, 0, 8, 4, 7, 6, 5];
    let mut a = puzzle(3, &board, Algo::AStar, Heuristic::Manhattan, true);
    assert_eq!(steps_of(&a.solve()), 1);
    assert_eq!(a.total_open, 4);
    assert_eq!(a.current_open, 2);
    let mut b = puzzle(3, &board, Algo::IDAStar, Heuristic::Manhattan, false);
    let out = b.solve();
    assert_eq!(steps_of(&out), 1);
    check_path(3, &board, &out);
    assert_eq!(b.current_open, 2);
    assert!(2 <= b.total_open && b.total_open <= 4);
}

#[test]
fn solved_instance_counts() {
    let goal = goal_board(3);
    let mut a = puzzle(3, &goal, Algo::AStar, Heuristic::Manhattan, false);
    let out = a.solve();
    assert_eq!(steps_of(&out), 0);
    check_path(3, &goal, &out);
    assert_eq!(a.total_open, 1);
    assert_eq!(a.current_open, 0);
    let mut b = puzzle(3, &goal, Algo::IDAStar, Heuristic::Manhattan, false);
    assert_eq!(steps_of(&b.solve()), 0);
    assert_eq!(b.total_open, 1);
    assert_eq!(b.current_open, 1);
}

#[test]
fn deepening_search_counts_its_path() {
    for board in [EASY, MIDDLE, HARDER] {
        let mut b = puzzle(3, &board, Algo::IDAStar, Heuristic::Manhattan, false);
        match b.solve() {
            Outcome::Solved { steps, path } => {
                assert_eq!(b.current_open, path.len() as u64);
                assert_eq!(b.current_open, 1 + steps);
                assert!(b.total_open >= 1 + steps);
                for i in 0..path.len() {
                    for j in i + 1..path.len() {
                        assert_ne!(path[i], path[j]);
                    }
                }
            }
            _ => panic!("no solution reported"),
        }
    }
}

#[test]
fn sum_of_squares_values() {
    let p = puzzle(3, &MIDDLE, Algo::AStar, Heuristic::Euclidian, true);
    assert_eq!(Euclidian::sum_of_squares(&p, &[1, 2, 3, 4, 0, 6, 7, 5, 8]), 12);
    assert_eq!(Euclidian::sum_of_squares(&p, &HARDER), 18);
    assert_eq!(Euclidian::sum_of_squares(&p, &goal_board(3)), 0);
}

#[test]
fn one_move_changes_the_manhattan_estimate_by_one() {
    let p = puzzle(3, &MIDDLE, Algo::AStar, Heuristic::Manhattan, true);
    for (board, _) in distances_from_goal(3, 8) {
        let here = Manhattan::heuristic(&p, &board) as i64;
        for next in moves_of(&board, 3) {
            let there = Manhattan::heuristic(&p, &next) as i64;
            assert_eq!((here - there).abs(), 1);
            let e = Euclidian::heuristic(&p, &board) as i64 - Euclidian::heuristic(&p, &next) as i64;
            assert!(e.abs() <= 1);
            let h = Hamming::heuristic(&p, &board) as i64 - Hamming::heuristic(&p, &next) as i64;
            assert!(h.abs() <= 1);
        }
    }
}

#[test]
fn hamming_is_below_manhattan_and_the_number_of_tiles() {
    let p = puzzle(3, &MIDDLE, Algo::AStar, Heuristic::Manhattan, true);
    for (board, _) in distances_from_goal(3, 10) {
        let h = Hamming::heuristic(&p, &board);
        assert!(h <= Manhattan::heuristic(&p, &board));
        assert!(h <= 8);
    }
    assert_eq!(Hamming::heuristic(&p, &[8, 7, 6, 5, 0, 1, 2, 3, 4]), 8);
}

#[test]
fn board_of_side_two_that_fails_the_solvability_check() {
    let board = [2, 1, 0, 3];
    let made = side_two(board, Algo::IDAStar, Heuristic::Manhattan);
    assert!(!Puzzle::sovable(&made.initial_state, 2, made.initial_blank));
}
