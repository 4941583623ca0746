use npuzzle::algo::Algo;
use npuzzle::heuristic::Heuristic;
use npuzzle::reader::read_numbers;
use npuzzle::solver::{
    fill_tiles, find_blank, first_repeat, push_decimal, tiles_below, tiles_of, Puzzle, PuzzleError,
    Vec2,
};

fn text_of(numbers: &[u32]) -> String {
    let words: Vec<String> = numbers.iter().map(|n| format!("{}", n)).collect();
    words.join(" ")
}

fn make(numbers: Vec<u32>) -> Result<Puzzle, PuzzleError> {
    let text = text_of(&numbers);
    let read = Puzzle::new(Some(text.as_bytes()), false, 3, true, Algo::AStar, Heuristic::Manhattan);
    let listed = Puzzle::from_numbers(&numbers, true, Algo::AStar, Heuristic::Manhattan);
    match (&read, &listed) {
        (Ok(a), Ok(b)) => {
            assert_eq!(a.initial_state, b.initial_state);
            assert_eq!(a.size, b.size);
        }
        (Err(a), Err(b)) => assert_eq!(a, b),
        _ => panic!("text and numbers disagree"),
    }
    read
}

fn read(text: &str) -> Result<Puzzle, PuzzleError> {
    Puzzle::from_text(text.as_bytes(), true, Algo::AStar, Heuristic::Manhattan)
}

fn error_of(numbers: Vec<u32>) -> PuzzleError {
    match make(numbers) {
        Ok(_) => panic!("the instance was accepted"),
        Err(e) => e,
    }
}

#[test]
fn solved_board_is_solvable() {
    let goal = [1, 2, 3, 8, 0, 4, 7, 6, 5];
    assert!(Puzzle::sovable(&goal, 3, Vec2 { x: 1, y: 1 }));
}

#[test]
fn last_two_tiles_exchanged_is_unsolvable() {
    let board = [1, 2, 3, 8, 0, 4, 7, 5, 6];
    assert!(!Puzzle::sovable(&board, 3, Vec2 { x: 1, y: 1 }));
}

#[test]
fn one_move_away_is_solvable() {
    let board = [1, 2, 3, 0, 8, 4, 7, 6, 5];
    assert!(Puzzle::sovable(&board, 3, Vec2 { x: 0, y: 1 }));
}

#[test]
fn row_order_board_of_side_three_is_unsolvable() {
    let board = [1, 2, 3, 4, 0, 6, 7, 5, 8];
    assert!(!Puzzle::sovable(&board, 3, Vec2 { x: 1, y: 1 }));
}

#[test]
fn solvable_boards_of_side_four() {
    let goal = [1, 2, 3, 4, 12, 13, 14, 5, 11, 0, 15, 6, 10, 9, 8, 7];
    assert!(Puzzle::sovable(&goal, 4, Vec2 { x: 1, y: 2 }));
    let scrambled = [1, 2, 3, 4, 13, 10, 14, 5, 9, 12, 7, 15, 11, 8, 0, 6];
    assert!(Puzzle::sovable(&scrambled, 4, Vec2 { x: 2, y: 3 }));
    let odd = [2, 1, 3, 4, 12, 13, 14, 5, 11, 0, 15, 6, 10, 9, 8, 7];
    assert!(!Puzzle::sovable(&odd, 4, Vec2 { x: 1, y: 2 }));
}

#[test]
fn accepted_instance_fields() {
    let p = make(vec![3, 1, 8, 2, 7, 5, 3, 0, 6, 4]).unwrap();
    assert_eq!(p.size, 3);
    assert_eq!(p.initial_state, vec![1, 8, 2, 7, 5, 3, 0, 6, 4]);
    assert_eq!(p.initial_blank, Vec2 { x: 0, y: 2 });
    assert_eq!(p.total_open, 1);
    assert_eq!(p.current_open, 1);
    assert!(p.silent);
    assert_eq!(p.algo, Algo::AStar);
    assert_eq!(p.heuristic, Heuristic::Manhattan);
    assert_eq!(p.coords.len(), 9);
    assert_eq!(p.coords.get(&0), Some(&Vec2 { x: 1, y: 1 }));
}

#[test]
fn description_wins_over_random() {
    let p = Puzzle::new(
        Some("3 1 2 3 8 0 4 7 6 5".as_bytes()),
        true,
        4,
        false,
        Algo::IDAStar,
        Heuristic::Hamming,
    )
    .unwrap();
    assert_eq!(p.size, 3);
    assert_eq!(p.initial_state, vec![1, 2, 3, 8, 0, 4, 7, 6, 5]);
    assert!(!p.silent);
    assert_eq!(p.algo, Algo::IDAStar);
    assert_eq!(p.heuristic, Heuristic::Hamming);
}

#[test]
fn side_below_three_is_refused() {
    assert_eq!(error_of(vec![2, 1, 2, 0, 3]), PuzzleError::SizeTooSmall);
    assert_eq!(error_of(vec![0]), PuzzleError::SizeTooSmall);
}

#[test]
fn side_over_the_limit_is_refused() {
    assert_eq!(error_of(vec![65536, 0, 1]), PuzzleError::SizeTooLarge);
}

#[test]
fn repeated_tile_is_refused() {
    assert_eq!(error_of(vec![3, 1, 2, 3, 8, 0, 4, 7, 6, 6]), PuzzleError::Duplicate(6));
    assert_eq!(error_of(vec![3, 1, 2, 2, 1]), PuzzleError::Duplicate(2));
    assert_eq!(error_of(vec![3, 40, 40]), PuzzleError::Duplicate(40));
}

#[test]
fn wrong_number_of_tiles_is_refused() {
    assert_eq!(error_of(vec![]), PuzzleError::WrongCount);
    assert_eq!(error_of(vec![3]), PuzzleError::WrongCount);
    assert_eq!(error_of(vec![3, 1, 2, 3, 8, 0, 4, 7, 6]), PuzzleError::WrongCount);
    assert_eq!(error_of(vec![3, 1, 2, 3, 8, 0, 4, 7, 6, 5, 9]), PuzzleError::WrongCount);
    assert_eq!(error_of(vec![3, 1, 2, 3, 8, 0, 4, 7, 6, 88]), PuzzleError::OutOfRange);
}

#[test]
fn tile_out_of_range_is_refused() {
    assert_eq!(error_of(vec![3, 1, 2, 3, 8, 0, 4, 7, 6, 9]), PuzzleError::OutOfRange);
    assert_eq!(error_of(vec![3, 1, 2, 3, 8, 9, 4, 7, 6, 5]), PuzzleError::OutOfRange);
}

#[test]
fn unsolvable_board_is_refused() {
    assert_eq!(error_of(vec![3, 1, 2, 3, 8, 0, 4, 7, 5, 6]), PuzzleError::Unsolvable);
    assert_eq!(error_of(vec![3, 1, 2, 3, 4, 0, 6, 7, 5, 8]), PuzzleError::Unsolvable);
}

#[test]
fn neither_description_nor_random_is_refused() {
    let r = Puzzle::new(None, false, 3, true, Algo::AStar, Heuristic::Manhattan);
    assert_eq!(r.err(), Some(PuzzleError::WrongCount));
}

#[test]
fn random_side_is_checked() {
    let small = Puzzle::new(None, true, 2, true, Algo::AStar, Heuristic::Manhattan);
    assert_eq!(small.err(), Some(PuzzleError::SizeTooSmall));
    let large = Puzzle::new(None, true, 70000, true, Algo::AStar, Heuristic::Manhattan);
    assert_eq!(large.err(), Some(PuzzleError::SizeTooLarge));
}

#[test]
fn random_instance_is_a_solvable_board() {
    for size in 3..=5u32 {
        let p = Puzzle::new(None, true, size, true, Algo::AStar, Heuristic::Manhattan).unwrap();
        assert_eq!(p.size, size);
        let mut sorted = p.initial_state.clone();
        sorted.sort();
        assert_eq!(sorted, (0..size * size).collect::<Vec<u32>>());
        let at = p.initial_state.iter().position(|t| *t == 0).unwrap() as u32;
        assert_eq!(p.initial_blank, Vec2 { x: at % size, y: at / size });
        assert!(Puzzle::sovable(&p.initial_state, size, p.initial_blank));
    }
}

#[test]
fn random_instances_are_shuffled() {
    let filled: Vec<u32> = (0..16).collect();
    let mut differs = false;
    for _ in 0..8 {
        let mut state = Vec::new();
        let mut blank = Vec2 { x: 0, y: 0 };
        assert!(Puzzle::generate_random(&mut state, 4, &mut blank));
        assert_eq!(state.len(), 16);
        if state != filled {
            differs = true;
        }
    }
    assert!(differs);
}

#[test]
fn generate_random_starts_from_nothing() {
    let mut state = vec![7, 7, 7];
    let mut blank = Vec2 { x: 9, y: 9 };
    assert!(Puzzle::generate_random(&mut state, 3, &mut blank));
    let mut sorted = state.clone();
    sorted.sort();
    assert_eq!(sorted, (0..9).collect::<Vec<u32>>());
    assert_eq!(state[(blank.y * 3 + blank.x) as usize], 0);
}

#[test]
fn first_repeat_finds_the_first() {
    assert_eq!(first_repeat(&[1, 2, 3]), None);
    assert_eq!(first_repeat(&[]), None);
    assert_eq!(first_repeat(&[1, 2, 1, 2]), Some(2));
    assert_eq!(first_repeat(&[5, 5]), Some(1));
}

#[test]
fn tiles_below_checks_every_tile() {
    assert!(tiles_below(&[0, 8, 3], 9));
    assert!(!tiles_below(&[0, 9, 3], 9));
    assert!(tiles_below(&[], 0));
}

#[test]
fn find_blank_gives_column_and_row() {
    assert_eq!(find_blank(&[1, 2, 3, 8, 4, 0, 7, 6, 5], 3), Some(Vec2 { x: 2, y: 1 }));
    assert_eq!(find_blank(&[1, 2, 3, 8, 4, 9, 7, 6, 5], 3), None);
}

#[test]
fn text_with_lines_and_comments() {
    let text = "# a board of side three\n3 # the side\n1 2 3\n8 0 4 #no more on this line 9 9\n7\t6  5\n";
    let p = read(text).unwrap();
    assert_eq!(p.size, 3);
    assert_eq!(p.initial_state, vec![1, 2, 3, 8, 0, 4, 7, 6, 5]);
    assert_eq!(p.initial_blank, Vec2 { x: 1, y: 1 });
}

#[test]
fn word_with_the_comment_sign_inside_ends_the_line() {
    let scan = read_numbers("3 4x#y 5 6\n7 8#\n9".as_bytes());
    assert_eq!(scan.numbers, vec![3, 7, 9]);
    assert_eq!(scan.bad, None);
}

#[test]
fn carriage_returns_and_plus_signs() {
    let scan = read_numbers("3\r\n+1 002\r\n\x0b\x0c 4294967295".as_bytes());
    assert_eq!(scan.numbers, vec![3, 1, 2, 4294967295]);
    assert_eq!(scan.bad, None);
}

#[test]
fn empty_and_blank_texts() {
    assert_eq!(read_numbers("".as_bytes()).numbers, Vec::<u32>::new());
    assert_eq!(read_numbers(" \n\t ".as_bytes()).bad, None);
    assert_eq!(read("").err(), Some(PuzzleError::WrongCount));
    assert_eq!(read("# nothing").err(), Some(PuzzleError::WrongCount));
}

#[test]
fn reading_stops_at_a_word_that_is_no_number() {
    let scan = read_numbers("3 1 2 x3 4".as_bytes());
    assert_eq!(scan.numbers, vec![3, 1, 2]);
    assert_eq!(scan.bad, Some(6));
    assert_eq!(read_numbers("12a".as_bytes()).bad, Some(0));
    assert_eq!(read_numbers(" -1".as_bytes()).bad, Some(1));
    assert_eq!(read_numbers("+".as_bytes()).bad, Some(0));
    assert_eq!(read_numbers("++1".as_bytes()).bad, Some(0));
    assert_eq!(read_numbers("1 4294967296".as_bytes()).bad, Some(2));
    assert_eq!(read_numbers("1 99999999999999999999999999".as_bytes()).bad, Some(2));
    assert_eq!(read_numbers("1.5".as_bytes()).bad, Some(0));
}

#[test]
fn unreadable_word_is_reported_with_its_place() {
    assert_eq!(read("3 1 2 3 8 zero 4 7 6 5").err(), Some(PuzzleError::Unparsable(10)));
    assert_eq!(read("three").err(), Some(PuzzleError::Unparsable(0)));
    assert_eq!(read("3 1 2 3 8 0 4 7 6 5 !").err(), Some(PuzzleError::Unparsable(20)));
}

#[test]
fn earlier_faults_come_before_an_unreadable_word() {
    assert_eq!(read("2 1 x").err(), Some(PuzzleError::SizeTooSmall));
    assert_eq!(read("70000 x").err(), Some(PuzzleError::SizeTooLarge));
    assert_eq!(read("3 1 2 1 x").err(), Some(PuzzleError::Duplicate(1)));
    assert_eq!(read("3 1 2 99 x").err(), Some(PuzzleError::Unparsable(9)));
}

#[test]
fn tiles_of_drops_the_side() {
    assert_eq!(tiles_of(&[3, 1, 2]), vec![1, 2]);
    assert_eq!(tiles_of(&[3]), Vec::<u32>::new());
}

#[test]
fn board_text_of_side_three() {
    let p = read("3 1 2 3 8 0 4 7 6 5").unwrap();
    let text = p.print_state(&p.initial_state);
    assert_eq!(String::from_utf8(text).unwrap(), "1  2  3  \n8  0  4  \n7  6  5  \n");
}

#[test]
fn board_text_with_two_digit_tiles() {
    let goal = [1, 2, 3, 4, 12, 13, 14, 5, 11, 0, 15, 6, 10, 9, 8, 7];
    let mut numbers = vec![4];
    numbers.extend_from_slice(&goal);
    let p = Puzzle::from_numbers(&numbers, true, Algo::AStar, Heuristic::Manhattan).unwrap();
    let text = p.print_state(&goal);
    assert_eq!(
        String::from_utf8(text).unwrap(),
        "1  2  3  4  \n12 13 14 5  \n11 0  15 6  \n10 9  8  7  \n"
    );
}

#[test]
fn board_text_reads_back() {
    let goal = [1, 2, 3, 4, 12, 13, 14, 5, 11, 0, 15, 6, 10, 9, 8, 7];
    let mut numbers = vec![4];
    numbers.extend_from_slice(&goal);
    let p = Puzzle::from_numbers(&numbers, true, Algo::AStar, Heuristic::Manhattan).unwrap();
    let scan = read_numbers(&p.print_state(&goal));
    assert_eq!(scan.numbers, goal.to_vec());
    assert_eq!(scan.bad, None);
}

#[test]
fn decimal_digits() {
    for (v, text) in [(0u32, "0"), (7, "7"), (10, "10"), (909, "909"), (4294967295, "4294967295")] {
        let mut out = vec![b'x'];
        push_decimal(v, &mut out);
        assert_eq!(String::from_utf8(out).unwrap(), format!("x{}", text));
    }
}

#[test]
fn fill_tiles_counts_up() {
    let mut state = vec![9, 9];
    fill_tiles(&mut state, 3);
    assert_eq!(state, vec![0, 1, 2, 3, 4, 5, 6, 7, 8]);
    fill_tiles(&mut state, 1);
    assert_eq!(state, vec![0]);
}
