use npuzzle::solver::{Puzzle, Vec2};

fn layout(size: u32) -> Vec<u32> {
    let mut board = vec![u32::MAX; (size * size) as usize];
    for value in 0..size * size {
        let c = Puzzle::get_coordinates(value, size);
        board[(c.y * size + c.x) as usize] = value;
    }
    board
}

#[test]
fn goal_layout_of_side_three() {
    assert_eq!(layout(3), vec![1, 2, 3, 8, 0, 4, 7, 6, 5]);
}

#[test]
fn goal_layout_of_side_four() {
    assert_eq!(layout(4), vec![1, 2, 3, 4, 12, 13, 14, 5, 11, 0, 15, 6, 10, 9, 8, 7]);
}

#[test]
fn goal_layout_of_side_five() {
    assert_eq!(
        layout(5),
        vec![1, 2, 3, 4, 5, 16, 17, 18, 19, 6, 15, 24, 0, 20, 7, 14, 23, 22, 21, 8, 13, 12, 11, 10, 9]
    );
}

#[test]
fn goal_layout_of_small_sides() {
    assert_eq!(layout(1), vec![0]);
    assert_eq!(layout(2), vec![1, 2, 0, 3]);
}

#[test]
fn first_and_blank_coordinates() {
    assert_eq!(Puzzle::get_coordinates(1, 3), Vec2 { x: 0, y: 0 });
    assert_eq!(Puzzle::get_coordinates(0, 3), Vec2 { x: 1, y: 1 });
    assert_eq!(Puzzle::get_coordinates(0, 4), Vec2 { x: 1, y: 2 });
    assert_eq!(Puzzle::get_coordinates(5, 3), Vec2 { x: 2, y: 2 });
    assert_eq!(Puzzle::get_coordinates(8, 3), Vec2 { x: 0, y: 1 });
}

#[test]
fn every_tile_has_its_own_cell() {
    for size in 3..=12u32 {
        let mut seen = vec![false; (size * size) as usize];
        for value in 0..size * size {
            let c = Puzzle::get_coordinates(value, size);
            assert!(c.x < size && c.y < size);
            let at = (c.y * size + c.x) as usize;
            assert!(!seen[at], "cell taken twice for side {}", size);
            seen[at] = true;
        }
        assert!(seen.iter().all(|s| *s));
    }
}

#[test]
fn coordinates_do_not_change_between_calls() {
    for size in 3..=6u32 {
        for value in 0..size * size {
            assert_eq!(Puzzle::get_coordinates(value, size), Puzzle::get_coordinates(value, size));
        }
    }
}

#[test]
fn goal_table_holds_every_tile() {
    let table = Puzzle::init_coordinates(4);
    assert_eq!(table.len(), 16);
    for value in 0..16u32 {
        assert_eq!(table.get(&value), Some(&Puzzle::get_coordinates(value, 4)));
    }
}

#[test]
fn large_side_corners() {
    let size = 1000u32;
    assert_eq!(Puzzle::get_coordinates(1, size), Vec2 { x: 0, y: 0 });
    assert_eq!(Puzzle::get_coordinates(size, size), Vec2 { x: size - 1, y: 0 });
    assert_eq!(Puzzle::get_coordinates(2 * size - 1, size), Vec2 { x: size - 1, y: size - 1 });
    assert_eq!(Puzzle::get_coordinates(3 * size - 2, size), Vec2 { x: 0, y: size - 1 });
    assert_eq!(Puzzle::get_coordinates(4 * size - 4, size), Vec2 { x: 0, y: 1 });
}

#[test]
fn tiles_in_a_row_along_the_spiral_are_side_by_side() {
    for size in 1..=9u32 {
        for value in 1..size * size {
            let next = if value + 1 == size * size { 0 } else { value + 1 };
            let a = Puzzle::get_coordinates(value, size);
            let b = Puzzle::get_coordinates(next, size);
            let dx = (a.x as i64 - b.x as i64).abs();
            let dy = (a.y as i64 - b.y as i64).abs();
            assert_eq!(dx + dy, 1);
        }
    }
}
