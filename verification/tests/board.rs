use std::collections::HashSet;

use game15::Board;
use game15::Direction;

const DEFAULT_CONFIG: &'static [u8; 16] = &[0, 1, 2, 3, 4, 5, 6, 7, 8, 9, 10, 11, 12, 13, 14, 15];
const SOLVED_CONFIG: &'static [u8; 16] = &[1, 2, 3, 4, 5, 6, 7, 8, 9, 10, 11, 12, 13, 14, 15, 0];
const SOLVABLE_CONFIG: &'static [u8; 16] = &[1, 2, 3, 4, 0, 5, 6, 7, 8, 10, 11, 9, 12, 13, 14, 15];

#[test]
fn dir_is_opposite() {
    assert_eq!(Direction::Up, Direction::Down.opposite());
    assert_eq!(Direction::Down, Direction::Up.opposite());
    assert_eq!(Direction::Left, Direction::Right.opposite());
    assert_eq!(Direction::Right, Direction::Left.opposite());

    assert_ne!(Direction::Up, Direction::Up.opposite());
    assert_ne!(Direction::Up, Direction::Left.opposite());
    assert_ne!(Direction::Up, Direction::Right.opposite());
}

#[test]
fn dir_opposes() {
    assert!(Direction::Up.opposites(Direction::Down));
    assert!(Direction::Down.opposites(Direction::Up));
    assert!(Direction::Left.opposites(Direction::Right));
    assert!(Direction::Right.opposites(Direction::Left));

    assert!(!Direction::Up.opposites(Direction::Up));
    assert!(!Direction::Up.opposites(Direction::Left));
    assert!(!Direction::Up.opposites(Direction::Right));
}

#[test]
fn dir_value() {
    assert_eq!(Direction::Up.value(), -4);
    assert_eq!(Direction::Down.value(), 4);
    assert_eq!(Direction::Left.value(), -1);
    assert_eq!(Direction::Right.value(), 1);
}

fn is_board_valid(b: &Board) -> bool {
    let mut tiles = HashSet::new();
    for tile in b.tiles() {
        tiles.insert(tile);
    }
    if tiles.len() != b.tiles().len() {
        return false;
    }
    for tile in &tiles {
        let value = **tile as usize;
        if value >= b.tiles().len() {
            return false;
        }
    }
    true
}

#[test]
fn create_board() {
    let b = Board::new();
    assert_eq!(*b.tiles(), *DEFAULT_CONFIG);
    assert_eq!(b.empty(), 0);

    let b = Board::new_from(DEFAULT_CONFIG).expect("failed to create default board");
    assert_eq!(*b.tiles(), *DEFAULT_CONFIG);
    assert_eq!(b.empty(), 0);

    let b = Board::new_from(SOLVED_CONFIG).expect("failed to create solved board");
    assert_eq!(*b.tiles(), *SOLVED_CONFIG);
    assert_eq!(b.empty(), 15);
}

#[test]
fn board_move() {
    let mut b = Board::new();

    // Move all the way to the right
    for i in 0..3 {
        assert!(b.can_slide(Direction::Right));
        b.slide(Direction::Right);
        assert!(is_board_valid(&b));
        assert_eq!(b.empty(), i + 1);
    }
    // Try to go over the right edge
    assert!(!b.can_slide(Direction::Right));
    let res = b.slide_safe(Direction::Right);
    assert!(res.is_err());
    assert!(is_board_valid(&b));
    assert_eq!(b.empty(), 3);

    // Move all the way down
    for i in 0..3 {
        assert!(b.can_slide(Direction::Down));
        b.slide(Direction::Down);
        assert!(is_board_valid(&b));
        assert_eq!(b.empty(), (i + 1) * 4 + 3);
    }
    // Try to go over the bottom edge
    assert!(!b.can_slide(Direction::Down));
    let res = b.slide_safe(Direction::Down);
    assert!(res.is_err());
    assert!(is_board_valid(&b));
    assert_eq!(b.empty(), 15);

    // Move all the way to the left
    for i in 0..3 {
        assert!(b.can_slide(Direction::Left));
        b.slide(Direction::Left);
        assert!(is_board_valid(&b));
        assert_eq!(b.empty(), b.tiles().len() - 1 - i - 1);
    }
    // Try to go over the left edge
    assert!(!b.can_slide(Direction::Left));
    let res = b.slide_safe(Direction::Left);
    assert!(res.is_err());
    assert!(is_board_valid(&b));
    assert_eq!(b.empty(), 12);

    // Move all the way up
    for i in 0..3 {
        assert!(b.can_slide(Direction::Up));
        b.slide(Direction::Up);
        assert!(is_board_valid(&b));
        assert_eq!(b.empty(), (3 - i - 1) * 4);
    }
    // Try to go over the top edge
    assert!(!b.can_slide(Direction::Up));
    let res = b.slide_safe(Direction::Up);
    assert!(res.is_err());
    assert!(is_board_valid(&b));
    assert_eq!(b.empty(), 0);
}

#[test]
fn random_board() {
    let b = Board::new_random();
    assert!(is_board_valid(&b));

    let mut b = Board::new();
    assert!(is_board_valid(&b));
    b.shuffle();
    assert!(is_board_valid(&b));
}

#[test]
fn board_solvable() {
    let b = Board::new_from(SOLVED_CONFIG).expect("failed to create solved board");
    assert!(b.solvable());

    let b = Board::new_from(DEFAULT_CONFIG).expect("failed to create default board");
    assert!(!b.solvable());

    let b = Board::new_from(SOLVABLE_CONFIG).expect("failed to create solvable board");
    assert!(b.solvable());
}

#[test]
fn board_solved() {
    let b = Board::new_from(SOLVED_CONFIG).expect("failed to create solved board");
    assert!(b.solved());

    let b = Board::new_from(DEFAULT_CONFIG).expect("failed to create default board");
    assert!(!b.solved());

    let b = Board::new_from(SOLVABLE_CONFIG).expect("failed to create solvable board");
    assert!(!b.solved());
}

#[test]
fn board_clone() {
    let b = Board::new();
    let clone1 = b.clone();
    let clone2 = Board::new_from(b.tiles()).expect("failed to create clone board");
    assert_eq!(*b.tiles(), *clone1.tiles());
    assert_ne!(b.tiles().as_ptr(), clone1.tiles().as_ptr());
    assert_eq!(b.empty(), clone1.empty());
    assert_eq!(*b.tiles(), *clone2.tiles());
    assert_ne!(b.tiles().as_ptr(), clone2.tiles().as_ptr());
    assert_eq!(b.empty(), clone2.empty());
}
