use game15::Astar;
use game15::Board;
use game15::Direction;
use game15::ValidationError;

const SOLVED_CONFIG: &'static [u8; 16] = &[1, 2, 3, 4, 5, 6, 7, 8, 9, 10, 11, 12, 13, 14, 15, 0];
const ALMOST_CONFIG: &'static [u8; 16] = &[1, 2, 3, 4, 5, 6, 7, 8, 9, 10, 11, 12, 13, 14, 0, 15];

#[test]
fn slide_then_opposite_restores() {
    let mut b = Board::new_from(ALMOST_CONFIG).expect("failed to create almost board");
    for dir in [Direction::Right, Direction::Up] {
        assert!(b.can_slide(dir));
        b.slide(dir);
        assert!(b.can_slide(dir.opposite()));
        b.slide(dir.opposite());
        assert_eq!(*b.tiles(), *ALMOST_CONFIG);
        assert_eq!(b.empty(), 14);
    }
}

#[test]
fn illegal_slide_leaves_board_unchanged() {
    let mut b = Board::new();
    assert!(!b.can_slide(Direction::Left));
    assert!(b.slide_safe(Direction::Left).is_err());
    assert_eq!(*b.tiles(), [0, 1, 2, 3, 4, 5, 6, 7, 8, 9, 10, 11, 12, 13, 14, 15]);
    assert_eq!(b.empty(), 0);

    assert!(!b.can_slide(Direction::Up));
    assert!(b.slide_safe(Direction::Up).is_err());
    assert_eq!(*b.tiles(), [0, 1, 2, 3, 4, 5, 6, 7, 8, 9, 10, 11, 12, 13, 14, 15]);
    assert_eq!(b.empty(), 0);
}

#[test]
fn solved_only_on_exact_sequence() {
    let b = Board::new_from(SOLVED_CONFIG).expect("failed to create solved board");
    assert!(b.solved());

    // One transposition off the solved sequence is not solved.
    let mut near = *SOLVED_CONFIG;
    near.swap(0, 1);
    let b = Board::new_from(&near).expect("failed to create near board");
    assert!(!b.solved());

    let b = Board::new_from(ALMOST_CONFIG).expect("failed to create almost board");
    assert!(!b.solved());
}

#[test]
fn shuffle_keeps_permutation() {
    let mut b = Board::new_random();
    for _ in 0..4 {
        b.shuffle();
        let mut sorted = *b.tiles();
        sorted.sort();
        assert_eq!(sorted, [0, 1, 2, 3, 4, 5, 6, 7, 8, 9, 10, 11, 12, 13, 14, 15]);
        assert_eq!(b.tiles()[b.empty()], 0);
    }
}

#[test]
fn solve_one_move() {
    let board = Board::new_from(ALMOST_CONFIG).expect("failed to create almost board");
    let moves = Astar::run(&board).expect("result should not be None");
    assert_eq!(moves, vec![Direction::Right]);
}

#[test]
fn solve_already_solved() {
    let board = Board::new_from(SOLVED_CONFIG).expect("failed to create solved board");
    let moves = Astar::run(&board).expect("result should not be None");
    assert!(moves.is_empty());
}

#[test]
fn reject_repeated_tiles() {
    let all_same = [3u8; 16];
    assert!(matches!(
        Board::new_from(&all_same),
        Err(ValidationError::MissingOrRepeatedTile)
    ));

    let mut repeated = *SOLVED_CONFIG;
    repeated[0] = 2;
    assert!(matches!(
        Board::new_from(&repeated),
        Err(ValidationError::MissingOrRepeatedTile)
    ));
}

#[test]
fn reject_out_of_range_tile() {
    let mut bad = *SOLVED_CONFIG;
    bad[5] = 16;
    assert!(matches!(
        Board::new_from(&bad),
        Err(ValidationError::TileOutOfRange)
    ));

    let mut huge = *SOLVED_CONFIG;
    huge[15] = 255;
    assert!(matches!(
        Board::new_from(&huge),
        Err(ValidationError::TileOutOfRange)
    ));
}

#[test]
fn reject_wrong_length() {
    let short = [0u8, 1, 2, 3];
    assert!(matches!(
        Board::new_from(&short),
        Err(ValidationError::MissingOrRepeatedTile)
    ));

    let long = [0u8, 1, 2, 3, 4, 5, 6, 7, 8, 9, 10, 11, 12, 13, 14, 15, 15];
    assert!(matches!(
        Board::new_from(&long),
        Err(ValidationError::TooManyTiles)
    ));
}
