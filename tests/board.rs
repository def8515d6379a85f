use reversi::board::{ArrayBasedBoard, ReversiError};
use reversi::stone::Stone;

fn opening() -> ArrayBasedBoard {
    let mut board = ArrayBasedBoard::new();
    board.init_four_central_squares();
    board
}

#[test]
fn count() {
    let board = opening();
    assert_eq!(board.count(Stone::Black), 2);
    assert_eq!(board.count(Stone::White), 2);
}

#[test]
fn init_board() {
    let board = opening();
    assert_eq!(
        board.to_text(),
        "........\n........\n........\n...WB...\n...BW...\n........\n........\n........\n"
    );
}

#[test]
fn opening_has_four_centre_stones_only() {
    let board = opening();
    assert_eq!(board.size(), 8);
    for y in 0..8 {
        for x in 0..8 {
            let expected = match (x, y) {
                (3, 3) | (4, 4) => Some(Stone::White),
                (4, 3) | (3, 4) => Some(Stone::Black),
                _ => None,
            };
            assert_eq!(board.get_at(x, y), expected);
        }
    }
}

#[test]
fn small_board_opening_text() {
    let mut board = ArrayBasedBoard::with_size(4);
    board.init_four_central_squares();
    assert_eq!(board.to_text(), "....\n.WB.\n.BW.\n....\n");
    assert_eq!(board.count(Stone::Black), 2);
    assert_eq!(board.count(Stone::White), 2);
}

#[test]
fn default_board_is_empty() {
    let board = ArrayBasedBoard::default();
    assert_eq!(board.size(), 8);
    assert_eq!(board.count(Stone::Black), 0);
    assert_eq!(board.count(Stone::White), 0);
    assert!(!board.is_game_over());
}

#[test]
fn get_at_off_board_is_none() {
    let board = opening();
    assert_eq!(board.get_at(8, 0), None);
    assert_eq!(board.get_at(0, 8), None);
    assert!(!board.in_range(8, 3));
    assert!(board.in_range(7, 7));
}

#[test]
fn flip_turns_a_stone_over() {
    let mut board = opening();
    assert_eq!(board.flip(3, 3), Ok(()));
    assert_eq!(board.get_at(3, 3), Some(Stone::Black));
    assert_eq!(board.count(Stone::Black), 3);
    assert_eq!(board.count(Stone::White), 1);
}

#[test]
fn flip_errors() {
    let mut board = opening();
    assert_eq!(board.flip(0, 0), Err(ReversiError::NoStoneToFlip));
    assert_eq!(board.flip(9, 0), Err(ReversiError::IndexOutOfBound));
    assert_eq!(board.to_text(), opening().to_text());
}

#[test]
fn opening_moves_in_row_major_order() {
    let board = opening();
    let moves: Vec<(usize, usize)> = board
        .get_can_put_stones(Stone::Black)
        .iter()
        .map(|p| (p.x, p.y))
        .collect();
    assert_eq!(moves, vec![(3, 2), (2, 3), (5, 4), (4, 5)]);
    assert!(board.check_can_put(3, 2, Stone::Black));
    assert!(!board.check_can_put(2, 2, Stone::Black));
    assert!(!board.check_can_put(3, 3, Stone::Black));
}

#[test]
fn move_adds_one_stone_and_turns_over_the_enclosed() {
    let mut board = opening();
    assert_eq!(board.count_flippable(3, 2, Stone::Black), 1);
    assert_eq!(board.put_stone(3, 2, Stone::Black), Ok(()));
    assert_eq!(board.count(Stone::Black), 4);
    assert_eq!(board.count(Stone::White), 1);
    assert_eq!(board.get_at(3, 3), Some(Stone::Black));
}

#[test]
fn move_turns_over_in_several_directions() {
    let mut board = ArrayBasedBoard::new();
    board.fill(None);
    // Black at (2, 2) encloses (3, 2) to the right and (2, 3) below.
    board.set_at(4, 2, Some(Stone::Black)).unwrap();
    board.set_at(3, 2, Some(Stone::White)).unwrap();
    board.set_at(2, 4, Some(Stone::Black)).unwrap();
    board.set_at(2, 3, Some(Stone::White)).unwrap();
    board.set_at(5, 2, Some(Stone::White)).unwrap();
    assert_eq!(board.count_flippable(2, 2, Stone::Black), 2);
    assert_eq!(board.put_stone(2, 2, Stone::Black), Ok(()));
    assert_eq!(board.count(Stone::Black), 5);
    assert_eq!(board.count(Stone::White), 1);
    assert_eq!(board.get_at(3, 2), Some(Stone::Black));
    assert_eq!(board.get_at(2, 3), Some(Stone::Black));
}

#[test]
fn count_flippable_off_board_is_zero() {
    let board = opening();
    assert_eq!(board.count_flippable(8, 8, Stone::Black), 0);
}

#[test]
fn set_at_off_board_is_refused() {
    let mut board = opening();
    assert_eq!(board.set_at(8, 0, Some(Stone::Black)), Err(ReversiError::IndexOutOfBound));
    assert_eq!(board.to_text(), opening().to_text());
}

#[test]
fn full_board_is_game_over() {
    let mut board = ArrayBasedBoard::with_size(4);
    board.fill(Some(Stone::White));
    assert!(board.is_game_over());
    board.set_at(1, 1, None).unwrap();
    assert!(!board.is_game_over());
}

#[test]
fn winner_by_count() {
    let mut board = ArrayBasedBoard::with_size(4);
    board.init_four_central_squares();
    assert_eq!(board.winner(), Err(ReversiError::GameOverWithDraw));
    board.set_at(0, 0, Some(Stone::White)).unwrap();
    assert_eq!(board.winner(), Err(ReversiError::GameOverWithWinner(Stone::White)));
    board.set_at(0, 1, Some(Stone::Black)).unwrap();
    board.set_at(0, 2, Some(Stone::Black)).unwrap();
    assert_eq!(board.winner(), Err(ReversiError::GameOverWithWinner(Stone::Black)));
}

#[test]
fn filling_move_ends_in_draw() {
    let mut board = ArrayBasedBoard::with_size(4);
    board.fill(Some(Stone::Black));
    board.set_at(0, 0, None).unwrap();
    for (x, y) in [(1, 0), (0, 1), (0, 2), (0, 3), (1, 1), (2, 2), (3, 3), (3, 0), (2, 1)] {
        board.set_at(x, y, Some(Stone::White)).unwrap();
    }
    assert_eq!(board.count(Stone::Black), 6);
    assert_eq!(board.count(Stone::White), 9);
    assert_eq!(board.put_stone(0, 0, Stone::Black), Err(ReversiError::GameOverWithDraw));
    assert_eq!(board.count(Stone::Black), 8);
    assert_eq!(board.count(Stone::White), 8);
}

#[test]
fn snapshot_is_independent() {
    let board = opening();
    let mut copy = board.snapshot();
    assert_eq!(copy.to_text(), board.to_text());
    copy.put_stone(3, 2, Stone::Black).unwrap();
    assert_ne!(copy.to_text(), board.to_text());
    assert_eq!(board.count(Stone::White), 2);
}

#[test]
fn board_rows_are_readable() {
    let board = opening();
    let rows = board.board();
    assert_eq!(rows.len(), 8);
    assert_eq!(rows[3][3], Some(Stone::White));
    assert_eq!(rows[3][4], Some(Stone::Black));
}
