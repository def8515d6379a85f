use reversi::computer::{Computer, WeightedComputer};
use reversi::error::ReversiError;
use reversi::game::{PlayerManager, PlayerType, SimpleReversiGame};
use reversi::stone::Stone;

#[test]
fn t1() {
    let mut game = SimpleReversiGame::default();
    assert_eq!(game.turn(), Stone::Black);
    game.put_stone(3, 2).unwrap();
    assert_eq!(game.turn(), Stone::White);
    game.put_stone(2, 4).unwrap();
}

#[test]
fn two_opening_moves_alternate_turns() {
    let mut game = SimpleReversiGame::new();
    assert_eq!(game.turn(), Stone::Black);
    assert_eq!(game.put_stone(3, 2), Ok(()));
    assert_eq!(game.turn(), Stone::White);
    assert_eq!(game.put_stone(2, 4), Ok(()));
    assert_eq!(game.turn(), Stone::Black);
    assert_eq!(game.board().count(Stone::Black), 3);
    assert_eq!(game.board().count(Stone::White), 3);
}

#[test]
fn finish() {
    let mut game = SimpleReversiGame::default();
    let size = game.board().size();

    game.board_mut().fill(Some(Stone::White));
    game.board_mut().set_at(0, 0, None).unwrap();
    game.board_mut().set_at(7, 0, Some(Stone::Black)).unwrap();

    let result = game.put_stone(0, 0);
    assert_eq!(result, Err(ReversiError::GameOverWithWinner(Stone::White)));
    assert_eq!(game.board().count(Stone::Black), 8);
    assert_eq!(game.board().count(Stone::White), size * size - 8);
}

#[test]
fn finished_game_refuses_further_moves() {
    let mut game = SimpleReversiGame::default();
    game.board_mut().fill(Some(Stone::White));
    game.board_mut().set_at(0, 0, None).unwrap();
    game.board_mut().set_at(7, 0, Some(Stone::Black)).unwrap();
    let ended = game.put_stone(0, 0);
    assert_eq!(ended, Err(ReversiError::GameOverWithWinner(Stone::White)));
    let before = game.board().to_text();
    let turn = game.turn();
    assert_eq!(game.put_stone(3, 3), ended);
    assert_eq!(game.board().to_text(), before);
    assert_eq!(game.turn(), turn);
}

#[test]
fn cant_put() {
    let mut game = SimpleReversiGame::default();
    game.board_mut().fill(None);
    game.board_mut().set_at(0, 0, Some(Stone::Black)).unwrap();
    game.board_mut().set_at(1, 0, Some(Stone::White)).unwrap();

    game.board_mut().set_at(7, 7, Some(Stone::Black)).unwrap();
    game.board_mut().set_at(6, 7, Some(Stone::White)).unwrap();

    assert_eq!(
        game.put_stone(2, 0),
        Err(ReversiError::NextPlayerCantPutStone(Stone::White))
    );
}

#[test]
fn cant_put_2() {
    let mut game = SimpleReversiGame::new();
    let player_mgr = PlayerManager::new(
        PlayerType::Human,
        PlayerType::Computer(Computer::Weighted(WeightedComputer::new(Stone::White))),
    );
    assert!(matches!(player_mgr.player(Stone::Black), PlayerType::Human));

    game.board_mut().fill(None);
    game.board_mut().set_at(0, 0, Some(Stone::Black)).unwrap();
    game.board_mut().set_at(1, 0, Some(Stone::White)).unwrap();

    game.board_mut().set_at(0, 7, Some(Stone::Black)).unwrap();
    game.board_mut().set_at(1, 7, Some(Stone::White)).unwrap();

    let result = game.put_stone(2, 0);
    assert_eq!(result, Err(ReversiError::NextPlayerCantPutStone(Stone::White)));
    assert_eq!(game.turn(), Stone::Black);
}

#[test]
fn forced_pass_keeps_the_mover() {
    let mut game = SimpleReversiGame::new();
    game.board_mut().fill(None);
    game.board_mut().set_at(0, 0, Some(Stone::Black)).unwrap();
    game.board_mut().set_at(1, 0, Some(Stone::White)).unwrap();
    game.board_mut().set_at(0, 7, Some(Stone::Black)).unwrap();
    game.board_mut().set_at(1, 7, Some(Stone::White)).unwrap();
    assert_eq!(game.put_stone(2, 0), Err(ReversiError::NextPlayerCantPutStone(Stone::White)));
    assert_eq!(game.turn(), Stone::Black);
    // Black moves again, and the last white stone is taken.
    assert_eq!(game.put_stone(2, 7), Err(ReversiError::GameOverWithWinner(Stone::Black)));
}

#[test]
fn no_moves_left_for_either_side_ends_by_count() {
    let mut game = SimpleReversiGame::new();
    game.board_mut().fill(None);
    game.board_mut().set_at(0, 0, Some(Stone::Black)).unwrap();
    game.board_mut().set_at(1, 0, Some(Stone::White)).unwrap();
    game.board_mut().set_at(5, 5, Some(Stone::White)).unwrap();
    game.board_mut().set_at(7, 5, Some(Stone::White)).unwrap();
    // After Black takes (1, 0): 3 black, 2 white, and neither side can move.
    assert_eq!(game.put_stone(2, 0), Err(ReversiError::GameOverWithWinner(Stone::Black)));
    assert_eq!(game.board().count(Stone::Black), 3);
    assert_eq!(game.board().count(Stone::White), 2);
}

#[test]
fn occupied_cell_is_refused_without_change() {
    let mut game = SimpleReversiGame::new();
    let before = game.board().to_text();
    assert_eq!(game.put_stone(3, 3), Err(ReversiError::StoneAlreadyPlaced));
    assert_eq!(game.put_stone(4, 3), Err(ReversiError::StoneAlreadyPlaced));
    assert_eq!(game.board().to_text(), before);
    assert_eq!(game.turn(), Stone::Black);
}

#[test]
fn off_board_move_is_refused_without_change() {
    let mut game = SimpleReversiGame::new();
    let before = game.board().to_text();
    assert_eq!(game.put_stone(8, 0), Err(ReversiError::IndexOutOfBound));
    assert_eq!(game.put_stone(0, 100), Err(ReversiError::IndexOutOfBound));
    assert_eq!(game.board().to_text(), before);
    assert_eq!(game.turn(), Stone::Black);
}

#[test]
fn move_enclosing_nothing_is_invalid() {
    let mut game = SimpleReversiGame::new();
    let before = game.board().to_text();
    assert_eq!(game.put_stone(0, 0), Err(ReversiError::InvalidMove));
    assert_eq!(game.put_stone(2, 2), Err(ReversiError::InvalidMove));
    assert_eq!(game.board().to_text(), before);
    assert_eq!(game.turn(), Stone::Black);
}

#[test]
fn move_counts_change_by_the_enclosed_stones() {
    let mut game = SimpleReversiGame::new();
    game.put_stone(3, 2).unwrap();
    game.put_stone(2, 4).unwrap();
    // Black at (1, 5) encloses (2, 4) toward (3, 3).
    let flips = game.board().count_flippable(1, 5, Stone::Black);
    let black = game.board().count(Stone::Black);
    let white = game.board().count(Stone::White);
    let total = black + white;
    game.put_stone(1, 5).unwrap();
    assert_eq!(game.board().count(Stone::Black), black + 1 + flips);
    assert_eq!(game.board().count(Stone::White), white - flips);
    assert_eq!(game.board().count(Stone::Black) + game.board().count(Stone::White), total + 1);
}

#[test]
fn game_queries_follow_the_turn() {
    let mut game = SimpleReversiGame::new();
    assert!(game.check_can_put(3, 2));
    assert_eq!(game.get_can_put_stones().len(), 4);
    game.set_turn(Stone::White);
    assert_eq!(game.turn(), Stone::White);
    assert!(!game.check_can_put(3, 2));
    assert!(game.check_can_put(4, 2));
    game.take_turn();
    assert_eq!(game.turn(), Stone::Black);
    assert_eq!(game.winner(), Err(ReversiError::GameOverWithDraw));
}
