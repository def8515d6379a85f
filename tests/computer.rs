use reversi::board::ArrayBasedBoard;
use reversi::computer::{Computer, RandomComputer, SimpleComputer, WeightedComputer};
use reversi::game::{PlayerManager, PlayerType};
use reversi::point::Point;
use reversi::stone::Stone;

/// Black has two moves: (2, 0) turns over one stone, (4, 7) three.
fn two_choices() -> ArrayBasedBoard {
    let mut board = ArrayBasedBoard::new();
    board.fill(None);
    board.set_at(0, 0, Some(Stone::Black)).unwrap();
    board.set_at(1, 0, Some(Stone::White)).unwrap();
    board.set_at(0, 7, Some(Stone::Black)).unwrap();
    for x in 1..4 {
        board.set_at(x, 7, Some(Stone::White)).unwrap();
    }
    board
}

#[test]
fn two_choices_setup() {
    let board = two_choices();
    let moves = board.get_can_put_stones(Stone::Black);
    assert_eq!(moves, vec![Point::new(2, 0), Point::new(4, 7)]);
    assert_eq!(board.count_flippable(2, 0, Stone::Black), 1);
    assert_eq!(board.count_flippable(4, 7, Stone::Black), 3);
}

#[test]
fn greedy_takes_the_move_that_turns_over_most() {
    let board = two_choices();
    let computer = SimpleComputer::new(Stone::Black);
    assert_eq!(computer.color(), Stone::Black);
    assert_eq!(computer.decide(&board), Point::new(4, 7));
}

#[test]
fn greedy_tie_keeps_the_first_move() {
    let mut board = ArrayBasedBoard::new();
    board.init_four_central_squares();
    // Every opening move turns over one stone: the first in row-major order wins.
    assert_eq!(SimpleComputer::new(Stone::Black).decide(&board), Point::new(3, 2));
    assert_eq!(SimpleComputer::new(Stone::White).decide(&board), Point::new(4, 2));
}

#[test]
fn weighted_prefers_the_better_position() {
    let board = two_choices();
    let computer = WeightedComputer::new(Stone::Black);
    assert_eq!(computer.decide(&board), Point::new(4, 7));
}

#[test]
fn weighted_leaves_the_board_untouched() {
    let board = two_choices();
    let before = board.to_text();
    let _ = WeightedComputer::new(Stone::Black).decide(&board);
    assert_eq!(board.to_text(), before);
    assert_eq!(board.count(Stone::Black), 2);
    assert_eq!(board.count(Stone::White), 4);
}

#[test]
fn weighted_prefers_a_corner() {
    let mut board = ArrayBasedBoard::new();
    board.fill(None);
    // White can take the corner (0, 0) or the cell (5, 2); both turn over one stone.
    board.set_at(1, 1, Some(Stone::Black)).unwrap();
    board.set_at(2, 2, Some(Stone::White)).unwrap();
    board.set_at(4, 2, Some(Stone::Black)).unwrap();
    board.set_at(3, 2, Some(Stone::White)).unwrap();
    let moves = board.get_can_put_stones(Stone::White);
    assert_eq!(moves, vec![Point::new(0, 0), Point::new(5, 2)]);
    assert_eq!(WeightedComputer::new(Stone::White).decide(&board), Point::new(0, 0));
}

#[test]
fn random_draw_picks_by_index() {
    let board = two_choices();
    let computer = RandomComputer::new(Stone::Black);
    assert_eq!(computer.decide_with(&board, 0), Point::new(2, 0));
    assert_eq!(computer.decide_with(&board, 5), Point::new(4, 7));
}

#[test]
fn random_returns_a_legal_move() {
    let board = two_choices();
    let computer = RandomComputer::new(Stone::Black);
    for _ in 0..20 {
        let p = computer.decide(&board);
        assert!(board.check_can_put(p.x, p.y, Stone::Black));
    }
}

#[test]
fn computer_dispatches_to_its_strategy() {
    let board = two_choices();
    let simple = Computer::Simple(SimpleComputer::new(Stone::Black));
    assert_eq!(simple.color(), Stone::Black);
    assert_eq!(simple.decide(&board), Point::new(4, 7));
    let random = Computer::Random(RandomComputer::new(Stone::Black));
    let p = random.decide(&board);
    assert!(board.check_can_put(p.x, p.y, Stone::Black));
}

#[test]
fn manager_asks_the_strategy_of_the_side() {
    let board = two_choices();
    let mut manager = PlayerManager::new(
        PlayerType::Computer(Computer::Simple(SimpleComputer::new(Stone::Black))),
        PlayerType::Human,
    );
    assert_eq!(manager.decide(&board, Stone::Black), Some(Point::new(4, 7)));
    assert_eq!(manager.decide(&board, Stone::White), None);
    *manager.player_mut(Stone::Black) = PlayerType::Human;
    assert!(matches!(manager.player(Stone::Black), PlayerType::Human));
    assert_eq!(manager.decide(&board, Stone::Black), None);
}
