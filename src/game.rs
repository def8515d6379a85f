use crate::board::{
    after_move, count_cells, initial_grid, legal, legal_moves, move_error, move_result, outcome, positions,
    ArrayBasedBoard,
};
use crate::computer::{chooses_first_max, flip_scores, weighted_scores, Computer};
use crate::error::ReversiError;
use crate::point::Point;
use crate::stone::Stone;
use vstd::prelude::*;

verus! {

/// The outcome ends the game.
pub open spec fn is_terminal(e: ReversiError) -> bool {
    e is GameOverWithWinner || e is GameOverWithDraw
}

/// Who moves for a side: a person, whose moves come from outside, or a strategy.
pub enum PlayerType {
    Human,
    Computer(Computer),
}

/// Who moves for each side.
pub struct PlayerManager {
    black: PlayerType,
    white: PlayerType,
}

impl PlayerManager {
    /// Who moves for `stone`.
    pub closed spec fn player_of(&self, stone: Stone) -> PlayerType {
        match stone {
            Stone::Black => self.black,
            Stone::White => self.white,
        }
    }

    pub fn new(black: PlayerType, white: PlayerType) -> (r: Self)
        ensures
            r.player_of(Stone::Black) == black,
            r.player_of(Stone::White) == white,
    {
        Self { black, white }
    }

    pub fn player(&self, stone: Stone) -> (r: &PlayerType)
        ensures
            *r == self.player_of(stone),
    {
        match stone {
            Stone::Black => &self.black,
            Stone::White => &self.white,
        }
    }

    pub fn player_mut(&mut self, stone: Stone) -> (r: &mut PlayerType)
        ensures
            *r == old(self).player_of(stone),
            final(self).player_of(stone) == *final(r),
            final(self).player_of(stone.opp()) == old(self).player_of(stone.opp()),
    {
        match stone {
            Stone::Black => &mut self.black,
            Stone::White => &mut self.white,
        }
    }

    /// The move that the strategy for `turn` chooses; `None` when a person
    /// moves for `turn`.
    pub fn decide(&self, board: &ArrayBasedBoard, turn: Stone) -> (r: Option<Point>)
        requires
            board.wf(),
            match self.player_of(turn) {
                PlayerType::Human => true,
                PlayerType::Computer(c) => c.can_decide(board@),
            },
        ensures
            match self.player_of(turn) {
                PlayerType::Human => r is None,
                PlayerType::Computer(c) => {
                    let q = r.unwrap().pos();
                    let g = board@;
                    &&& r is Some
                    &&& legal(g, q.0, q.1, c.side())
                    &&& c is Simple ==> chooses_first_max(legal_moves(g, c.side()), flip_scores(g, c.side()), q)
                    &&& c is Weighted ==> chooses_first_max(legal_moves(g, c.side()), weighted_scores(g, c.side()), q)
                },
            },
    {
        let player = self.player(turn);
        match player {
            PlayerType::Human => None,
            PlayerType::Computer(computer) => Some(computer.decide(board)),
        }
    }
}

/// A game: the board, the side to move, and the final outcome once there is one.
pub struct SimpleReversiGame {
    board: ArrayBasedBoard,
    turn: Stone,
    finished: Option<ReversiError>,
}

impl Default for SimpleReversiGame {
    fn default() -> (r: Self)
        ensures
            r.wf(),
            r.board_state()@ == initial_grid(8),
            r.turn_of() == Stone::Black,
            r.ended() is None,
    {
        Self::new()
    }
}

impl SimpleReversiGame {
    pub closed spec fn board_state(&self) -> ArrayBasedBoard {
        self.board
    }

    pub closed spec fn turn_of(&self) -> Stone {
        self.turn
    }

    /// The outcome that ended the game, if it has ended.
    pub closed spec fn ended(&self) -> Option<ReversiError> {
        self.finished
    }

    pub open spec fn wf(&self) -> bool {
        &&& self.board_state().wf()
        &&& self.ended() is Some ==> is_terminal(self.ended().unwrap())
    }

    /// A game on a board of the default size in the opening position, Black to move.
    pub fn new() -> (r: Self)
        ensures
            r.wf(),
            r.board_state()@ == initial_grid(8),
            count_cells(r.board_state()@, Some(Stone::Black)) == 2,
            count_cells(r.board_state()@, Some(Stone::White)) == 2,
            count_cells(r.board_state()@, None) == 60,
            r.turn_of() == Stone::Black,
            r.ended() is None,
    {
        let mut board = ArrayBasedBoard::new();
        assert(board@.len() == 8);
        board.init_four_central_squares();
        Self { board, turn: Stone::Black, finished: None }
    }

    /// The side to move plays at `(x, y)`. On success the turn passes; when the
    /// opponent must pass it stays; a refused move changes nothing; an
    /// outcome that ends the game is kept, and every later move gets it back.
    pub fn put_stone(&mut self, x: usize, y: usize) -> (r: Result<(), ReversiError>)
        requires
            old(self).wf(),
        ensures
            final(self).wf(),
            old(self).ended() is Some ==> r == Err::<(), ReversiError>(old(self).ended().unwrap()) && *final(self) == *old(self),
            old(self).ended() is None ==> {
                let g = old(self).board_state()@;
                let t = old(self).turn_of();
                &&& r == move_result(g, x as int, y as int, t)
                &&& final(self).board_state()@ == if move_error(g, x as int, y as int, t) is Some {
                    g
                } else {
                    after_move(g, x as int, y as int, t)
                }
                &&& final(self).turn_of() == match r {
                    Ok(()) => t.opp(),
                    Err(e) => if is_terminal(e) { t.opp() } else { t },
                }
                &&& final(self).ended() == match r {
                    Ok(()) => None,
                    Err(e) => if is_terminal(e) { Some(e) } else { None },
                }
            },
    {
        if let Some(e) = self.finished {
            return Err(e);
        }
        let result = self.board.put_stone(x, y, self.turn);
        match result {
            Ok(()) => {
                self.take_turn();
            },
            Err(e) => {
                if Self::ends_game(e) {
                    self.finished = Some(e);
                    self.take_turn();
                }
            },
        }
        result
    }

    fn ends_game(e: ReversiError) -> (r: bool)
        ensures
            r == is_terminal(e),
    {
        match e {
            ReversiError::GameOverWithWinner(_) | ReversiError::GameOverWithDraw => true,
            _ => false,
        }
    }

    /// The end of the game as the board stands (by stone count).
    pub fn winner(&self) -> (r: Result<(), ReversiError>)
        requires
            self.wf(),
        ensures
            r == Err::<(), ReversiError>(outcome(self.board_state()@)),
    {
        self.board.winner()
    }

    /// Whether the side to move may play at `(x, y)`.
    pub fn check_can_put(&self, x: usize, y: usize) -> (r: bool)
        requires
            self.wf(),
        ensures
            r == legal(self.board_state()@, x as int, y as int, self.turn_of()),
    {
        self.board.check_can_put(x, y, self.turn)
    }

    /// The legal moves of the side to move, row by row and left to right.
    pub fn get_can_put_stones(&self) -> (r: Vec<Point>)
        requires
            self.wf(),
        ensures
            positions(r@) == legal_moves(self.board_state()@, self.turn_of()),
    {
        self.board.get_can_put_stones(self.turn)
    }

    pub fn board(&self) -> (r: &ArrayBasedBoard)
        ensures
            *r == self.board_state(),
    {
        &self.board
    }

    /// The board, to lay out a position through its own methods.
    pub fn board_mut(&mut self) -> (r: &mut ArrayBasedBoard)
        ensures
            *r == old(self).board_state(),
            final(self).board_state() == *final(r),
            final(self).turn_of() == old(self).turn_of(),
            final(self).ended() == old(self).ended(),
    {
        &mut self.board
    }

    /// Passes the turn to the other side.
    pub fn take_turn(&mut self)
        ensures
            final(self).turn_of() == old(self).turn_of().opp(),
            final(self).board_state() == old(self).board_state(),
            final(self).ended() == old(self).ended(),
    {
        self.turn = self.turn.opposite();
    }

    pub fn set_turn(&mut self, turn: Stone)
        ensures
            final(self).turn_of() == turn,
            final(self).board_state() == old(self).board_state(),
            final(self).ended() == old(self).ended(),
    {
        self.turn = turn;
    }

    /// The side to move.
    pub fn turn(&self) -> (r: Stone)
        ensures
            r == self.turn_of(),
    {
        self.turn
    }
}

} // verus!
