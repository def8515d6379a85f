use crate::stone::Stone;
use vstd::prelude::*;

verus! {

/// Every outcome of a move other than plain success.
#[derive(Debug, Clone, Copy, PartialEq, Eq, Structural)]
pub enum ReversiError {
    StoneAlreadyPlaced,
    InvalidMove,
    IndexOutOfBound,
    NoStoneToFlip,
    /// The given side has no legal move and is skipped.
    NextPlayerCantPutStone(Stone),
    GameOverWithWinner(Stone),
    GameOverWithDraw,
}

} // verus!
