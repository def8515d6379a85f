//! Rules engine for Reversi (Othello): board, legal-move detection, move
//! execution with flipping, turn control, and a few automated strategies.
pub mod board;
pub mod computer;
pub mod error;
pub mod game;
pub mod point;
pub mod stone;
