//! An Othello (Reversi) engine: an 8x8 board, the rules for placing a piece
//! and capturing lines, the turn state of a two-player game, the text
//! picture of a board, and the reading of a typed move.

pub mod piece;
pub mod board;
pub mod game;
pub mod render;
pub mod input;
