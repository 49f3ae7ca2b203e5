//! The contents of a square and the two players.

use vstd::prelude::*;

verus! {

/// What occupies one square of the board.
#[derive(Clone, Copy, Debug, PartialEq, Eq, Structural)]
pub enum Piece {
    Black,
    White,
    Blank,
}

impl Piece {
    /// True exactly for an empty square.
    pub fn is_blank(&self) -> (r: bool)
        ensures
            r == (*self == Piece::Blank),
    {
        match self {
            Piece::Blank => true,
            _ => false,
        }
    }
}

/// One of the two sides of a game.
#[derive(Clone, Copy, Debug, PartialEq, Eq, Structural)]
pub enum Player {
    Black,
    White,
}

impl Player {
    pub open spec fn spec_piece(self) -> Piece {
        match self {
            Player::Black => Piece::Black,
            Player::White => Piece::White,
        }
    }

    /// The piece this player lays down.
    #[verifier::when_used_as_spec(spec_piece)]
    pub fn piece(self) -> (r: Piece)
        ensures
            r == self.spec_piece(),
    {
        match self {
            Player::Black => Piece::Black,
            Player::White => Piece::White,
        }
    }

    pub open spec fn spec_other(self) -> Player {
        match self {
            Player::Black => Player::White,
            Player::White => Player::Black,
        }
    }

    /// The opponent of this player.
    #[verifier::when_used_as_spec(spec_other)]
    pub fn other(self) -> (r: Player)
        ensures
            r == self.spec_other(),
    {
        match self {
            Player::Black => Player::White,
            Player::White => Player::Black,
        }
    }
}

} // verus!
