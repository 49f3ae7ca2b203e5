//! The state of a two-player game: the board and whose turn it is.

use vstd::prelude::*;
use crate::board::{after_place, initial_cells, place_outcome, Board, PlacementError};
use crate::piece::Player;

verus! {

/// A game in progress. The side to move changes only when a placement
/// succeeds.
pub struct Game {
    pub board: Board,
    pub turn: Player,
}

impl Game {
    /// A game at the standard opening, with Black to move.
    pub fn new() -> (g: Game)
        ensures
            g.board.wf(),
            g.board@ == initial_cells(),
            g.turn == Player::Black,
    {
        Game { board: Board::new(), turn: Player::Black }
    }

    /// The side to move places a piece at (x, y). On success the turn passes
    /// to the other side; on failure the board and the turn stay as they
    /// were, and the same side is to move again.
    pub fn play(&mut self, x: isize, y: isize) -> (r: Result<(), PlacementError>)
        requires
            old(self).board.wf(),
        ensures
            final(self).board.wf(),
            r == place_outcome(old(self).board@, x as int, y as int, old(self).turn.piece()),
            r is Ok ==> final(self).turn == old(self).turn.other() && final(self).board@ == after_place(
                old(self).board@,
                x as int,
                y as int,
                old(self).turn.piece(),
            ),
            r is Err ==> final(self).turn == old(self).turn && final(self).board@ == old(self).board@,
    {
        let r = self.board.place(x, y, self.turn);
        if r.is_ok() {
            self.turn = self.turn.other();
        }
        r
    }
}

} // verus!
