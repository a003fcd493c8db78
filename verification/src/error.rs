//! Why a move was refused.
use vstd::prelude::*;

use crate::player::Player;
use crate::position::Position;

verus! {

/// The reasons a move can be refused. A refused move leaves the game as it was.
#[derive(Clone, PartialEq, Eq, Debug, Structural)]
pub enum MoveError {
    /// The row or the column is off the board.
    OutOfBounds { row: usize, col: usize },
    /// The square already holds a disc.
    Occupied { position: Position },
    /// A disc there would turn over no disc of the opponent.
    NoFlips { player: Player, position: Position },
}

} // verus!
