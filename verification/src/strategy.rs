//! Move-choosing strategies for computer players.
use vstd::prelude::*;

use crate::game::Game;
use crate::player::Player;
use crate::position::{square_of, Position};

verus! {

/// A way of choosing a move for `player` in `game`; `None` means the
/// strategy has no move to offer.
pub trait Strategy {
    fn choose_move(&self, game: &Game, player: Player) -> Option<Position>;
}

/// Picks the legal move that turns over the most discs.
pub struct GreedyStrategy;

impl Strategy for GreedyStrategy {
    /// The legal move with most captures; among equals, the last in reading
    /// order. `None` when `player` has no legal move.
    fn choose_move(&self, game: &Game, player: Player) -> (choice: Option<Position>)
        ensures
            game@.is_best_choice(player, square_of(choice)),
            choice is None <==> !game@.has_legal_move(player),
            choice matches Some(p) ==> {
                &&& game@.is_legal(player, p@.0, p@.1)
                &&& forall|r: int, c: int|
                    #[trigger] game@.is_legal(player, r, c) ==> game@.flips(player, r, c).len()
                        <= game@.flips(player, p@.0, p@.1).len()
            },
    {
        game.best_move_for(player)
    }
}

} // verus!
