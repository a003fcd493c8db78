//! Players, cells, move outcomes and disc tallies.
use vstd::prelude::*;

verus! {

/// One of the two sides of the game. Black moves first.
#[derive(Copy, Clone, PartialEq, Eq, Debug, Structural)]
pub enum Player {
    Black,
    White,
}

impl Player {
    /// The other side.
    pub open spec fn spec_opponent(self) -> Player {
        match self {
            Player::Black => Player::White,
            Player::White => Player::Black,
        }
    }

    #[verifier::when_used_as_spec(spec_opponent)]
    pub fn opponent(self) -> (other: Player)
        ensures
            other == self.spec_opponent(),
    {
        match self {
            Player::Black => Player::White,
            Player::White => Player::Black,
        }
    }
}

/// The content of one square of the board.
#[derive(Copy, Clone, PartialEq, Eq, Debug, Structural)]
pub enum Cell {
    Empty,
    Disc(Player),
}

impl Cell {
    /// The owner of the disc on this square, if there is one.
    pub open spec fn spec_player(self) -> Option<Player> {
        match self {
            Cell::Disc(player) => Some(player),
            Cell::Empty => None,
        }
    }

    #[verifier::when_used_as_spec(spec_player)]
    pub fn player(self) -> (owner: Option<Player>)
        ensures
            owner == self.spec_player(),
    {
        if let Cell::Disc(player) = self {
            Some(player)
        } else {
            None
        }
    }

    pub fn is_empty(self) -> (empty: bool)
        ensures
            empty == (self == Cell::Empty),
    {
        self.player().is_none()
    }
}

/// What happened after a disc was placed.
#[derive(Copy, Clone, PartialEq, Eq, Debug, Structural)]
pub enum MoveResult {
    /// The turn passed to the opponent.
    Played,
    /// The opponent had no legal move, so the same player moves again.
    OpponentPassed,
    /// Neither player has a legal move left.
    GameOver,
}

/// The number of discs each player has on the board.
#[derive(Copy, Clone, PartialEq, Eq, Debug, Structural)]
pub struct DiscCounts {
    pub black: usize,
    pub white: usize,
}

impl DiscCounts {
    /// The player with strictly more discs, or `None` on a tie.
    pub open spec fn spec_winner(self) -> Option<Player> {
        if self.black > self.white {
            Some(Player::Black)
        } else if self.white > self.black {
            Some(Player::White)
        } else {
            None
        }
    }

    pub fn total(self) -> (sum: usize)
        requires
            self.black + self.white <= usize::MAX,
        ensures
            sum == self.black + self.white,
    {
        self.black + self.white
    }

    pub fn winner(self) -> (leader: Option<Player>)
        ensures
            leader == self.spec_winner(),
            leader == Some(Player::Black) <==> self.black > self.white,
            leader == Some(Player::White) <==> self.white > self.black,
    {
        if self.black > self.white {
            Some(Player::Black)
        } else if self.white > self.black {
            Some(Player::White)
        } else {
            None
        }
    }
}

} // verus!
