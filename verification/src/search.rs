//! A computer player that looks several moves ahead (minimax search).
use vstd::prelude::*;

use crate::game::Game;
use crate::player::{Cell, Player};
use crate::position::{square_of, squares_of, Position};
use crate::rules::{is_top_choice, GameState};
use crate::strategy::Strategy;

verus! {

/// How many discs `player` has more than its opponent (negative when behind).
pub open spec fn disc_margin(state: GameState, player: Player) -> int {
    state.count(Cell::Disc(player)) - state.count(Cell::Disc(player.opponent()))
}

/// The value of `state` for `player`, looking `depth` moves ahead. With no
/// moves left to look at, or when the side to move has no legal move, it is
/// the disc margin; otherwise it is the best value over the moves of the side
/// to move: the highest when `player` moves, the lowest when its opponent does.
pub open spec fn search_value(state: GameState, player: Player, depth: nat) -> int
    decreases depth, state.legal_moves(state.turn).len() + 1,
{
    let moves = state.legal_moves(state.turn);
    if depth == 0 || moves.len() == 0 {
        disc_margin(state, player)
    } else {
        extreme_value(state, player, depth, moves.len() as int)
    }
}

/// The best value, for the side to move, over the first `k` legal moves of
/// `state`: the maximum of their values when `player` is to move, the minimum
/// otherwise. Each move is valued by `search_value` one level deeper.
pub open spec fn extreme_value(state: GameState, player: Player, depth: nat, k: int) -> int
    decreases depth, k,
{
    let moves = state.legal_moves(state.turn);
    if depth == 0 || k <= 0 || k > moves.len() {
        disc_margin(state, player)
    } else {
        let m = moves[k - 1];
        let value = search_value(state.play(m.0, m.1).0, player, (depth - 1) as nat);
        if k == 1 {
            value
        } else {
            let earlier = extreme_value(state, player, depth, k - 1);
            if state.turn == player {
                if value > earlier {
                    value
                } else {
                    earlier
                }
            } else {
                if value < earlier {
                    value
                } else {
                    earlier
                }
            }
        }
    }
}

/// The value for `player` of playing `q` in `state` when looking `depth`
/// moves ahead, the move itself being the first of them.
pub open spec fn move_value(state: GameState, player: Player, q: (int, int), depth: nat) -> int {
    let after = (GameState { cells: state.cells, turn: player }).play(q.0, q.1).0;
    search_value(after, player, if depth == 0 {
        0
    } else {
        (depth - 1) as nat
    })
}

/// The value of each square as a move for `player`.
pub open spec fn move_values(state: GameState, player: Player, depth: nat) -> spec_fn((int, int)) -> int {
    |q: (int, int)| move_value(state, player, q, depth)
}

fn disc_margin_of(game: &Game, player: Player) -> (margin: isize)
    ensures
        margin == disc_margin(game@, player),
{
    proof {
        game@.lemma_counts_partition();
    }
    let counts = game.disc_counts();
    match player {
        Player::Black => counts.black as isize - counts.white as isize,
        Player::White => counts.white as isize - counts.black as isize,
    }
}

/// Computes `search_value(game@, player, depth)`.
fn search(game: &Game, player: Player, depth: usize) -> (value: isize)
    ensures
        value == search_value(game@, player, depth as nat),
    decreases depth,
{
    let moves = game.valid_positions(game.turn());
    if depth == 0 || moves.len() == 0 {
        return disc_margin_of(game, player);
    }
    let ghost legal = game@.legal_moves(game@.turn);
    let mut best: isize = 0;
    let mut i: usize = 0;
    while i < moves.len()
        invariant
            i <= moves@.len(),
            depth > 0,
            squares_of(moves@) == legal,
            legal == game@.legal_moves(game@.turn),
            i > 0 ==> best == extreme_value(game@, player, depth as nat, i as int),
        decreases moves.len() - i,
    {
        let position = moves[i];
        proof {
            assert(squares_of(moves@)[i as int] == position@);
            assert(legal.contains(position@));
            game@.lemma_legal_moves_contains(game@.turn, position@);
        }
        let child = game.after_move(position);
        let value = search(&child, player, depth - 1);
        if i == 0 {
            best = value;
        } else if game.turn() == player {
            if value > best {
                best = value;
            }
        } else {
            if value < best {
                best = value;
            }
        }
        i += 1;
    }
    best
}

/// Chooses moves by minimax search over a fixed number of moves, valuing the
/// positions reached by the difference in discs.
pub struct MinimaxStrategy {
    depth: usize,
}

impl MinimaxStrategy {
    /// How many moves ahead the strategy looks, its own move included.
    pub closed spec fn search_depth(&self) -> nat {
        self.depth as nat
    }

    pub fn new(depth: usize) -> (strategy: MinimaxStrategy)
        ensures
            strategy.search_depth() == depth,
    {
        MinimaxStrategy { depth }
    }

    pub fn depth(&self) -> (depth: usize)
        ensures
            depth == self.search_depth(),
    {
        self.depth
    }

    /// The value of `position` as a move for `player`; `None` when it is not
    /// a legal move for `player`.
    pub fn score_move_for(&self, game: &Game, player: Player, position: Position) -> (score: Option<
        isize,
    >)
        ensures
            score is Some <==> game@.is_legal(player, position@.0, position@.1),
            score matches Some(value) ==> value == move_value(
                game@,
                player,
                position@,
                self.search_depth(),
            ),
    {
        if !game.is_valid_position(player, position) {
            return None;
        }
        let mover = game.with_turn(player);
        proof {
            game@.lemma_same_cells(mover@, player);
        }
        let after = mover.after_move(position);
        let remaining = if self.depth == 0 {
            0
        } else {
            self.depth - 1
        };
        Some(search(&after, player, remaining))
    }
}

impl Strategy for MinimaxStrategy {
    /// The legal move of highest value; among equals, the last in reading
    /// order. `None` when `player` has no legal move.
    fn choose_move(&self, game: &Game, player: Player) -> (choice: Option<Position>)
        ensures
            is_top_choice(
                game@.legal_moves(player),
                move_values(game@, player, self.search_depth()),
                square_of(choice),
            ),
            choice is None <==> !game@.has_legal_move(player),
            choice matches Some(p) ==> {
                &&& game@.is_legal(player, p@.0, p@.1)
                &&& forall|r: int, c: int|
                    #[trigger] game@.is_legal(player, r, c) ==> move_value(
                        game@,
                        player,
                        (r, c),
                        self.search_depth(),
                    ) <= move_value(game@, player, p@, self.search_depth())
            },
    {
        let positions = game.valid_positions(player);
        let ghost moves = game@.legal_moves(player);
        let ghost values = move_values(game@, player, self.search_depth());
        let mut best: Option<Position> = None;
        let mut best_score: isize = 0;
        let ghost mut best_index: int = 0;
        let mut i: usize = 0;
        while i < positions.len()
            invariant
                i <= positions@.len(),
                squares_of(positions@) == moves,
                moves == game@.legal_moves(player),
                values == move_values(game@, player, self.search_depth()),
                i == 0 <==> best is None,
                best matches Some(b) ==> {
                    &&& 0 <= best_index < i
                    &&& b@ == moves[best_index]
                    &&& best_score == values(b@)
                    &&& forall|j: int| 0 <= j < i ==> values(#[trigger] moves[j]) <= best_score
                    &&& forall|j: int|
                        best_index < j < i ==> values(#[trigger] moves[j]) < best_score
                },
            decreases positions.len() - i,
        {
            let position = positions[i];
            proof {
                assert(squares_of(positions@)[i as int] == position@);
                assert(moves.contains(position@));
                game@.lemma_legal_moves_contains(player, position@);
            }
            let score = match self.score_move_for(game, player, position) {
                Some(score) => score,
                None => 0,
            };
            if best.is_none() || score >= best_score {
                best = Some(position);
                best_score = score;
                proof {
                    best_index = i as int;
                }
            }
            i += 1;
        }
        proof {
            crate::laws::law_minimax_choice_is_best(
                game@,
                player,
                self.search_depth(),
                square_of(best),
            );
        }
        best
    }
}

} // verus!
