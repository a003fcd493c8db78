//! Properties of the rules that span several operations.
use vstd::prelude::*;

use crate::player::{Cell, DiscCounts, MoveResult, Player};
use crate::position::SIZE;
use crate::rules::{
    board_order, direction, in_bounds, is_step, is_top_choice, lemma_directions_distinct,
    steps_left, walk, GameState,
};
use crate::search::{extreme_value, move_value, move_values, search_value};

verus! {

/// Each player's opponent is the other player, and the opponent's opponent
/// is the player again.
pub proof fn law_opponent_involution(player: Player)
    ensures
        player.opponent() != player,
        player.opponent().opponent() == player,
{
}

/// A legal move adds exactly one disc to the board: the mover gains the placed
/// disc and every captured disc, the opponent loses every captured disc, and
/// one empty square is filled.
pub proof fn law_move_changes_counts(state: GameState, r: int, c: int)
    requires
        state.well_formed(),
        state.is_legal(state.turn, r, c),
    ensures
        ({
            let mover = state.turn;
            let flipped = state.flips(mover, r, c).len();
            let after = state.play(r, c).0;
            &&& after.count(Cell::Disc(mover)) == state.count(Cell::Disc(mover)) + flipped + 1
            &&& after.count(Cell::Disc(mover.opponent())) == state.count(
                Cell::Disc(mover.opponent()),
            ) - flipped
            &&& after.count(Cell::Empty) == state.count(Cell::Empty) - 1
        }),
{
    let mover = state.turn;
    let opp = mover.opponent();
    let flips = state.flips(mover, r, c);
    let after = state.play(r, c).0;
    let captured = flips.to_set();
    state.lemma_flips(mover, r, c);
    flips.unique_seq_to_set();
    vstd::seq_lib::seq_to_set_is_finite(flips);
    state.lemma_squares_before_all(Cell::Disc(mover));
    state.lemma_squares_before_all(Cell::Disc(opp));
    state.lemma_squares_before_all(Cell::Empty);
    after.lemma_squares_before_all(Cell::Disc(mover));
    after.lemma_squares_before_all(Cell::Disc(opp));
    after.lemma_squares_before_all(Cell::Empty);

    assert forall|q: (int, int)| in_bounds(q.0, q.1) implies #[trigger] after.cell(q.0, q.1) == if q
        == (r, c) || captured.contains(q) {
        Cell::Disc(mover)
    } else {
        state.cell(q.0, q.1)
    } by {}

    let mine = state.squares_with(Cell::Disc(mover));
    let theirs = state.squares_with(Cell::Disc(opp));
    let empty = state.squares_with(Cell::Empty);
    let placed = set![(r, c)];

    // The mover's squares grow by the captured squares and the placed one.
    assert(after.squares_with(Cell::Disc(mover)) =~= mine + captured + placed);
    assert(mine.disjoint(captured));
    vstd::set_lib::lemma_set_disjoint_lens(mine, captured);
    assert((mine + captured).disjoint(placed));
    vstd::set_lib::lemma_set_disjoint_lens(mine + captured, placed);

    // The opponent's squares shrink by the captured squares.
    assert(after.squares_with(Cell::Disc(opp)) =~= theirs.difference(captured));
    assert(theirs =~= theirs.difference(captured) + captured);
    vstd::set_lib::lemma_set_disjoint_lens(theirs.difference(captured), captured);

    // One empty square is filled.
    assert(after.squares_with(Cell::Empty) =~= empty.remove((r, c)));
}

/// A move is accepted exactly when it is legal, and after an accepted move
/// either the game is over or the player whose turn it now is has a legal
/// move: the opponent when it can move, else the same player again.
pub proof fn law_turn_after_move(state: GameState, r: int, c: int)
    requires
        state.well_formed(),
        state.is_legal(state.turn, r, c),
    ensures
        ({
            let (after, result) = state.play(r, c);
            &&& (result == MoveResult::GameOver) <==> after.is_game_over()
            &&& result != MoveResult::GameOver ==> after.has_legal_move(after.turn)
            &&& result == MoveResult::Played ==> after.turn == state.turn.opponent()
            &&& result == MoveResult::OpponentPassed ==> {
                &&& after.turn == state.turn
                &&& !after.has_legal_move(state.turn.opponent())
            }
            &&& result == MoveResult::GameOver ==> after.turn == state.turn
        }),
{
    let board = GameState { cells: state.placed(state.turn, r, c), turn: state.turn };
    let after = state.play(r, c).0;
    board.lemma_same_cells(after, Player::Black);
    board.lemma_same_cells(after, Player::White);
    match state.turn {
        Player::Black => {},
        Player::White => {},
    }
}

/// Once the game is over, no move is legal for either player.
pub proof fn law_no_move_after_game_over(state: GameState, player: Player, r: int, c: int)
    requires
        state.is_game_over(),
    ensures
        !state.is_legal(player, r, c),
{
    match player {
        Player::Black => {},
        Player::White => {},
    }
}

/// At most one answer is the move of highest score, so any two ways of
/// picking it agree; in particular the greedy strategy and `best_move_for`
/// pick the same move.
pub proof fn law_top_choice_unique(
    moves: Seq<(int, int)>,
    score: spec_fn((int, int)) -> int,
    a: Option<(int, int)>,
    b: Option<(int, int)>,
)
    requires
        is_top_choice(moves, score, a),
        is_top_choice(moves, score, b),
    ensures
        a == b,
{
    if let (Some(x), Some(y)) = (a, b) {
        let i = choose|i: int|
            0 <= i < moves.len() && moves[i] == x && (forall|j: int|
                0 <= j < moves.len() ==> score(#[trigger] moves[j]) <= score(x)) && (forall|j: int|
                i < j < moves.len() ==> score(#[trigger] moves[j]) < score(x));
        let k = choose|k: int|
            0 <= k < moves.len() && moves[k] == y && (forall|j: int|
                0 <= j < moves.len() ==> score(#[trigger] moves[j]) <= score(y)) && (forall|j: int|
                k < j < moves.len() ==> score(#[trigger] moves[j]) < score(y));
        assert(score(moves[k]) <= score(x));
        assert(score(moves[i]) <= score(y));
    }
}

/// In the starting position Black can move (on row 2, column 3, among
/// others), so the game is not over.
pub proof fn law_start_can_move()
    ensures
        GameState::start().is_legal(Player::Black, 2, 3),
        GameState::start().has_legal_move(Player::Black),
        !GameState::start().is_game_over(),
{
    let s = GameState::start();
    let down = s.line_flips(Player::Black, 2, 3, 1, 0);
    assert(s.opponent_run(Player::Black, 4, 3, 1, 0) =~= Seq::<(int, int)>::empty());
    assert(s.opponent_run(Player::Black, 3, 3, 1, 0) =~= seq![(3int, 3int)]);
    assert(s.run_closed(Player::Black, 4, 3, 1, 0));
    assert(s.run_closed(Player::Black, 3, 3, 1, 0));
    assert(down.len() == 1);
    assert(s.flips_through(Player::Black, 2, 3, 7).len() >= down.len());
    assert(s.flips_through(Player::Black, 2, 3, 8).len() >= s.flips_through(
        Player::Black,
        2,
        3,
        7,
    ).len());
    assert(s.is_legal(Player::Black, 2, 3));
}

/// The game reached from the start by trying `moves` in order, each by the
/// player whose turn it is; a move that is not legal is refused and leaves
/// the game as it was.
pub open spec fn replay(moves: Seq<(int, int)>) -> GameState
    decreases moves.len(),
{
    if moves.len() == 0 {
        GameState::start()
    } else {
        let before = replay(moves.drop_last());
        let m = moves.last();
        if before.is_legal(before.turn, m.0, m.1) {
            before.play(m.0, m.1).0
        } else {
            before
        }
    }
}

/// In every game reached from the start, the player to move has a legal move
/// unless the game is over.
pub proof fn law_player_to_move_can_move(moves: Seq<(int, int)>)
    ensures
        replay(moves).well_formed(),
        replay(moves).is_game_over() || replay(moves).has_legal_move(replay(moves).turn),
    decreases moves.len(),
{
    if moves.len() == 0 {
        law_start_can_move();
    } else {
        law_player_to_move_can_move(moves.drop_last());
        let before = replay(moves.drop_last());
        let m = moves.last();
        if before.is_legal(before.turn, m.0, m.1) {
            law_turn_after_move(before, m.0, m.1);
        }
    }
}

/// The winner of a tally is the player with strictly more discs, and a tie
/// has no winner.
pub proof fn law_winner_has_more_discs(counts: DiscCounts)
    ensures
        counts.black > counts.white ==> counts.spec_winner() == Some(Player::Black),
        counts.white > counts.black ==> counts.spec_winner() == Some(Player::White),
        counts.black == counts.white ==> counts.spec_winner() == None::<Player>,
{
}

/// The leader of a game is the player with strictly more discs on the board,
/// and nobody leads when both have as many.
pub proof fn law_leader_has_more_discs(state: GameState)
    ensures
        state.count(Cell::Disc(Player::Black)) > state.count(Cell::Disc(Player::White))
            ==> state.leader() == Some(Player::Black),
        state.count(Cell::Disc(Player::White)) > state.count(Cell::Disc(Player::Black))
            ==> state.leader() == Some(Player::White),
        state.count(Cell::Disc(Player::Black)) == state.count(Cell::Disc(Player::White))
            ==> state.leader() == None::<Player>,
{
}

/// The greedy choice is a legal move that captures at least as many discs as
/// any legal move, and strictly more than every legal move after it in
/// reading order; there is no choice only when there is no legal move.
pub proof fn law_best_move_captures_most(state: GameState, player: Player, choice: Option<(int, int)>)
    requires
        state.is_best_choice(player, choice),
    ensures
        choice is None <==> !state.has_legal_move(player),
        choice matches Some(q) ==> {
            &&& state.is_legal(player, q.0, q.1)
            &&& forall|r: int, c: int|
                #[trigger] state.is_legal(player, r, c) ==> state.flips(player, r, c).len()
                    <= state.flips(player, q.0, q.1).len()
            &&& forall|r: int, c: int|
                #[trigger] state.is_legal(player, r, c) && r * SIZE + c > q.0 * SIZE + q.1
                    ==> state.flips(player, r, c).len() < state.flips(player, q.0, q.1).len()
        },
{
    lemma_top_choice_is_greatest(state, player, state.flip_counts(player), choice);
    if let Some(q) = choice {
        assert forall|r: int, c: int| #[trigger] state.is_legal(player, r, c) implies state.flips(
            player,
            r,
            c,
        ).len() <= state.flips(player, q.0, q.1).len() by {
            assert(state.flip_counts(player)((r, c)) <= state.flip_counts(player)(q));
        }
        assert forall|r: int, c: int| #[trigger]
            state.is_legal(player, r, c) && r * SIZE + c > q.0 * SIZE + q.1 implies state.flips(
            player,
            r,
            c,
        ).len() < state.flips(player, q.0, q.1).len() by {
            assert(state.flip_counts(player)((r, c)) < state.flip_counts(player)(q));
        }
    }
}

/// The minimax choice is a legal move whose value is at least that of any
/// legal move, and strictly more than that of every legal move after it in
/// reading order; there is no choice only when there is no legal move.
pub proof fn law_minimax_choice_is_best(
    state: GameState,
    player: Player,
    depth: nat,
    choice: Option<(int, int)>,
)
    requires
        is_top_choice(state.legal_moves(player), move_values(state, player, depth), choice),
    ensures
        choice is None <==> !state.has_legal_move(player),
        choice matches Some(q) ==> {
            &&& state.is_legal(player, q.0, q.1)
            &&& forall|r: int, c: int|
                #[trigger] state.is_legal(player, r, c) ==> move_value(state, player, (r, c), depth)
                    <= move_value(state, player, q, depth)
            &&& forall|r: int, c: int|
                #[trigger] state.is_legal(player, r, c) && r * SIZE + c > q.0 * SIZE + q.1
                    ==> move_value(state, player, (r, c), depth) < move_value(state, player, q, depth)
        },
{
    lemma_top_choice_is_greatest(state, player, move_values(state, player, depth), choice);
}

/// What picking the top-scoring legal move means for any legal square.
proof fn lemma_top_choice_is_greatest(
    state: GameState,
    player: Player,
    score: spec_fn((int, int)) -> int,
    choice: Option<(int, int)>,
)
    requires
        is_top_choice(state.legal_moves(player), score, choice),
    ensures
        choice is None <==> !state.has_legal_move(player),
        choice matches Some(q) ==> {
            &&& state.is_legal(player, q.0, q.1)
            &&& forall|r: int, c: int|
                #[trigger] state.is_legal(player, r, c) ==> score((r, c)) <= score(q)
            &&& forall|r: int, c: int|
                #[trigger] state.is_legal(player, r, c) && r * SIZE + c > q.0 * SIZE + q.1
                    ==> score((r, c)) < score(q)
        },
{
    let moves = state.legal_moves(player);
    state.lemma_has_legal_move(player);
    law_legal_moves_in_order(state, player);
    if let Some(q) = choice {
        let i = choose|i: int|
            0 <= i < moves.len() && moves[i] == q && (forall|j: int|
                0 <= j < moves.len() ==> score(#[trigger] moves[j]) <= score(q)) && (forall|j: int|
                i < j < moves.len() ==> score(#[trigger] moves[j]) < score(q));
        assert(moves.contains(q));
        assert forall|r: int, c: int| #[trigger] state.is_legal(player, r, c) implies score((r, c))
            <= score(q) && (r * SIZE + c > q.0 * SIZE + q.1 ==> score((r, c)) < score(q)) by {
            assert(moves.contains((r, c)));
            let j = choose|j: int| 0 <= j < moves.len() && moves[j] == (r, c);
            if r * SIZE + c > q.0 * SIZE + q.1 {
                if j < i {
                    let a = moves[j];
                    let b = moves[i];
                    assert(a.0 * SIZE + a.1 < b.0 * SIZE + b.1);
                }
                assert(j != i);
                assert(j > i);
            }
        }
    }
}

/// The value of a position for `player` when searching no further, or when
/// the side to move cannot move: how many discs `player` has more than its
/// opponent.
pub proof fn law_search_leaf(state: GameState, player: Player, depth: nat)
    requires
        depth == 0 || !state.has_legal_move(state.turn),
    ensures
        search_value(state, player, depth) == state.count(Cell::Disc(player)) - state.count(
            Cell::Disc(player.opponent()),
        ),
{
    state.lemma_has_legal_move(state.turn);
}

/// Minimax: when the side to move can move, the value of a position for
/// `player` is the value, one move less deep, of one of the positions its
/// legal moves lead to; it is the greatest such value when `player` is to
/// move, and the least when its opponent is.
pub proof fn law_search_step(state: GameState, player: Player, depth: nat)
    requires
        depth > 0,
        state.has_legal_move(state.turn),
    ensures
        forall|r: int, c: int|
            #[trigger] state.is_legal(state.turn, r, c) ==> {
                let here = search_value(state, player, depth);
                let there = search_value(state.play(r, c).0, player, (depth - 1) as nat);
                &&& state.turn == player ==> here >= there
                &&& state.turn != player ==> here <= there
            },
        exists|r: int, c: int|
            #[trigger] state.is_legal(state.turn, r, c) && search_value(state, player, depth)
                == search_value(state.play(r, c).0, player, (depth - 1) as nat),
{
    let moves = state.legal_moves(state.turn);
    state.lemma_has_legal_move(state.turn);
    lemma_extreme_value(state, player, depth, moves.len() as int);
    assert forall|r: int, c: int| #[trigger] state.is_legal(state.turn, r, c) implies {
        let here = search_value(state, player, depth);
        let there = search_value(state.play(r, c).0, player, (depth - 1) as nat);
        &&& state.turn == player ==> here >= there
        &&& state.turn != player ==> here <= there
    } by {
        state.lemma_legal_moves_contains(state.turn, (r, c));
        let j = choose|j: int| 0 <= j < moves.len() && moves[j] == (r, c);
        assert(child_value(state, player, depth, j) == search_value(
            state.play(r, c).0,
            player,
            (depth - 1) as nat,
        ));
    }
    let j = choose|j: int|
        0 <= j < moves.len() && extreme_value(state, player, depth, moves.len() as int)
            == child_value(state, player, depth, j);
    let m = moves[j];
    state.lemma_legal_moves_contains(state.turn, m);
    assert(state.is_legal(state.turn, m.0, m.1));
}

/// The value of a move looks one move less far than the search it starts:
/// when `player` is to move, the value of the position `depth` moves deep is
/// the greatest value of its legal moves at the same depth.
pub proof fn law_move_values_agree_with_search(state: GameState, player: Player, depth: nat)
    requires
        depth > 0,
        state.turn == player,
        state.has_legal_move(player),
    ensures
        forall|r: int, c: int|
            #[trigger] state.is_legal(player, r, c) ==> move_value(state, player, (r, c), depth)
                <= search_value(state, player, depth),
        exists|r: int, c: int|
            #[trigger] state.is_legal(player, r, c) && move_value(state, player, (r, c), depth)
                == search_value(state, player, depth),
{
    assert(GameState { cells: state.cells, turn: player } == state);
    law_search_step(state, player, depth);
}

/// The value, one move less deep, of the position the `j`-th legal move leads to.
spec fn child_value(state: GameState, player: Player, depth: nat, j: int) -> int {
    let m = state.legal_moves(state.turn)[j];
    search_value(state.play(m.0, m.1).0, player, (depth - 1) as nat)
}

proof fn lemma_extreme_value(state: GameState, player: Player, depth: nat, k: int)
    requires
        depth > 0,
        1 <= k <= state.legal_moves(state.turn).len(),
    ensures
        forall|j: int|
            0 <= j < k ==> {
                let best = extreme_value(state, player, depth, k);
                &&& state.turn == player ==> best >= #[trigger] child_value(
                    state,
                    player,
                    depth,
                    j,
                )
                &&& state.turn != player ==> best <= child_value(state, player, depth, j)
            },
        exists|j: int|
            0 <= j < k && extreme_value(state, player, depth, k) == #[trigger] child_value(
                state,
                player,
                depth,
                j,
            ),
    decreases k,
{
    if k > 1 {
        lemma_extreme_value(state, player, depth, k - 1);
        let j = choose|j: int|
            0 <= j < k - 1 && extreme_value(state, player, depth, k - 1) == #[trigger] child_value(
                state,
                player,
                depth,
                j,
            );
        if extreme_value(state, player, depth, k) == child_value(state, player, depth, k - 1) {
        } else {
            assert(extreme_value(state, player, depth, k) == child_value(state, player, depth, j));
        }
    } else {
        assert(extreme_value(state, player, depth, k) == child_value(state, player, depth, 0));
    }
}

/// The coordinate `k` steps of `d` away from `x`.
pub open spec fn along(x: int, d: int, k: int) -> int {
    x + d * k
}

/// `player` brackets a line from `(r, c)` in direction `(dr, dc)`: the `n`
/// squares after `(r, c)` hold opponent discs and the next one holds a disc
/// of `player`, all on the board.
pub open spec fn brackets(
    state: GameState,
    player: Player,
    r: int,
    c: int,
    dr: int,
    dc: int,
    n: int,
) -> bool {
    &&& -1 <= dr <= 1
    &&& -1 <= dc <= 1
    &&& !(dr == 0 && dc == 0)
    &&& n >= 1
    &&& forall|k: int|
        1 <= k <= n ==> in_bounds(along(r, dr, k), along(c, dc, k)) && #[trigger] state.cell(
            along(r, dr, k),
            along(c, dc, k),
        ) == Cell::Disc(player.opponent())
    &&& in_bounds(along(r, dr, n + 1), along(c, dc, n + 1))
    &&& state.cell(along(r, dr, n + 1), along(c, dc, n + 1)) == Cell::Disc(player)
}

/// A disc placed on an empty square captures every line it brackets, in any
/// of the eight directions and whole: the move is legal, every square of the
/// line is among the captures, and after the move (by `player`) the placed
/// square and every square of the line hold `player`'s discs.
pub proof fn law_bracketed_line_is_captured(
    state: GameState,
    player: Player,
    r: int,
    c: int,
    dr: int,
    dc: int,
    n: int,
)
    requires
        state.well_formed(),
        in_bounds(r, c),
        state.cell(r, c) == Cell::Empty,
        brackets(state, player, r, c, dr, dc, n),
    ensures
        state.is_legal(player, r, c),
        forall|k: int|
            1 <= k <= n ==> #[trigger] state.flips(player, r, c).contains(
                (along(r, dr, k), along(c, dc, k)),
            ),
        state.turn == player ==> state.play(r, c).0.cell(r, c) == Cell::Disc(player),
        state.turn == player ==> forall|k: int|
            1 <= k <= n ==> #[trigger] state.play(r, c).0.cell(along(r, dr, k), along(c, dc, k))
                == Cell::Disc(player),
{
    lemma_along_is_walk(r, dr);
    lemma_along_is_walk(c, dc);
    assert forall|k: int| 0 <= k < n implies in_bounds(walk(r + dr, dr, k), walk(c + dc, dc, k))
        && #[trigger] state.cell(walk(r + dr, dr, k), walk(c + dc, dc, k)) == Cell::Disc(
        player.opponent(),
    ) by {
        assert(walk(r + dr, dr, k) == along(r, dr, k + 1));
        assert(walk(c + dc, dc, k) == along(c, dc, k + 1));
        assert(state.cell(along(r, dr, k + 1), along(c, dc, k + 1)) == Cell::Disc(
            player.opponent(),
        ));
    }
    assert(walk(r + dr, dr, n) == along(r, dr, n + 1));
    assert(walk(c + dc, dc, n) == along(c, dc, n + 1));
    lemma_bracketed_run(state, player, r + dr, c + dc, dr, dc, n);
    state.lemma_opponent_run(player, r + dr, c + dc, dr, dc);
    let line = state.line_flips(player, r, c, dr, dc);
    assert(line.len() == n);
    let i = lemma_direction_index(dr, dc);
    lemma_line_in_flips_through(state, player, r, c, i, 8);
    assert(line == state.line_flips(player, r, c, direction(i).0, direction(i).1));
    assert(state.flips(player, r, c) == state.flips_through(player, r, c, 8));
    assert forall|k: int| 1 <= k <= n implies #[trigger] state.flips(player, r, c).contains(
        (along(r, dr, k), along(c, dc, k)),
    ) by {
        assert(line[k - 1] == (walk(r + dr, dr, k - 1), walk(c + dc, dc, k - 1)));
        assert(line.contains(line[k - 1]));
        assert(state.flips_through(player, r, c, 8).contains(line[k - 1]));
    }
    assert(line.contains(line[0]));
    assert(state.flips(player, r, c).contains(line[0]));
    assert(state.flips(player, r, c).len() > 0);
}

/// Conversely, a disc captures only lines it brackets: every captured square
/// lies `k` steps from the placed disc in some direction, on a line of `n >= k`
/// opponent discs closed by a disc of `player`.
pub proof fn law_captures_are_bracketed(
    state: GameState,
    player: Player,
    r: int,
    c: int,
    q: (int, int),
)
    requires
        state.flips(player, r, c).contains(q),
    ensures
        exists|dr: int, dc: int, k: int, n: int|
            #![trigger brackets(state, player, r, c, dr, dc, n), along(r, dr, k), along(c, dc, k)]
            brackets(state, player, r, c, dr, dc, n) && 1 <= k <= n && q == (
                along(r, dr, k),
                along(c, dc, k),
            ),
{
    let i = lemma_flip_in_some_line(state, player, r, c, q, 8);
    let (dr, dc) = direction(i);
    lemma_directions_distinct(i, i);
    let line = state.line_flips(player, r, c, dr, dc);
    let run = state.opponent_run(player, r + dr, c + dc, dr, dc);
    state.lemma_opponent_run(player, r + dr, c + dc, dr, dc);
    lemma_run_end(state, player, r + dr, c + dc, dr, dc);
    lemma_along_is_walk(r, dr);
    lemma_along_is_walk(c, dc);
    let n = run.len() as int;
    let j = choose|j: int| 0 <= j < line.len() && line[j] == q;
    assert forall|k: int| 1 <= k <= n implies in_bounds(along(r, dr, k), along(c, dc, k))
        && #[trigger] state.cell(along(r, dr, k), along(c, dc, k)) == Cell::Disc(
        player.opponent(),
    ) by {
        assert(run[k - 1] == (walk(r + dr, dr, k - 1), walk(c + dc, dc, k - 1)));
    }
    assert(brackets(state, player, r, c, dr, dc, n));
    assert(q == (along(r, dr, j + 1), along(c, dc, j + 1)));
}

proof fn lemma_along_is_walk(x: int, d: int)
    requires
        -1 <= d <= 1,
    ensures
        forall|k: int| #[trigger] along(x, d, k) == walk(x, d, k),
        forall|k: int| walk(x + d, d, k) == #[trigger] along(x, d, k + 1),
{
    assert forall|k: int| #[trigger] along(x, d, k) == walk(x, d, k) by {
        if d == 1 {
            assert(d * k == k) by (nonlinear_arith)
                requires
                    d == 1,
            ;
        } else if d == -1 {
            assert(d * k == -k) by (nonlinear_arith)
                requires
                    d == -1,
            ;
        } else {
            assert(d * k == 0) by (nonlinear_arith)
                requires
                    d == 0,
            ;
        }
    }
    assert forall|k: int| walk(x + d, d, k) == #[trigger] along(x, d, k + 1) by {
        assert(along(x, d, k + 1) == walk(x, d, k + 1));
    }
}

/// Each unit step is one of the eight directions.
proof fn lemma_direction_index(dr: int, dc: int) -> (i: int)
    requires
        is_step(dr, dc),
    ensures
        0 <= i < 8,
        direction(i) == (dr, dc),
{
    if dr == -1 && dc == -1 {
        0
    } else if dr == -1 && dc == 0 {
        1
    } else if dr == -1 && dc == 1 {
        2
    } else if dr == 0 && dc == -1 {
        3
    } else if dr == 0 && dc == 1 {
        4
    } else if dr == 1 && dc == -1 {
        5
    } else if dr == 1 && dc == 0 {
        6
    } else {
        7
    }
}

/// The run from `(sr, sc)` when `m` opponent discs lie ahead, followed by a
/// disc of `player`: exactly those `m` squares, and closed.
proof fn lemma_bracketed_run(
    state: GameState,
    player: Player,
    sr: int,
    sc: int,
    dr: int,
    dc: int,
    m: int,
)
    requires
        is_step(dr, dc),
        m >= 0,
        forall|k: int|
            0 <= k < m ==> in_bounds(walk(sr, dr, k), walk(sc, dc, k)) && #[trigger] state.cell(
                walk(sr, dr, k),
                walk(sc, dc, k),
            ) == Cell::Disc(player.opponent()),
        in_bounds(walk(sr, dr, m), walk(sc, dc, m)),
        state.cell(walk(sr, dr, m), walk(sc, dc, m)) == Cell::Disc(player),
    ensures
        state.opponent_run(player, sr, sc, dr, dc).len() == m,
        state.run_closed(player, sr, sc, dr, dc),
    decreases m,
{
    if m == 0 {
        assert(walk(sr, dr, 0) == sr && walk(sc, dc, 0) == sc);
    } else {
        assert(walk(sr, dr, 0) == sr && walk(sc, dc, 0) == sc);
        assert(state.cell(walk(sr, dr, 0), walk(sc, dc, 0)) == Cell::Disc(player.opponent()));
        assert forall|k: int| 0 <= k < m - 1 implies in_bounds(
            walk(sr + dr, dr, k),
            walk(sc + dc, dc, k),
        ) && #[trigger] state.cell(walk(sr + dr, dr, k), walk(sc + dc, dc, k)) == Cell::Disc(
            player.opponent(),
        ) by {
            assert(walk(sr + dr, dr, k) == walk(sr, dr, k + 1));
            assert(walk(sc + dc, dc, k) == walk(sc, dc, k + 1));
            assert(state.cell(walk(sr, dr, k + 1), walk(sc, dc, k + 1)) == Cell::Disc(
                player.opponent(),
            ));
        }
        assert(walk(sr + dr, dr, m - 1) == walk(sr, dr, m));
        assert(walk(sc + dc, dc, m - 1) == walk(sc, dc, m));
        lemma_bracketed_run(state, player, sr + dr, sc + dc, dr, dc, m - 1);
    }
}

/// A closed run ends, right after its last disc, on a disc of `player`.
proof fn lemma_run_end(state: GameState, player: Player, sr: int, sc: int, dr: int, dc: int)
    requires
        is_step(dr, dc),
        state.run_closed(player, sr, sc, dr, dc),
    ensures
        ({
            let m = state.opponent_run(player, sr, sc, dr, dc).len() as int;
            &&& in_bounds(walk(sr, dr, m), walk(sc, dc, m))
            &&& state.cell(walk(sr, dr, m), walk(sc, dc, m)) == Cell::Disc(player)
        }),
    decreases steps_left(sr, dr) + steps_left(sc, dc),
{
    if in_bounds(sr, sc) && state.cell(sr, sc) == Cell::Disc(player.opponent()) {
        lemma_run_end(state, player, sr + dr, sc + dc, dr, dc);
        let m = state.opponent_run(player, sr + dr, sc + dc, dr, dc).len() as int;
        assert(walk(sr + dr, dr, m) == walk(sr, dr, m + 1));
        assert(walk(sc + dc, dc, m) == walk(sc, dc, m + 1));
    }
}

/// Whatever direction `i < k` captures is among the captures of the first `k` directions.
proof fn lemma_line_in_flips_through(
    state: GameState,
    player: Player,
    r: int,
    c: int,
    i: int,
    k: int,
)
    requires
        0 <= i < k <= 8,
    ensures
        forall|q: (int, int)| #[trigger]
            state.line_flips(player, r, c, direction(i).0, direction(i).1).contains(q)
                ==> state.flips_through(player, r, c, k).contains(q),
    decreases k,
{
    let line = state.line_flips(player, r, c, direction(i).0, direction(i).1);
    let head = state.flips_through(player, r, c, k - 1);
    let last = state.line_flips(player, r, c, direction(k - 1).0, direction(k - 1).1);
    if i < k - 1 {
        lemma_line_in_flips_through(state, player, r, c, i, k - 1);
    }
    assert forall|q: (int, int)| #[trigger] line.contains(q) implies state.flips_through(
        player,
        r,
        c,
        k,
    ).contains(q) by {
        if i < k - 1 {
            let a = choose|a: int| 0 <= a < head.len() && head[a] == q;
            assert((head + last)[a] == q);
        } else {
            let a = choose|a: int| 0 <= a < last.len() && last[a] == q;
            assert((head + last)[head.len() + a] == q);
        }
    }
}

/// A captured square comes from the line of one of the eight directions.
proof fn lemma_flip_in_some_line(
    state: GameState,
    player: Player,
    r: int,
    c: int,
    q: (int, int),
    k: int,
) -> (i: int)
    requires
        0 <= k <= 8,
        state.flips(player, r, c).contains(q) && k == 8 || state.flips_through(
            player,
            r,
            c,
            k,
        ).contains(q),
    ensures
        0 <= i < k,
        state.line_flips(player, r, c, direction(i).0, direction(i).1).contains(q),
    decreases k,
{
    let all = state.flips_through(player, r, c, k);
    assert(all.contains(q));
    if k == 0 {
        assert(all.len() == 0);
        0
    } else {
        let head = state.flips_through(player, r, c, k - 1);
        let last = state.line_flips(player, r, c, direction(k - 1).0, direction(k - 1).1);
        let a = choose|a: int| 0 <= a < all.len() && all[a] == q;
        if a < head.len() {
            assert(head[a] == q);
            lemma_flip_in_some_line(state, player, r, c, q, k - 1)
        } else {
            assert(last[a - head.len()] == q);
            k - 1
        }
    }
}

/// The legal moves are listed in reading order, each once, and they are
/// exactly the legal moves.
pub proof fn law_legal_moves_in_order(state: GameState, player: Player)
    ensures
        forall|i: int, j: int|
            0 <= i < j < state.legal_moves(player).len() ==> {
                let a = #[trigger] state.legal_moves(player)[i];
                let b = #[trigger] state.legal_moves(player)[j];
                a.0 * SIZE + a.1 < b.0 * SIZE + b.1
            },
        forall|q: (int, int)|
            #[trigger] state.legal_moves(player).contains(q) <==> state.is_legal(player, q.0, q.1),
{
    lemma_filter_keeps_order(board_order(), state.legal_at(player));
    assert forall|q: (int, int)| #[trigger]
        state.legal_moves(player).contains(q) <==> state.is_legal(player, q.0, q.1) by {
        state.lemma_legal_moves_contains(player, q);
    }
}

spec fn reading_index(q: (int, int)) -> int {
    q.0 * SIZE + q.1
}

proof fn lemma_filter_keeps_order(s: Seq<(int, int)>, keep: spec_fn((int, int)) -> bool)
    requires
        s.len() <= board_order().len(),
        forall|k: int| 0 <= k < s.len() ==> s[k] == #[trigger] board_order()[k],
    ensures
        forall|i: int, j: int|
            0 <= i < j < s.filter(keep).len() ==> reading_index(#[trigger] s.filter(keep)[i])
                < reading_index(#[trigger] s.filter(keep)[j]),
        forall|i: int|
            0 <= i < s.filter(keep).len() ==> reading_index(#[trigger] s.filter(keep)[i]) < s.len(),
    decreases s.len(),
{
    reveal(Seq::filter);
    if s.len() > 0 {
        let rest = s.drop_last();
        lemma_filter_keeps_order(rest, keep);
        let k = s.len() - 1;
        let last = s[k];
        assert(board_order()[k] == last);
        assert(reading_index(last) == k) by (nonlinear_arith)
            requires
                last == (k / 8, k % 8),
                0 <= k,
        ;
        let kept = rest.filter(keep);
        if keep(last) {
            assert(s.filter(keep) == kept.push(last));
            assert forall|i: int| 0 <= i < kept.len() implies reading_index(#[trigger] kept.push(
                last,
            )[i]) < k by {
                assert(kept.push(last)[i] == kept[i]);
            }
        } else {
            assert(s.filter(keep) == kept);
        }
    }
}

} // verus!
