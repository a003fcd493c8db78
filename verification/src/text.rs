//! How players, positions and refused moves are written out for people.
use vstd::prelude::*;

use crate::error::MoveError;
use crate::game::Game;
use crate::player::{Cell, MoveResult, Player};
use crate::position::{square_of, Position, SIZE};
use crate::rules::GameState;

verus! {

/// The character of a decimal digit.
pub open spec fn digit_char(d: int) -> char {
    if d == 0 {
        '0'
    } else if d == 1 {
        '1'
    } else if d == 2 {
        '2'
    } else if d == 3 {
        '3'
    } else if d == 4 {
        '4'
    } else if d == 5 {
        '5'
    } else if d == 6 {
        '6'
    } else if d == 7 {
        '7'
    } else if d == 8 {
        '8'
    } else {
        '9'
    }
}

/// `n` written in decimal, without leading zeros.
pub open spec fn decimal(n: nat) -> Seq<char>
    decreases n,
{
    if n < 10 {
        seq![digit_char(n as int)]
    } else {
        decimal(n / 10).push(digit_char((n % 10) as int))
    }
}

/// A player's name.
pub open spec fn player_text(player: Player) -> Seq<char> {
    match player {
        Player::Black => "Black"@,
        Player::White => "White"@,
    }
}

/// A square written as its 1-based row and column, separated by a space.
pub open spec fn square_text(q: (int, int)) -> Seq<char> {
    decimal((q.0 + 1) as nat) + " "@ + decimal((q.1 + 1) as nat)
}

/// `n + 1`, or `usize::MAX` when that does not fit.
pub open spec fn plus_one_saturating(n: usize) -> nat {
    if n == usize::MAX {
        usize::MAX as nat
    } else {
        (n + 1) as nat
    }
}

/// The message that explains why a move was refused.
pub open spec fn error_text(error: MoveError) -> Seq<char> {
    match error {
        MoveError::OutOfBounds { row, col } => "Rows and columns must be between 1 and "@ + decimal(
            SIZE as nat,
        ) + ". You entered row "@ + decimal(plus_one_saturating(row)) + ", column "@ + decimal(
            plus_one_saturating(col),
        ) + "."@,
        MoveError::Occupied { position } => "Position "@ + square_text(position@)
            + " is already occupied."@,
        MoveError::NoFlips { player, position } => player_text(player) + " cannot move at "@
            + square_text(position@) + " because it flips no discs."@,
    }
}

/// The winner of a game: the leader once the game is over, else nobody.
pub open spec fn winner_of(state: GameState) -> Option<Player> {
    if state.is_game_over() {
        state.leader()
    } else {
        None
    }
}

/// The summary shown when the game is over: the final score and who won.
pub open spec fn final_result_message(state: GameState) -> Seq<char> {
    "Game over. Final score: Black "@ + decimal(state.count(Cell::Disc(Player::Black)))
        + ", White "@ + decimal(state.count(Cell::Disc(Player::White))) + ". "@ + match winner_of(
        state,
    ) {
        Some(player) => player_text(player) + " wins."@,
        None => "It is a tie."@,
    }
}

/// The report of an accepted move, given the game after it.
pub open spec fn move_result_message(state: GameState, result: MoveResult) -> Seq<char> {
    match result {
        MoveResult::Played => "Move accepted. "@ + player_text(state.turn) + " is up next."@,
        MoveResult::OpponentPassed => "The opponent has no legal moves, so "@ + player_text(
            state.turn,
        ) + " gets another turn."@,
        MoveResult::GameOver => final_result_message(state),
    }
}

/// The note that `player` cannot move.
pub open spec fn no_moves_message(player: Player) -> Seq<char> {
    player_text(player) + " has no legal moves."@
}

/// The hint for the player to move: the greedy choice `choice` and how many
/// discs it turns over, or that there is no legal move.
pub open spec fn hint_message(state: GameState, choice: Option<(int, int)>) -> Seq<char> {
    match choice {
        Some(q) => "Greedy hint for "@ + player_text(state.turn) + ": "@ + square_text(q)
            + ". It flips "@ + decimal(state.flip_count(state.turn, q) as nat) + " disc(s)."@,
        None => no_moves_message(state.turn),
    }
}

/// `v` written in decimal, with a minus sign when negative.
pub open spec fn signed_decimal(v: int) -> Seq<char> {
    if v < 0 {
        "-"@ + decimal((-v) as nat)
    } else {
        decimal(v as nat)
    }
}

/// The report of a move chosen by a search `depth` moves deep: the square,
/// the player, the move's score, then the report of the move itself.
pub open spec fn ai_move_message(
    depth: nat,
    q: (int, int),
    player: Player,
    score: int,
    report: Seq<char>,
) -> Seq<char> {
    "AI searched "@ + decimal(depth) + " future move(s) and chose "@ + square_text(q) + " for "@
        + player_text(player) + " with score "@ + signed_decimal(score) + ". "@ + report
}

fn digit_str(d: usize) -> (digit: &'static str)
    requires
        d < 10,
    ensures
        digit@ == seq![digit_char(d as int)],
{
    proof {
        reveal_strlit("0");
        reveal_strlit("1");
        reveal_strlit("2");
        reveal_strlit("3");
        reveal_strlit("4");
        reveal_strlit("5");
        reveal_strlit("6");
        reveal_strlit("7");
        reveal_strlit("8");
        reveal_strlit("9");
    }
    match d {
        0 => "0",
        1 => "1",
        2 => "2",
        3 => "3",
        4 => "4",
        5 => "5",
        6 => "6",
        7 => "7",
        8 => "8",
        _ => "9",
    }
}

/// Appends `n` in decimal to `text`.
fn push_decimal(text: &mut String, n: usize)
    ensures
        final(text)@ == old(text)@ + decimal(n as nat),
    decreases n,
{
    let ghost start = text@;
    if n >= 10 {
        push_decimal(text, n / 10);
    }
    text.append(digit_str(n % 10));
    proof {
        if n >= 10 {
            assert(start + decimal((n / 10) as nat) + seq![digit_char((n % 10) as int)] =~= start
                + decimal(n as nat));
        } else {
            assert(start + seq![digit_char((n % 10) as int)] =~= start + decimal(n as nat));
        }
    }
}

/// Appends `v` in decimal to `text`, with a minus sign when negative.
fn push_signed_decimal(text: &mut String, v: isize)
    ensures
        final(text)@ == old(text)@ + signed_decimal(v as int),
{
    let ghost start = text@;
    if v < 0 {
        text.append("-");
        let magnitude: usize = (-(v + 1)) as usize + 1;
        push_decimal(text, magnitude);
        proof {
            assert(text@ =~= start + signed_decimal(v as int));
        }
    } else {
        push_decimal(text, v as usize);
    }
}

fn push_position(text: &mut String, position: Position)
    ensures
        final(text)@ == old(text)@ + square_text(position@),
{
    let ghost start = text@;
    push_decimal(text, position.human_row());
    text.append(" ");
    push_decimal(text, position.human_col());
    proof {
        assert(text@ =~= start + square_text(position@));
    }
}

impl Player {
    /// The player's name: "Black" or "White".
    pub fn to_string(&self) -> (name: String)
        ensures
            name@ == player_text(*self),
    {
        match self {
            Player::Black => String::from_str("Black"),
            Player::White => String::from_str("White"),
        }
    }
}

impl Position {
    /// The 1-based row and column separated by a space, such as "3 4".
    pub fn to_string(&self) -> (text: String)
        ensures
            text@ == square_text(self@),
    {
        let mut text = String::new();
        push_position(&mut text, *self);
        proof {
            assert(text@ =~= square_text(self@));
        }
        text
    }
}

impl MoveError {
    /// A sentence that explains to the player why the move was refused.
    pub fn to_string(&self) -> (message: String)
        ensures
            message@ == error_text(*self),
    {
        let mut text = String::new();
        match self {
            MoveError::OutOfBounds { row, col } => {
                text.append("Rows and columns must be between 1 and ");
                push_decimal(&mut text, SIZE);
                text.append(". You entered row ");
                push_decimal(&mut text, row.saturating_add(1));
                text.append(", column ");
                push_decimal(&mut text, col.saturating_add(1));
                text.append(".");
            },
            MoveError::Occupied { position } => {
                text.append("Position ");
                push_position(&mut text, *position);
                text.append(" is already occupied.");
            },
            MoveError::NoFlips { player, position } => {
                text.append(player.to_string().as_str());
                text.append(" cannot move at ");
                push_position(&mut text, *position);
                text.append(" because it flips no discs.");
            },
        }
        proof {
            assert(text@ =~= error_text(*self));
        }
        text
    }
}

/// The summary shown when the game is over: the final score and who won.
pub fn final_result_text(game: &Game) -> (text: String)
    ensures
        text@ == final_result_message(game@),
{
    let counts = game.disc_counts();
    let mut text = String::new();
    text.append("Game over. Final score: Black ");
    push_decimal(&mut text, counts.black);
    text.append(", White ");
    push_decimal(&mut text, counts.white);
    text.append(". ");
    match game.winner() {
        Some(player) => {
            text.append(player.to_string().as_str());
            text.append(" wins.");
        },
        None => {
            text.append("It is a tie.");
        },
    }
    proof {
        assert(text@ =~= final_result_message(game@));
    }
    text
}

/// The report of an accepted move, written from the game after the move.
pub fn move_result_text(game: &Game, result: MoveResult) -> (text: String)
    ensures
        text@ == move_result_message(game@, result),
{
    match result {
        MoveResult::Played => {
            let mut text = String::new();
            text.append("Move accepted. ");
            text.append(game.turn().to_string().as_str());
            text.append(" is up next.");
            proof {
                assert(text@ =~= move_result_message(game@, result));
            }
            text
        },
        MoveResult::OpponentPassed => {
            let mut text = String::new();
            text.append("The opponent has no legal moves, so ");
            text.append(game.turn().to_string().as_str());
            text.append(" gets another turn.");
            proof {
                assert(text@ =~= move_result_message(game@, result));
            }
            text
        },
        MoveResult::GameOver => final_result_text(game),
    }
}

/// The note that `player` has no legal move.
pub fn no_moves_text(player: Player) -> (text: String)
    ensures
        text@ == no_moves_message(player),
{
    let mut text = player.to_string();
    text.append(" has no legal moves.");
    text
}

/// A hint for the player to move: the move that turns over the most discs.
pub fn hint_text(game: &Game) -> (text: String)
    ensures
        exists|choice: Option<(int, int)>|
            game@.is_best_choice(game@.turn, choice) && text@ == hint_message(game@, choice),
{
    let turn = game.turn();
    let best = game.best_move_for(turn);
    let mut text = String::new();
    match best {
        Some(position) => {
            text.append("Greedy hint for ");
            text.append(turn.to_string().as_str());
            text.append(": ");
            push_position(&mut text, position);
            text.append(". It flips ");
            push_decimal(&mut text, game.flip_count_for(turn, position));
            text.append(" disc(s).");
        },
        None => {
            text = no_moves_text(turn);
        },
    }
    proof {
        assert(text@ =~= hint_message(game@, square_of(best)));
    }
    text
}

/// The report of a move chosen by a search `depth` moves deep, followed by
/// `report`, the report of the move itself.
pub fn ai_move_text(
    depth: usize,
    position: Position,
    player: Player,
    score: isize,
    report: &str,
) -> (text: String)
    ensures
        text@ == ai_move_message(depth as nat, position@, player, score as int, report@),
{
    let mut text = String::new();
    text.append("AI searched ");
    push_decimal(&mut text, depth);
    text.append(" future move(s) and chose ");
    push_position(&mut text, position);
    text.append(" for ");
    text.append(player.to_string().as_str());
    text.append(" with score ");
    push_signed_decimal(&mut text, score);
    text.append(". ");
    text.append(report);
    proof {
        assert(text@ =~= ai_move_message(depth as nat, position@, player, score as int, report@));
    }
    text
}

} // verus!
