//! The game engine: the board, whose turn it is, and the moves.
use vstd::prelude::*;

use crate::error::MoveError;
use crate::player::{Cell, DiscCounts, MoveResult, Player};
use crate::position::{
    lemma_squares_of_add, lemma_squares_of_push, square_of, squares_of, Position, SIZE,
};
use crate::rules::{
    board_order, direction, in_bounds, is_step, lemma_square_index, starting_cell, steps_left,
    walk, GameState,
};

verus! {

/// A game in progress: the board and the player to move.
#[derive(Clone, Copy)]
pub struct Game {
    board: [[Cell; SIZE]; SIZE],
    turn: Player,
}

impl View for Game {
    type V = GameState;

    closed spec fn view(&self) -> GameState {
        GameState { cells: self.board@.map_values(|row: [Cell; SIZE]| row@), turn: self.turn }
    }
}

/// The `i`-th of the eight directions, as row and column steps.
fn direction_step(i: usize) -> (step: (isize, isize))
    requires
        i < 8,
    ensures
        step.0 == direction(i as int).0,
        step.1 == direction(i as int).1,
        is_step(step.0 as int, step.1 as int),
{
    match i {
        0 => (-1, -1),
        1 => (-1, 0),
        2 => (-1, 1),
        3 => (0, -1),
        4 => (0, 1),
        5 => (1, -1),
        6 => (1, 0),
        _ => (1, 1),
    }
}

impl Game {
    proof fn lemma_view_cell(&self, r: int, c: int)
        requires
            in_bounds(r, c),
        ensures
            self@.cell(r, c) == self.board@[r]@[c],
            self@.well_formed(),
    {
    }

    /// The board of every game has `SIZE` rows of `SIZE` cells.
    pub proof fn lemma_well_formed(&self)
        ensures
            self@.well_formed(),
    {
        self.lemma_view_cell(0, 0);
    }

    pub fn turn(&self) -> (player: Player)
        ensures
            player == self@.turn,
    {
        self.turn
    }

    pub fn cell_at(&self, position: Position) -> (content: Cell)
        ensures
            content == self@.cell(position@.0, position@.1),
            in_bounds(position@.0, position@.1),
    {
        let r = position.row();
        let c = position.col();
        proof {
            self.lemma_view_cell(r as int, c as int);
        }
        self.board[r][c]
    }

    pub fn cell(&self, row: usize, col: usize) -> (content: Option<Cell>)
        ensures
            content == (if in_bounds(row as int, col as int) {
                Some(self@.cell(row as int, col as int))
            } else {
                None
            }),
    {
        if row < SIZE && col < SIZE {
            proof {
                self.lemma_view_cell(row as int, col as int);
            }
            Some(self.board[row][col])
        } else {
            None
        }
    }

    fn in_bounds(row: isize, col: isize) -> (inside: bool)
        ensures
            inside == in_bounds(row as int, col as int),
    {
        row >= 0 && row < SIZE as isize && col >= 0 && col < SIZE as isize
    }

    /// The squares a scan gathers beyond `flips` are the run of opponent
    /// discs from its start, nearest first.
    proof fn lemma_gathered_run(
        &self,
        player: Player,
        r: int,
        c: int,
        dr: int,
        dc: int,
        flips: Seq<Position>,
        captured: Seq<Position>,
    )
        requires
            is_step(dr, dc),
            squares_of(captured) == squares_of(flips) + self@.opponent_run(player, r, c, dr, dc),
        ensures
            forall|j: int|
                flips.len() <= j < captured.len() ==> {
                    let q = (#[trigger] captured[j])@;
                    let k = j - flips.len();
                    &&& q == (walk(r, dr, k), walk(c, dc, k))
                    &&& in_bounds(q.0, q.1)
                    &&& self@.cell(q.0, q.1) == Cell::Disc(player.opponent())
                },
    {
        self@.lemma_opponent_run(player, r, c, dr, dc);
        let run = self@.opponent_run(player, r, c, dr, dc);
        assert(captured.len() == flips.len() + run.len()) by {
            assert(squares_of(captured).len() == squares_of(flips).len() + run.len());
        }
        assert forall|j: int| flips.len() <= j < captured.len() implies #[trigger] captured[j]@
            == run[j - flips.len()] by {
            assert(squares_of(captured)[j] == captured[j]@);
            assert((squares_of(flips) + run)[j] == run[j - flips.len()]);
        }
    }

    fn collect_flips_in_direction(
        &self,
        player: Player,
        current_row: isize,
        current_col: isize,
        row_step: isize,
        col_step: isize,
        mut flips: Vec<Position>,
    ) -> (captured: Vec<Position>)
        requires
            is_step(row_step as int, col_step as int),
        ensures
            ({
                let run = self@.opponent_run(
                    player,
                    current_row as int,
                    current_col as int,
                    row_step as int,
                    col_step as int,
                );
                squares_of(captured@) == if self@.run_closed(
                    player,
                    current_row as int,
                    current_col as int,
                    row_step as int,
                    col_step as int,
                ) && flips@.len() + run.len() > 0 {
                    squares_of(flips@) + run
                } else {
                    Seq::empty()
                }
            }),
            forall|j: int|
                flips@.len() <= j < captured@.len() ==> {
                    let q = (#[trigger] captured@[j])@;
                    let k = j - flips@.len();
                    &&& q == (walk(current_row as int, row_step as int, k), walk(
                        current_col as int,
                        col_step as int,
                        k,
                    ))
                    &&& in_bounds(q.0, q.1)
                    &&& self@.cell(q.0, q.1) == Cell::Disc(player.opponent())
                },
        decreases steps_left(current_row as int, row_step as int) + steps_left(
            current_col as int,
            col_step as int,
        ),
    {
        proof {
            self@.lemma_opponent_run(
                player,
                current_row as int,
                current_col as int,
                row_step as int,
                col_step as int,
            );
        }
        if !Game::in_bounds(current_row, current_col) {
            return Vec::new();
        }
        let row_index = current_row as usize;
        let col_index = current_col as usize;
        proof {
            self.lemma_view_cell(row_index as int, col_index as int);
        }
        let cell = self.board[row_index][col_index];

        if cell == Cell::Disc(player.opponent()) {
            let ghost before = flips@;
            let here = Position::at(row_index, col_index);
            flips.push(here);
            proof {
                lemma_squares_of_push(before, here);
                let next = self@.opponent_run(
                    player,
                    current_row + row_step,
                    current_col + col_step,
                    row_step as int,
                    col_step as int,
                );
                assert(squares_of(before).push(here@) + next =~= squares_of(before) + (seq![
                    here@,
                ] + next));
            }
            let captured = self.collect_flips_in_direction(
                player,
                current_row + row_step,
                current_col + col_step,
                row_step,
                col_step,
                flips,
            );
            proof {
                if captured@.len() > 0 {
                    self.lemma_gathered_run(
                        player,
                        current_row as int,
                        current_col as int,
                        row_step as int,
                        col_step as int,
                        before,
                        captured@,
                    );
                }
            }
            captured
        } else if cell == Cell::Disc(player) && !flips.is_empty() {
            proof {
                assert(squares_of(flips@) + Seq::<(int, int)>::empty() =~= squares_of(flips@));
            }
            flips
        } else {
            Vec::new()
        }
    }

    fn flips_in_direction(
        &self,
        player: Player,
        position: Position,
        row_step: isize,
        col_step: isize,
    ) -> (line: Vec<Position>)
        requires
            is_step(row_step as int, col_step as int),
        ensures
            squares_of(line@) == self@.line_flips(
                player,
                position@.0,
                position@.1,
                row_step as int,
                col_step as int,
            ),
            squares_of(line@).no_duplicates(),
            forall|j: int|
                0 <= j < line@.len() ==> {
                    let q = (#[trigger] line@[j])@;
                    &&& q == (walk(position@.0, row_step as int, j + 1), walk(
                        position@.1,
                        col_step as int,
                        j + 1,
                    ))
                    &&& in_bounds(q.0, q.1)
                    &&& self@.cell(q.0, q.1) == Cell::Disc(player.opponent())
                },
    {
        proof {
            self@.lemma_line_flips(
                player,
                position@.0,
                position@.1,
                row_step as int,
                col_step as int,
            );
        }
        let line = self.collect_flips_in_direction(
            player,
            position.row() as isize + row_step,
            position.col() as isize + col_step,
            row_step,
            col_step,
            Vec::new(),
        );
        proof {
            let run = self@.opponent_run(
                player,
                position@.0 + row_step,
                position@.1 + col_step,
                row_step as int,
                col_step as int,
            );
            assert(squares_of(Seq::<Position>::empty()) + run =~= run);
        }
        line
    }

    fn flips_for(&self, player: Player, position: Position) -> (all_flips: Vec<Position>)
        ensures
            squares_of(all_flips@) == self@.flips(player, position@.0, position@.1),
            squares_of(all_flips@).no_duplicates(),
            forall|j: int|
                0 <= j < all_flips@.len() ==> {
                    let q = (#[trigger] all_flips@[j])@;
                    &&& in_bounds(q.0, q.1)
                    &&& self@.cell(q.0, q.1) == Cell::Disc(player.opponent())
                },
    {
        proof {
            self@.lemma_flips(player, position@.0, position@.1);
        }
        if self.cell_at(position) != Cell::Empty {
            return Vec::new();
        }
        let mut all_flips: Vec<Position> = Vec::new();
        let mut i: usize = 0;
        while i < 8
            invariant
                i <= 8,
                squares_of(all_flips@) == self@.flips_through(
                    player,
                    position@.0,
                    position@.1,
                    i as int,
                ),
            decreases 8 - i,
        {
            let (row_step, col_step) = direction_step(i);
            let mut line = self.flips_in_direction(player, position, row_step, col_step);
            let ghost before = all_flips@;
            let ghost added = line@;
            all_flips.append(&mut line);
            proof {
                lemma_squares_of_add(before, added);
            }
            i += 1;
        }
        proof {
            assert forall|j: int| 0 <= j < all_flips@.len() implies squares_of(
                all_flips@,
            ).contains(#[trigger] all_flips@[j]@) by {
                assert(squares_of(all_flips@)[j] == all_flips@[j]@);
            }
        }
        all_flips
    }
}

impl Game {
    pub fn is_valid_position(&self, player: Player, position: Position) -> (legal: bool)
        ensures
            legal == self@.is_legal(player, position@.0, position@.1),
    {
        self.cell_at(position) == Cell::Empty && !self.flips_for(player, position).is_empty()
    }

    pub fn is_valid_move(&self, player: Player, row: usize, col: usize) -> (legal: bool)
        ensures
            legal == self@.is_legal(player, row as int, col as int),
    {
        if let Some(position) = Position::new(row, col) {
            self.is_valid_position(player, position)
        } else {
            false
        }
    }

    /// The number of discs `player` would turn over by playing on `position`.
    pub fn flip_count_for(&self, player: Player, position: Position) -> (count: usize)
        ensures
            count == self@.flip_count(player, position@),
    {
        self.flips_for(player, position).len()
    }

    /// The legal moves of `player`, in reading order.
    pub fn valid_positions(&self, player: Player) -> (positions: Vec<Position>)
        ensures
            squares_of(positions@) == self@.legal_moves(player),
    {
        let ghost legal = self@.legal_at(player);
        let mut positions: Vec<Position> = Vec::new();
        let mut row: usize = 0;
        while row < SIZE
            invariant
                row <= SIZE,
                legal == self@.legal_at(player),
                squares_of(positions@) == board_order().take(row * SIZE).filter(legal),
            decreases SIZE - row,
        {
            let mut col: usize = 0;
            while col < SIZE
                invariant
                    row < SIZE,
                    col <= SIZE,
                    legal == self@.legal_at(player),
                    squares_of(positions@) == board_order().take(row * SIZE + col).filter(legal),
                decreases SIZE - col,
            {
                let ghost k = row * SIZE + col;
                let ghost before = positions@;
                if let Some(position) = Position::new(row, col) {
                    if self.is_valid_position(player, position) {
                        positions.push(position);
                        proof {
                            lemma_squares_of_push(before, position);
                        }
                    }
                }
                proof {
                    lemma_square_index(row as int, col as int);
                    assert(board_order().take(k + 1) =~= board_order().take(k).push(
                        board_order()[k],
                    ));
                    board_order().take(k).lemma_filter_push(board_order()[k], legal);
                }
                col += 1;
            }
            row += 1;
        }
        proof {
            assert(board_order().take(SIZE * SIZE) =~= board_order());
        }
        positions
    }

    /// The legal moves of `player`, in reading order, as (row, column) pairs.
    pub fn valid_moves(&self, player: Player) -> (moves: Vec<(usize, usize)>)
        ensures
            moves@.len() == self@.legal_moves(player).len(),
            forall|i: int|
                0 <= i < moves@.len() ==> (#[trigger] moves@[i]).0 == self@.legal_moves(player)[i].0
                    && moves@[i].1 == self@.legal_moves(player)[i].1,
    {
        let positions = self.valid_positions(player);
        let mut moves: Vec<(usize, usize)> = Vec::new();
        let mut i: usize = 0;
        while i < positions.len()
            invariant
                i <= positions@.len(),
                squares_of(positions@) == self@.legal_moves(player),
                moves@.len() == i,
                forall|j: int|
                    0 <= j < i ==> (#[trigger] moves@[j]).0 == positions@[j]@.0 && moves@[j].1
                        == positions@[j]@.1,
            decreases positions.len() - i,
        {
            let position = positions[i];
            moves.push((position.row(), position.col()));
            i += 1;
        }
        proof {
            assert forall|j: int| 0 <= j < moves@.len() implies (#[trigger] moves@[j]).0
                == self@.legal_moves(player)[j].0 && moves@[j].1 == self@.legal_moves(
                player,
            )[j].1 by {
                assert(squares_of(positions@)[j] == positions@[j]@);
            }
        }
        moves
    }

    /// Whether the player to move has a legal move.
    pub fn current_player_has_moves(&self) -> (can_move: bool)
        ensures
            can_move == self@.has_legal_move(self@.turn),
    {
        let moves = self.valid_positions(self.turn);
        proof {
            self@.lemma_has_legal_move(self.turn);
        }
        !moves.is_empty()
    }

    fn has_moves(&self, player: Player) -> (can_move: bool)
        ensures
            can_move == self@.has_legal_move(player),
    {
        let moves = self.valid_positions(player);
        proof {
            self@.lemma_has_legal_move(player);
        }
        !moves.is_empty()
    }

    /// The game is over when neither player has a legal move.
    pub fn is_game_over(&self) -> (over: bool)
        ensures
            over == self@.is_game_over(),
    {
        !self.has_moves(Player::Black) && !self.has_moves(Player::White)
    }

    /// The legal move of `player` that turns over the most discs; among equals,
    /// the last in reading order. `None` when `player` has no legal move.
    pub fn best_move_for(&self, player: Player) -> (best: Option<Position>)
        ensures
            self@.is_best_choice(player, square_of(best)),
            best is None <==> !self@.has_legal_move(player),
            best matches Some(p) ==> {
                &&& self@.is_legal(player, p@.0, p@.1)
                &&& forall|r: int, c: int|
                    #[trigger] self@.is_legal(player, r, c) ==> self@.flips(player, r, c).len()
                        <= self@.flips(player, p@.0, p@.1).len()
            },
    {
        let positions = self.valid_positions(player);
        let ghost moves = self@.legal_moves(player);
        let mut best: Option<Position> = None;
        let mut best_count: usize = 0;
        let ghost mut best_index: int = 0;
        let mut i: usize = 0;
        while i < positions.len()
            invariant
                i <= positions@.len(),
                squares_of(positions@) == moves,
                moves == self@.legal_moves(player),
                i == 0 <==> best is None,
                best matches Some(b) ==> {
                    &&& 0 <= best_index < i
                    &&& b@ == moves[best_index]
                    &&& best_count == self@.flip_count(player, b@)
                    &&& forall|j: int|
                        0 <= j < i ==> #[trigger] self@.flip_count(player, moves[j])
                            <= best_count
                    &&& forall|j: int|
                        best_index < j < i ==> #[trigger] self@.flip_count(player, moves[j])
                            < best_count
                },
            decreases positions.len() - i,
        {
            let position = positions[i];
            let count = self.flip_count_for(player, position);
            proof {
                assert(squares_of(positions@)[i as int] == position@);
            }
            if best.is_none() || count >= best_count {
                best = Some(position);
                best_count = count;
                proof {
                    best_index = i as int;
                }
            }
            i += 1;
        }
        proof {
            crate::laws::law_best_move_captures_most(self@, player, square_of(best));
        }
        best
    }
}

impl Game {
    /// A new game in the standard starting position, Black to move.
    pub fn new() -> (game: Game)
        ensures
            game@ == GameState::start(),
    {
        let mut board = [[Cell::Empty; SIZE]; SIZE];

        board[3][3] = Cell::Disc(Player::White);
        board[3][4] = Cell::Disc(Player::Black);
        board[4][3] = Cell::Disc(Player::Black);
        board[4][4] = Cell::Disc(Player::White);

        let game = Game { board, turn: Player::Black };
        proof {
            assert forall|r: int| 0 <= r < SIZE implies game@.cells[r] =~= GameState::start().cells[r] by {
                assert forall|c: int| 0 <= c < SIZE implies game@.cells[r][c] == starting_cell(r, c) by {
                    game.lemma_view_cell(r, c);
                }
            }
            assert(game@ =~~= GameState::start());
        }
        game
    }

    /// A game with the given cells (rows top to bottom) and `turn` to move.
    pub fn from_board(board: [[Cell; SIZE]; SIZE], turn: Player) -> (game: Game)
        ensures
            game@.cells == board@.map_values(|row: [Cell; SIZE]| row@),
            game@.turn == turn,
            game@.well_formed(),
    {
        let game = Game { board, turn };
        proof {
            game.lemma_view_cell(0, 0);
        }
        game
    }

    fn set_cell(&mut self, row: usize, col: usize, content: Cell)
        requires
            row < SIZE,
            col < SIZE,
        ensures
            final(self)@.turn == old(self)@.turn,
            final(self)@.well_formed(),
            forall|r: int, c: int|
                in_bounds(r, c) ==> #[trigger] final(self)@.cell(r, c) == if r == row && c == col {
                    content
                } else {
                    old(self)@.cell(r, c)
                },
    {
        self.board[row][col] = content;
        proof {
            assert forall|r: int, c: int| in_bounds(r, c) implies #[trigger] self@.cell(r, c) == if r
                == row && c == col {
                content
            } else {
                old(self)@.cell(r, c)
            } by {
                self.lemma_view_cell(r, c);
                old(self).lemma_view_cell(r, c);
            }
        }
    }

    /// The number of discs of each player.
    pub fn disc_counts(&self) -> (counts: DiscCounts)
        ensures
            counts.black == self@.count(Cell::Disc(Player::Black)),
            counts.white == self@.count(Cell::Disc(Player::White)),
    {
        let ghost state = self@;
        let mut black: usize = 0;
        let mut white: usize = 0;
        proof {
            assert(state.squares_before(Cell::Disc(Player::Black), 0) =~= Set::empty());
            assert(state.squares_before(Cell::Disc(Player::White), 0) =~= Set::empty());
        }

        let mut row: usize = 0;
        while row < SIZE
            invariant
                row <= SIZE,
                state == self@,
                black == state.squares_before(Cell::Disc(Player::Black), row * SIZE).len(),
                white == state.squares_before(Cell::Disc(Player::White), row * SIZE).len(),
                black + white <= row * SIZE,
            decreases SIZE - row,
        {
            let mut col: usize = 0;
            while col < SIZE
                invariant
                    row < SIZE,
                    col <= SIZE,
                    state == self@,
                    black == state.squares_before(Cell::Disc(Player::Black), row * SIZE + col).len(),
                    white == state.squares_before(Cell::Disc(Player::White), row * SIZE + col).len(),
                    black + white <= row * SIZE + col,
                decreases SIZE - col,
            {
                proof {
                    self.lemma_view_cell(row as int, col as int);
                    state.lemma_squares_before_step(Cell::Disc(Player::Black), row as int, col as int);
                    state.lemma_squares_before_step(Cell::Disc(Player::White), row as int, col as int);
                }
                if self.board[row][col] == Cell::Disc(Player::Black) {
                    black += 1;
                } else if self.board[row][col] == Cell::Disc(Player::White) {
                    white += 1;
                }
                col += 1;
            }
            row += 1;
        }
        proof {
            state.lemma_squares_before_all(Cell::Disc(Player::Black));
            state.lemma_squares_before_all(Cell::Disc(Player::White));
        }
        DiscCounts { black, white }
    }

    /// The number of black discs and of white discs.
    pub fn score(&self) -> (score: (usize, usize))
        ensures
            score.0 == self@.count(Cell::Disc(Player::Black)),
            score.1 == self@.count(Cell::Disc(Player::White)),
    {
        let counts = self.disc_counts();

        (counts.black, counts.white)
    }

    /// The number of empty squares.
    pub fn empty_count(&self) -> (empty: usize)
        ensures
            empty == self@.count(Cell::Empty),
    {
        proof {
            self@.lemma_counts_partition();
        }
        SIZE * SIZE - self.disc_counts().total()
    }

    /// The player with more discs once the game is over; `None` while it is
    /// still going on, and on a tie.
    pub fn winner(&self) -> (leader: Option<Player>)
        ensures
            leader is Some ==> self@.is_game_over(),
            self@.is_game_over() ==> (leader == Some(Player::Black) <==> self@.count(
                Cell::Disc(Player::Black),
            ) > self@.count(Cell::Disc(Player::White))),
            self@.is_game_over() ==> (leader == Some(Player::White) <==> self@.count(
                Cell::Disc(Player::White),
            ) > self@.count(Cell::Disc(Player::Black))),
            leader == if self@.is_game_over() {
                self@.leader()
            } else {
                None
            },
    {
        if self.is_game_over() {
            self.disc_counts().winner()
        } else {
            None
        }
    }

    /// Hands the turn on after `self.turn` moved: to the opponent if it can
    /// move, else back to the same player if it can, else the game is over.
    fn advance_turn(&mut self) -> (result: MoveResult)
        ensures
            final(self)@.cells == old(self)@.cells,
            (final(self)@.turn, result) == old(self)@.turn_after(old(self)@.turn),
    {
        let next = self.turn.opponent();

        if self.has_moves(next) {
            self.turn = next;
            MoveResult::Played
        } else if self.has_moves(self.turn) {
            MoveResult::OpponentPassed
        } else {
            MoveResult::GameOver
        }
    }

    /// The player to move puts a disc on `position` and turns over every
    /// captured disc; then the turn passes on. A refused move changes nothing.
    pub fn play_position(&mut self, position: Position) -> (outcome: Result<MoveResult, MoveError>)
        ensures
            in_bounds(position@.0, position@.1),
            match outcome {
                Ok(result) => {
                    &&& old(self)@.is_legal(old(self)@.turn, position@.0, position@.1)
                    &&& (final(self)@, result) == old(self)@.play(position@.0, position@.1)
                },
                Err(error) => {
                    &&& !old(self)@.is_legal(old(self)@.turn, position@.0, position@.1)
                    &&& final(self)@ == old(self)@
                    &&& error == if old(self)@.cell(position@.0, position@.1) != Cell::Empty {
                        MoveError::Occupied { position }
                    } else {
                        MoveError::NoFlips { player: old(self)@.turn, position }
                    }
                },
            },
    {
        if self.cell_at(position) != Cell::Empty {
            return Err(MoveError::Occupied { position });
        }

        let flips = self.flips_for(self.turn, position);
        if flips.is_empty() {
            return Err(MoveError::NoFlips { player: self.turn, position });
        }

        let ghost start = self@;
        let ghost captured = squares_of(flips@);
        let player = self.turn;
        let row = position.row();
        let col = position.col();
        self.set_cell(row, col, Cell::Disc(player));
        let mut i: usize = 0;
        while i < flips.len()
            invariant
                i <= flips@.len(),
                captured == squares_of(flips@),
                captured == start.flips(player, row as int, col as int),
                self@.turn == player,
                self@.well_formed(),
                forall|r: int, c: int|
                    in_bounds(r, c) ==> #[trigger] self@.cell(r, c) == if (r == row && c == col)
                        || captured.take(i as int).contains((r, c)) {
                        Cell::Disc(player)
                    } else {
                        start.cell(r, c)
                    },
            decreases flips.len() - i,
        {
            let flip = flips[i];
            proof {
                assert(captured[i as int] == flip@);
                assert(captured.take(i + 1) =~= captured.take(i as int).push(flip@));
            }
            self.set_cell(flip.row(), flip.col(), Cell::Disc(player));
            proof {
                let shorter = captured.take(i as int);
                let longer = captured.take(i + 1);
                assert forall|r: int, c: int| #[trigger]
                    longer.contains((r, c)) <==> shorter.contains((r, c)) || (r, c) == flip@ by {
                    if longer.contains((r, c)) {
                        let j = choose|j: int| 0 <= j < longer.len() && longer[j] == (r, c);
                        if j < i {
                            assert(shorter[j] == (r, c));
                        }
                    }
                    if (r, c) == flip@ {
                        assert(longer[i as int] == flip@);
                    }
                    if shorter.contains((r, c)) {
                        let j = choose|j: int| 0 <= j < shorter.len() && shorter[j] == (r, c);
                        assert(longer[j] == (r, c));
                    }
                }
            }
            i += 1;
        }
        proof {
            assert(captured.take(flips@.len() as int) =~= captured);
            let placed = start.placed(player, row as int, col as int);
            assert forall|r: int| 0 <= r < SIZE implies #[trigger] self@.cells[r] =~= placed[r] by {
                assert forall|c: int| 0 <= c < SIZE implies self@.cells[r][c] == placed[r][c] by {
                    assert(self@.cell(r, c) == self@.cells[r][c]);
                }
            }
            assert(self@.cells =~= placed);
        }

        Ok(self.advance_turn())
    }

    /// Plays on row `row`, column `col` (counted from 0), as `play_position`
    /// does; a square off the board is refused.
    pub fn play(&mut self, row: usize, col: usize) -> (outcome: Result<MoveResult, MoveError>)
        ensures
            match outcome {
                Ok(result) => {
                    &&& old(self)@.is_legal(old(self)@.turn, row as int, col as int)
                    &&& (final(self)@, result) == old(self)@.play(row as int, col as int)
                },
                Err(MoveError::OutOfBounds { row: r, col: c }) => {
                    &&& !in_bounds(row as int, col as int)
                    &&& r == row && c == col
                    &&& final(self)@ == old(self)@
                },
                Err(MoveError::Occupied { position }) => {
                    &&& position@ == (row as int, col as int)
                    &&& old(self)@.cell(row as int, col as int) != Cell::Empty
                    &&& final(self)@ == old(self)@
                },
                Err(MoveError::NoFlips { player, position }) => {
                    &&& position@ == (row as int, col as int)
                    &&& old(self)@.cell(row as int, col as int) == Cell::Empty
                    &&& !old(self)@.is_legal(old(self)@.turn, row as int, col as int)
                    &&& player == old(self)@.turn
                    &&& final(self)@ == old(self)@
                },
            },
            outcome is Ok <==> old(self)@.is_legal(old(self)@.turn, row as int, col as int),
            (outcome matches Err(MoveError::OutOfBounds { .. })) <==> !in_bounds(row as int, col as int),
    {
        let Some(position) = Position::new(row, col) else {
            return Err(MoveError::OutOfBounds { row, col });
        };

        self.play_position(position)
    }
}

impl Game {
    /// The same board with `player` to move.
    pub(crate) fn with_turn(&self, player: Player) -> (game: Game)
        ensures
            game@ == (GameState { cells: self@.cells, turn: player }),
    {
        Game { board: self.board, turn: player }
    }

    /// The game after the player to move plays the legal move `position`.
    pub(crate) fn after_move(&self, position: Position) -> (game: Game)
        requires
            self@.is_legal(self@.turn, position@.0, position@.1),
        ensures
            game@ == self@.play(position@.0, position@.1).0,
    {
        let mut game = Game { board: self.board, turn: self.turn };
        let _ = game.play_position(position);
        game
    }
}

impl Default for Game {
    fn default() -> (game: Game)
        ensures
            game@ == GameState::start(),
    {
        Self::new()
    }
}

} // verus!
