//! The rules of Othello, stated as spec functions over an abstract game state.
//!
//! Squares are pairs `(row, col)` of integers; the board has `SIZE` rows of
//! `SIZE` cells. Every executable operation of the engine is specified in
//! terms of the functions here.
use vstd::prelude::*;

use crate::player::{Cell, MoveResult, Player};
use crate::position::SIZE;

verus! {

/// Whether `(r, c)` names a square of the board.
pub open spec fn in_bounds(r: int, c: int) -> bool {
    0 <= r < SIZE && 0 <= c < SIZE
}

/// A unit step in one of the eight compass directions.
pub open spec fn is_step(dr: int, dc: int) -> bool {
    -1 <= dr <= 1 && -1 <= dc <= 1 && !(dr == 0 && dc == 0)
}

/// How many more squares a walk along one axis can visit before it leaves the board.
pub open spec fn steps_left(x: int, d: int) -> int {
    if d > 0 {
        SIZE - x
    } else if d < 0 {
        x + 1
    } else {
        0
    }
}

/// The eight directions in the order in which captures are gathered:
/// up-left, up, up-right, left, right, down-left, down, down-right.
pub open spec fn direction(i: int) -> (int, int) {
    if i == 0 {
        (-1, -1)
    } else if i == 1 {
        (-1, 0)
    } else if i == 2 {
        (-1, 1)
    } else if i == 3 {
        (0, -1)
    } else if i == 4 {
        (0, 1)
    } else if i == 5 {
        (1, -1)
    } else if i == 6 {
        (1, 0)
    } else {
        (1, 1)
    }
}

/// The coordinate reached from `x` after `k` steps of `d`, for `d` in `-1..=1`.
pub open spec fn walk(x: int, d: int, k: int) -> int {
    if d > 0 {
        x + k
    } else if d < 0 {
        x - k
    } else {
        x
    }
}

/// Two walks from the same square that land on the same square after at least
/// one step each went in the same direction for the same number of steps.
pub proof fn lemma_walks_meet(
    r: int,
    c: int,
    dr1: int,
    dc1: int,
    k1: int,
    dr2: int,
    dc2: int,
    k2: int,
)
    requires
        is_step(dr1, dc1),
        is_step(dr2, dc2),
        k1 >= 1,
        k2 >= 1,
        walk(r, dr1, k1) == walk(r, dr2, k2),
        walk(c, dc1, k1) == walk(c, dc2, k2),
    ensures
        dr1 == dr2,
        dc1 == dc2,
        k1 == k2,
{
}

/// The eight directions are unit steps, and no two are the same.
pub proof fn lemma_directions_distinct(i: int, j: int)
    requires
        0 <= i < 8,
        0 <= j < 8,
    ensures
        is_step(direction(i).0, direction(i).1),
        i != j ==> direction(i) != direction(j),
{
}

/// The `k`-th square of the board in reading order (row by row, left to right).
pub open spec fn square(k: int) -> (int, int) {
    (k / (SIZE as int), k % (SIZE as int))
}

/// All squares of the board in reading order.
pub open spec fn board_order() -> Seq<(int, int)> {
    Seq::new((SIZE * SIZE) as nat, |k: int| square(k))
}

/// The set of all squares of the board.
pub open spec fn all_squares() -> Set<(int, int)> {
    board_order().to_set()
}

/// The content of `(r, c)` when a game starts: two discs of each player
/// crossed in the centre, white on the top-left to bottom-right diagonal.
pub open spec fn starting_cell(r: int, c: int) -> Cell {
    if (r == 3 && c == 3) || (r == 4 && c == 4) {
        Cell::Disc(Player::White)
    } else if (r == 3 && c == 4) || (r == 4 && c == 3) {
        Cell::Disc(Player::Black)
    } else {
        Cell::Empty
    }
}

/// An abstract game: the cells row by row, and the player to move.
#[verifier::ext_equal]
pub struct GameState {
    pub cells: Seq<Seq<Cell>>,
    pub turn: Player,
}

impl GameState {
    /// The standard starting position, with Black to move.
    pub open spec fn start() -> GameState {
        GameState {
            cells: Seq::new(
                SIZE as nat,
                |i: int| Seq::new(SIZE as nat, |j: int| starting_cell(i, j)),
            ),
            turn: Player::Black,
        }
    }

    /// The board has `SIZE` rows of `SIZE` cells.
    pub open spec fn well_formed(self) -> bool {
        &&& self.cells.len() == SIZE
        &&& forall|r: int| 0 <= r < SIZE ==> #[trigger] self.cells[r].len() == SIZE
    }

    pub open spec fn cell(self, r: int, c: int) -> Cell {
        self.cells[r][c]
    }

    /// The squares met one after another from `(r, c)`, stepping by `(dr, dc)`,
    /// as long as each holds a disc of `player`'s opponent.
    pub open spec fn opponent_run(self, player: Player, r: int, c: int, dr: int, dc: int) -> Seq<
        (int, int),
    >
        decreases steps_left(r, dr) + steps_left(c, dc),
        when is_step(dr, dc)
    {
        if in_bounds(r, c) && self.cell(r, c) == Cell::Disc(player.opponent()) {
            seq![(r, c)] + self.opponent_run(player, r + dr, c + dc, dr, dc)
        } else {
            Seq::empty()
        }
    }

    /// Whether the run of opponent discs that starts at `(r, c)` ends on a
    /// square of the board that holds a disc of `player`.
    pub open spec fn run_closed(self, player: Player, r: int, c: int, dr: int, dc: int) -> bool
        decreases steps_left(r, dr) + steps_left(c, dc),
        when is_step(dr, dc)
    {
        if in_bounds(r, c) && self.cell(r, c) == Cell::Disc(player.opponent()) {
            self.run_closed(player, r + dr, c + dc, dr, dc)
        } else {
            in_bounds(r, c) && self.cell(r, c) == Cell::Disc(player)
        }
    }

    /// The discs a disc of `player` on `(r, c)` captures in direction `(dr, dc)`:
    /// the unbroken run of opponent discs next to it, when at least one disc is
    /// in the run and a disc of `player` closes it; otherwise none.
    pub open spec fn line_flips(self, player: Player, r: int, c: int, dr: int, dc: int) -> Seq<
        (int, int),
    > {
        let run = self.opponent_run(player, r + dr, c + dc, dr, dc);
        if run.len() > 0 && self.run_closed(player, r + dr, c + dc, dr, dc) {
            run
        } else {
            Seq::empty()
        }
    }

    /// The captures of the first `k` directions, one direction after another.
    pub open spec fn flips_through(self, player: Player, r: int, c: int, k: int) -> Seq<(int, int)>
        decreases k,
    {
        if k <= 0 {
            Seq::empty()
        } else {
            self.flips_through(player, r, c, k - 1) + self.line_flips(
                player,
                r,
                c,
                direction(k - 1).0,
                direction(k - 1).1,
            )
        }
    }

    /// The discs that `player` turns over by placing a disc on `(r, c)`;
    /// none when that square is not empty.
    pub open spec fn flips(self, player: Player, r: int, c: int) -> Seq<(int, int)> {
        if self.cell(r, c) != Cell::Empty {
            Seq::empty()
        } else {
            self.flips_through(player, r, c, 8)
        }
    }

    /// A legal move: an empty square of the board where the disc captures at least one disc.
    pub open spec fn is_legal(self, player: Player, r: int, c: int) -> bool {
        &&& in_bounds(r, c)
        &&& self.cell(r, c) == Cell::Empty
        &&& self.flips(player, r, c).len() > 0
    }

    pub open spec fn legal_at(self, player: Player) -> spec_fn((int, int)) -> bool {
        |q: (int, int)| self.is_legal(player, q.0, q.1)
    }

    /// The legal moves of `player` in reading order.
    pub open spec fn legal_moves(self, player: Player) -> Seq<(int, int)> {
        board_order().filter(self.legal_at(player))
    }

    pub open spec fn has_legal_move(self, player: Player) -> bool {
        exists|r: int, c: int| self.is_legal(player, r, c)
    }

    /// The game is over when neither player has a legal move.
    pub open spec fn is_game_over(self) -> bool {
        !self.has_legal_move(Player::Black) && !self.has_legal_move(Player::White)
    }

    /// The cells after `player` puts a disc on `(r, c)` and turns over its captures.
    pub open spec fn placed(self, player: Player, r: int, c: int) -> Seq<Seq<Cell>> {
        Seq::new(
            SIZE as nat,
            |i: int|
                Seq::new(
                    SIZE as nat,
                    |j: int|
                        if (i == r && j == c) || self.flips(player, r, c).contains((i, j)) {
                            Cell::Disc(player)
                        } else {
                            self.cell(i, j)
                        },
                ),
        )
    }

    /// Whose turn follows a move of `mover` that left the board as in `self`,
    /// and how the move is reported: the opponent moves next if it can; else
    /// `mover` moves again if it can; else the game is over.
    pub open spec fn turn_after(self, mover: Player) -> (Player, MoveResult) {
        if self.has_legal_move(mover.opponent()) {
            (mover.opponent(), MoveResult::Played)
        } else if self.has_legal_move(mover) {
            (mover, MoveResult::OpponentPassed)
        } else {
            (mover, MoveResult::GameOver)
        }
    }

    /// The game after the player to move plays on `(r, c)`, and its report.
    pub open spec fn play(self, r: int, c: int) -> (GameState, MoveResult) {
        let board = GameState { cells: self.placed(self.turn, r, c), turn: self.turn };
        let (next, result) = board.turn_after(self.turn);
        (GameState { cells: board.cells, turn: next }, result)
    }

    /// The squares of the board that hold `content`.
    pub open spec fn squares_with(self, content: Cell) -> Set<(int, int)> {
        Set::new(|q: (int, int)| in_bounds(q.0, q.1) && self.cell(q.0, q.1) == content)
    }

    /// The number of squares that hold `content`.
    pub open spec fn count(self, content: Cell) -> nat {
        self.squares_with(content).len()
    }

    /// The squares before reading-order index `k` that hold `content`.
    pub open spec fn squares_before(self, content: Cell, k: int) -> Set<(int, int)> {
        Set::new(
            |q: (int, int)|
                in_bounds(q.0, q.1) && q.0 * SIZE + q.1 < k && self.cell(q.0, q.1) == content,
        )
    }

    /// The player with more discs, or `None` when both have as many.
    pub open spec fn leader(self) -> Option<Player> {
        let black = self.count(Cell::Disc(Player::Black));
        let white = self.count(Cell::Disc(Player::White));
        if black > white {
            Some(Player::Black)
        } else if white > black {
            Some(Player::White)
        } else {
            None
        }
    }

    /// The number of discs `player` has in `(r, c)`'s captures.
    pub open spec fn flip_count(self, player: Player, q: (int, int)) -> int {
        self.flips(player, q.0, q.1).len() as int
    }

    /// The capture count of each square, for `player`.
    pub open spec fn flip_counts(self, player: Player) -> spec_fn((int, int)) -> int {
        |q: (int, int)| self.flip_count(player, q)
    }

    /// `choice` is what picking the legal move with most captures gives: `None`
    /// when there is no legal move, else the last legal move in reading order
    /// whose capture count no other legal move exceeds.
    pub open spec fn is_best_choice(self, player: Player, choice: Option<(int, int)>) -> bool {
        is_top_choice(self.legal_moves(player), self.flip_counts(player), choice)
    }
}

/// `choice` is what picking the move of highest `score` among `moves` gives:
/// `None` when there are no moves, else the last move whose score no other
/// move exceeds.
pub open spec fn is_top_choice(
    moves: Seq<(int, int)>,
    score: spec_fn((int, int)) -> int,
    choice: Option<(int, int)>,
) -> bool {
    match choice {
        None => moves.len() == 0,
        Some(q) => exists|i: int|
            0 <= i < moves.len() && moves[i] == q && (forall|j: int|
                0 <= j < moves.len() ==> score(#[trigger] moves[j]) <= score(q)) && (forall|j: int|
                i < j < moves.len() ==> score(#[trigger] moves[j]) < score(q)),
    }
}

/// The square at reading-order index `r * SIZE + c` is `(r, c)`.
pub proof fn lemma_square_index(r: int, c: int)
    requires
        in_bounds(r, c),
    ensures
        0 <= r * SIZE + c < SIZE * SIZE,
        square(r * SIZE + c) == (r, c),
        board_order()[r * SIZE + c] == (r, c),
{
    let k = r * SIZE + c;
    assert(k / 8 == r && k % 8 == c) by (nonlinear_arith)
        requires
            k == r * 8 + c,
            0 <= c < 8,
            0 <= r,
    ;
}

/// The squares of the board are finitely many, and exactly those in bounds.
pub proof fn lemma_all_squares(q: (int, int))
    ensures
        all_squares().finite(),
        all_squares().contains(q) <==> in_bounds(q.0, q.1),
{
    if in_bounds(q.0, q.1) {
        lemma_square_index(q.0, q.1);
        assert(board_order()[q.0 * SIZE + q.1] == q);
    }
    if all_squares().contains(q) {
        let k = choose|k: int| 0 <= k < board_order().len() && board_order()[k] == q;
        lemma_square_in_bounds(k);
    }
}

/// The board has `SIZE * SIZE` squares.
pub proof fn lemma_all_squares_len()
    ensures
        all_squares().len() == SIZE * SIZE,
{
    assert forall|i: int, j: int|
        0 <= i < board_order().len() && 0 <= j < board_order().len() && i != j implies board_order()[i]
        != board_order()[j] by {
        assert(i / 8 != j / 8 || i % 8 != j % 8) by (nonlinear_arith)
            requires
                0 <= i < 64,
                0 <= j < 64,
                i != j,
        ;
    }
    board_order().unique_seq_to_set();
}

/// Every square in reading order is on the board.
pub proof fn lemma_square_in_bounds(k: int)
    requires
        0 <= k < SIZE * SIZE,
    ensures
        in_bounds(square(k).0, square(k).1),
{
    assert(0 <= k / 8 < 8 && 0 <= k % 8 < 8) by (nonlinear_arith)
        requires
            0 <= k < 64,
    ;
}

impl GameState {
    /// The legal moves in reading order are exactly the legal moves.
    pub proof fn lemma_legal_moves_contains(self, player: Player, q: (int, int))
        ensures
            self.legal_moves(player).contains(q) <==> self.is_legal(player, q.0, q.1),
    {
        broadcast use vstd::seq_lib::group_filter_ensures;

        let moves = self.legal_moves(player);
        if moves.contains(q) {
            let i = choose|i: int| 0 <= i < moves.len() && moves[i] == q;
            assert(self.legal_at(player)(moves[i]));
        }
        if self.is_legal(player, q.0, q.1) {
            lemma_square_index(q.0, q.1);
            let k = q.0 * SIZE + q.1;
            assert(self.legal_at(player)(board_order()[k]));
        }
    }

    /// Any set of squares of the board is finite.
    pub proof fn lemma_board_subset_finite(squares: Set<(int, int)>)
        requires
            forall|q: (int, int)| #[trigger] squares.contains(q) ==> in_bounds(q.0, q.1),
        ensures
            squares.finite(),
            squares.subset_of(all_squares()),
    {
        assert forall|q: (int, int)| #[trigger] squares.contains(q) implies all_squares().contains(
            q,
        ) by {
            lemma_all_squares(q);
        }
        lemma_all_squares((0, 0));
        vstd::set_lib::lemma_len_subset(squares, all_squares());
    }

    /// Counting square `(r, c)` in reading order: the squares before it that
    /// hold `content` grow by that square exactly when it holds `content`.
    pub proof fn lemma_squares_before_step(self, content: Cell, r: int, c: int)
        requires
            in_bounds(r, c),
        ensures
            self.squares_before(content, r * SIZE + c).finite(),
            !self.squares_before(content, r * SIZE + c).contains((r, c)),
            self.squares_before(content, r * SIZE + c + 1) == if self.cell(r, c) == content {
                self.squares_before(content, r * SIZE + c).insert((r, c))
            } else {
                self.squares_before(content, r * SIZE + c)
            },
    {
        let k = r * SIZE + c;
        Self::lemma_board_subset_finite(self.squares_before(content, k));
        assert forall|q: (int, int)| in_bounds(q.0, q.1) && q.0 * SIZE + q.1 == k implies q == (
        r, c) by {
            assert(q.0 == r && q.1 == c) by (nonlinear_arith)
                requires
                    q.0 * 8 + q.1 == r * 8 + c,
                    0 <= q.1 < 8,
                    0 <= c < 8,
            ;
        }
        if self.cell(r, c) == content {
            assert(self.squares_before(content, k + 1) =~= self.squares_before(content, k).insert(
                (r, c),
            ));
        } else {
            assert(self.squares_before(content, k + 1) =~= self.squares_before(content, k));
        }
    }

    /// Once every square has been read, the squares read that hold `content`
    /// are all squares that hold it.
    pub proof fn lemma_squares_before_all(self, content: Cell)
        ensures
            self.squares_before(content, SIZE * SIZE) == self.squares_with(content),
            self.squares_with(content).finite(),
    {
        assert(self.squares_before(content, SIZE * SIZE) =~= self.squares_with(content));
        Self::lemma_board_subset_finite(self.squares_with(content));
    }

    /// Every square is empty or holds a black or a white disc, so the three
    /// counts add up to the number of squares.
    pub proof fn lemma_counts_partition(self)
        ensures
            self.count(Cell::Disc(Player::Black)) + self.count(Cell::Disc(Player::White))
                + self.count(Cell::Empty) == SIZE * SIZE,
    {
        let black = self.squares_with(Cell::Disc(Player::Black));
        let white = self.squares_with(Cell::Disc(Player::White));
        let empty = self.squares_with(Cell::Empty);
        self.lemma_squares_before_all(Cell::Disc(Player::Black));
        self.lemma_squares_before_all(Cell::Disc(Player::White));
        self.lemma_squares_before_all(Cell::Empty);
        assert forall|q: (int, int)| #[trigger] all_squares().contains(q) <==> (black + white
            + empty).contains(q) by {
            lemma_all_squares(q);
        }
        assert(all_squares() =~= black + white + empty);
        vstd::set_lib::lemma_set_disjoint_lens(black, white);
        vstd::set_lib::lemma_set_disjoint_lens(black + white, empty);
        lemma_all_squares_len();
    }

    /// The run of opponent discs from `(r, c)` visits, one step at a time,
    /// squares of the board that hold the opponent's discs.
    pub proof fn lemma_opponent_run(self, player: Player, r: int, c: int, dr: int, dc: int)
        requires
            is_step(dr, dc),
        ensures
            forall|j: int|
                0 <= j < self.opponent_run(player, r, c, dr, dc).len() ==> {
                    let q = #[trigger] self.opponent_run(player, r, c, dr, dc)[j];
                    &&& q == (walk(r, dr, j), walk(c, dc, j))
                    &&& in_bounds(q.0, q.1)
                    &&& self.cell(q.0, q.1) == Cell::Disc(player.opponent())
                },
        decreases steps_left(r, dr) + steps_left(c, dc),
    {
        if in_bounds(r, c) && self.cell(r, c) == Cell::Disc(player.opponent()) {
            self.lemma_opponent_run(player, r + dr, c + dc, dr, dc);
            let rest = self.opponent_run(player, r + dr, c + dc, dr, dc);
            assert forall|j: int| 1 <= j < rest.len() + 1 implies (seq![(r, c)] + rest)[j] == rest[j
                - 1] by {}
        }
    }

    /// What a disc on `(r, c)` captures in one direction: squares of the board
    /// holding opponent discs, `k >= 1` steps away in that direction.
    pub proof fn lemma_line_flips(self, player: Player, r: int, c: int, dr: int, dc: int)
        requires
            is_step(dr, dc),
        ensures
            self.line_flips(player, r, c, dr, dc).no_duplicates(),
            forall|j: int|
                0 <= j < self.line_flips(player, r, c, dr, dc).len() ==> {
                    let q = #[trigger] self.line_flips(player, r, c, dr, dc)[j];
                    &&& q == (walk(r, dr, j + 1), walk(c, dc, j + 1))
                    &&& in_bounds(q.0, q.1)
                    &&& self.cell(q.0, q.1) == Cell::Disc(player.opponent())
                },
    {
        self.lemma_opponent_run(player, r + dr, c + dc, dr, dc);
        let line = self.line_flips(player, r, c, dr, dc);
        assert forall|j: int| 0 <= j < line.len() implies #[trigger] line[j] == (
        walk(r, dr, j + 1), walk(c, dc, j + 1)) by {}
        assert forall|i: int, j: int| 0 <= i < line.len() && 0 <= j < line.len() && i != j implies line[i]
            != line[j] by {
            if line[i] == line[j] {
                lemma_walks_meet(r, c, dr, dc, i + 1, dr, dc, j + 1);
            }
        }
    }

    /// Everything a disc on `(r, c)` captures in the first `k` directions: no
    /// square twice, each an opponent disc on the board, each reached from
    /// `(r, c)` by at least one step in one of those directions.
    pub proof fn lemma_flips_through(self, player: Player, r: int, c: int, k: int)
        requires
            0 <= k <= 8,
        ensures
            self.flips_through(player, r, c, k).no_duplicates(),
            forall|q: (int, int)| #[trigger]
                self.flips_through(player, r, c, k).contains(q) ==> {
                    &&& in_bounds(q.0, q.1)
                    &&& self.cell(q.0, q.1) == Cell::Disc(player.opponent())
                    &&& exists|i: int, m: int|
                        0 <= i < k && m >= 1 && q == (
                            walk(r, direction(i).0, m),
                            walk(c, direction(i).1, m),
                        )
                },
        decreases k,
    {
        if k > 0 {
            self.lemma_flips_through(player, r, c, k - 1);
            let (dr, dc) = direction(k - 1);
            lemma_directions_distinct(k - 1, k - 1);
            self.lemma_line_flips(player, r, c, dr, dc);
            let head = self.flips_through(player, r, c, k - 1);
            let line = self.line_flips(player, r, c, dr, dc);
            let all = head + line;
            assert forall|q: (int, int)| #[trigger] line.contains(q) implies !head.contains(q) by {
                let j = choose|j: int| 0 <= j < line.len() && line[j] == q;
                if head.contains(q) {
                    let (i, m) = choose|i: int, m: int|
                        0 <= i < k - 1 && m >= 1 && q == (
                            walk(r, direction(i).0, m),
                            walk(c, direction(i).1, m),
                        );
                    lemma_directions_distinct(i, k - 1);
                    lemma_walks_meet(r, c, direction(i).0, direction(i).1, m, dr, dc, j + 1);
                }
            }
            assert forall|a: int, b: int| 0 <= a < all.len() && 0 <= b < all.len() && a != b implies all[a]
                != all[b] by {
                if a < head.len() && b >= head.len() {
                    assert(line.contains(all[b]));
                    assert(head.contains(all[a]));
                } else if b < head.len() && a >= head.len() {
                    assert(line.contains(all[a]));
                    assert(head.contains(all[b]));
                } else if a >= head.len() && b >= head.len() {
                    assert(line[a - head.len()] != line[b - head.len()]);
                }
            }
            assert forall|q: (int, int)| #[trigger] all.contains(q) implies {
                &&& in_bounds(q.0, q.1)
                &&& self.cell(q.0, q.1) == Cell::Disc(player.opponent())
                &&& exists|i: int, m: int|
                    0 <= i < k && m >= 1 && q == (
                        walk(r, direction(i).0, m),
                        walk(c, direction(i).1, m),
                    )
            } by {
                let a = choose|a: int| 0 <= a < all.len() && all[a] == q;
                if a < head.len() {
                    assert(head.contains(q));
                    let (i, m) = choose|i: int, m: int|
                        0 <= i < k - 1 && m >= 1 && q == (
                            walk(r, direction(i).0, m),
                            walk(c, direction(i).1, m),
                        );
                    assert(0 <= i < k);
                } else {
                    let j = a - head.len();
                    assert(line[j] == q);
                    assert(q == (walk(r, direction(k - 1).0, j + 1), walk(c, direction(k - 1).1, j + 1)));
                }
            }
        }
    }

    /// The captures of a move: no square twice, each an opponent disc on the board.
    pub proof fn lemma_flips(self, player: Player, r: int, c: int)
        ensures
            self.flips(player, r, c).no_duplicates(),
            forall|q: (int, int)| #[trigger]
                self.flips(player, r, c).contains(q) ==> in_bounds(q.0, q.1) && self.cell(q.0, q.1)
                    == Cell::Disc(player.opponent()),
    {
        if self.cell(r, c) == Cell::Empty {
            self.lemma_flips_through(player, r, c, 8);
        }
    }

    /// The rules for placing discs look only at the cells, not at whose turn it is.
    pub proof fn lemma_same_cells(self, other: GameState, player: Player)
        requires
            self.cells == other.cells,
        ensures
            self.has_legal_move(player) == other.has_legal_move(player),
            forall|r: int, c: int| #[trigger]
                self.is_legal(player, r, c) == other.is_legal(player, r, c),
    {
        assert forall|r: int, c: int| #[trigger]
            self.is_legal(player, r, c) == other.is_legal(player, r, c) by {
            assert forall|k: int| 0 <= k <= 8 implies #[trigger] self.flips_through(player, r, c, k)
                == other.flips_through(player, r, c, k) by {
                self.lemma_same_cells_flips_through(other, player, r, c, k);
            }
        }
        if self.has_legal_move(player) {
            let (r, c) = choose|r: int, c: int| self.is_legal(player, r, c);
            assert(other.is_legal(player, r, c));
        }
        if other.has_legal_move(player) {
            let (r, c) = choose|r: int, c: int| other.is_legal(player, r, c);
            assert(self.is_legal(player, r, c));
        }
    }

    proof fn lemma_same_cells_flips_through(
        self,
        other: GameState,
        player: Player,
        r: int,
        c: int,
        k: int,
    )
        requires
            self.cells == other.cells,
            0 <= k <= 8,
        ensures
            self.flips_through(player, r, c, k) == other.flips_through(player, r, c, k),
        decreases k,
    {
        if k > 0 {
            self.lemma_same_cells_flips_through(other, player, r, c, k - 1);
            let (dr, dc) = direction(k - 1);
            lemma_directions_distinct(k - 1, k - 1);
            self.lemma_same_cells_run(other, player, r + dr, c + dc, dr, dc);
        }
    }

    proof fn lemma_same_cells_run(
        self,
        other: GameState,
        player: Player,
        r: int,
        c: int,
        dr: int,
        dc: int,
    )
        requires
            self.cells == other.cells,
            is_step(dr, dc),
        ensures
            self.opponent_run(player, r, c, dr, dc) == other.opponent_run(player, r, c, dr, dc),
            self.run_closed(player, r, c, dr, dc) == other.run_closed(player, r, c, dr, dc),
        decreases steps_left(r, dr) + steps_left(c, dc),
    {
        if in_bounds(r, c) && self.cell(r, c) == Cell::Disc(player.opponent()) {
            self.lemma_same_cells_run(other, player, r + dr, c + dc, dr, dc);
        }
    }

    /// A player has a legal move exactly when its list of legal moves is not empty.
    pub proof fn lemma_has_legal_move(self, player: Player)
        ensures
            self.has_legal_move(player) <==> self.legal_moves(player).len() > 0,
    {
        let moves = self.legal_moves(player);
        if self.has_legal_move(player) {
            let (r, c) = choose|r: int, c: int| self.is_legal(player, r, c);
            self.lemma_legal_moves_contains(player, (r, c));
        }
        if moves.len() > 0 {
            self.lemma_legal_moves_contains(player, moves[0]);
        }
    }
}

} // verus!
