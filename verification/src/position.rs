//! Board coordinates that are always on the board.
use vstd::prelude::*;

verus! {

/// The number of rows, and of columns, of the board.
pub const SIZE: usize = 8;

/// A square of the board, counted from 0 at the top-left corner.
/// A `Position` is always on the board.
#[derive(Copy, Clone, PartialEq, Eq, Debug, Hash, Structural)]
pub struct Position {
    row: usize,
    col: usize,
}

impl View for Position {
    type V = (int, int);

    /// The square as (row, column).
    closed spec fn view(&self) -> (int, int) {
        (self.row as int, self.col as int)
    }
}

impl Position {
    #[verifier::type_invariant]
    spec fn on_board(self) -> bool {
        self.row < SIZE && self.col < SIZE
    }

    /// The position at `row`, `col`, if that square is on the board.
    pub fn new(row: usize, col: usize) -> (found: Option<Position>)
        ensures
            found is Some <==> (row < SIZE && col < SIZE),
            found matches Some(p) ==> p@ == (row as int, col as int),
    {
        if row < SIZE && col < SIZE {
            Some(Position { row, col })
        } else {
            None
        }
    }

    /// A square known to be on the board.
    pub(crate) fn at(row: usize, col: usize) -> (p: Position)
        requires
            row < SIZE,
            col < SIZE,
        ensures
            p@ == (row as int, col as int),
    {
        Position { row, col }
    }

    /// The position from 1-based row and column numbers, as a person counts them.
    pub fn from_human(row: usize, col: usize) -> (found: Option<Position>)
        ensures
            found is Some <==> (1 <= row <= SIZE && 1 <= col <= SIZE),
            found matches Some(p) ==> p@ == (row - 1, col - 1),
    {
        if 1 <= row && row <= SIZE && 1 <= col && col <= SIZE {
            Position::new(row - 1, col - 1)
        } else {
            None
        }
    }

    pub fn row(self) -> (r: usize)
        ensures
            r == self@.0,
            r < SIZE,
    {
        proof {
            use_type_invariant(&self);
        }
        self.row
    }

    pub fn col(self) -> (c: usize)
        ensures
            c == self@.1,
            c < SIZE,
    {
        proof {
            use_type_invariant(&self);
        }
        self.col
    }

    /// The 1-based row number.
    pub fn human_row(self) -> (r: usize)
        ensures
            r == self@.0 + 1,
            1 <= r <= SIZE,
    {
        self.row() + 1
    }

    /// The 1-based column number.
    pub fn human_col(self) -> (c: usize)
        ensures
            c == self@.1 + 1,
            1 <= c <= SIZE,
    {
        self.col() + 1
    }
}

/// A position is determined by its square: two positions naming the same
/// square are the same value.
pub broadcast proof fn lemma_view_injective(a: Position, b: Position)
    ensures
        #![trigger a@, b@]
        a@ == b@ ==> a == b,
{
}

/// The squares named by a sequence of positions.
pub open spec fn squares_of(positions: Seq<Position>) -> Seq<(int, int)> {
    positions.map_values(|p: Position| p@)
}

/// The square named by an optional position.
pub open spec fn square_of(position: Option<Position>) -> Option<(int, int)> {
    match position {
        Some(p) => Some(p@),
        None => None,
    }
}

pub proof fn lemma_squares_of_add(a: Seq<Position>, b: Seq<Position>)
    ensures
        squares_of(a + b) == squares_of(a) + squares_of(b),
{
    assert(squares_of(a + b) =~= squares_of(a) + squares_of(b));
}

pub proof fn lemma_squares_of_push(a: Seq<Position>, p: Position)
    ensures
        squares_of(a.push(p)) == squares_of(a).push(p@),
{
    assert(squares_of(a.push(p)) =~= squares_of(a).push(p@));
}

} // verus!
