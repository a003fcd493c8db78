use othello::{Cell, Game, GreedyStrategy, MoveError, MoveResult, Player, Position, Strategy, SIZE};

fn position(row: usize, col: usize) -> Position {
    Position::new(row, col).expect("test position should be in bounds")
}

fn game_from(board: [[Cell; SIZE]; SIZE], turn: Player) -> Game {
    Game::from_board(board, turn)
}

#[test]
fn new_game_uses_standard_setup() {
    let game = Game::new();

    assert_eq!(game.turn(), Player::Black);
    assert_eq!(game.score(), (2, 2));
    assert_eq!(game.empty_count(), 60);
    assert_eq!(game.cell(3, 3), Some(Cell::Disc(Player::White)));
    assert_eq!(game.cell(3, 4), Some(Cell::Disc(Player::Black)));
    assert_eq!(game.cell(4, 3), Some(Cell::Disc(Player::Black)));
    assert_eq!(game.cell(4, 4), Some(Cell::Disc(Player::White)));
}

#[test]
fn starting_legal_moves_are_found_in_board_order() {
    let game = Game::new();

    assert_eq!(
        game.valid_moves(Player::Black),
        vec![(2, 3), (3, 2), (4, 5), (5, 4)]
    );
    assert_eq!(
        game.valid_moves(Player::White),
        vec![(2, 4), (3, 5), (4, 2), (5, 3)]
    );
}

#[test]
fn playing_a_move_places_and_flips_discs() {
    let mut game = Game::new();

    let result = game.play(2, 3);

    assert_eq!(result, Ok(MoveResult::Played));
    assert_eq!(game.turn(), Player::White);
    assert_eq!(game.score(), (4, 1));
    assert_eq!(game.cell(2, 3), Some(Cell::Disc(Player::Black)));
    assert_eq!(game.cell(3, 3), Some(Cell::Disc(Player::Black)));
}

#[test]
fn invalid_moves_return_specific_errors_without_mutating_board() {
    let mut game = Game::new();

    assert_eq!(
        game.play(3, 3),
        Err(MoveError::Occupied {
            position: position(3, 3)
        })
    );
    assert_eq!(
        game.play(0, 0),
        Err(MoveError::NoFlips {
            player: Player::Black,
            position: position(0, 0)
        })
    );
    assert_eq!(
        game.play(SIZE, 0),
        Err(MoveError::OutOfBounds { row: SIZE, col: 0 })
    );
    assert_eq!(game.turn(), Player::Black);
    assert_eq!(game.score(), (2, 2));
}

#[test]
fn turn_is_skipped_when_opponent_has_no_legal_moves() {
    let mut board = [[Cell::Disc(Player::Black); SIZE]; SIZE];
    board[0][0] = Cell::Empty;
    board[0][1] = Cell::Disc(Player::White);
    board[0][6] = Cell::Disc(Player::White);
    board[0][7] = Cell::Empty;
    let mut game = game_from(board, Player::Black);

    let result = game.play(0, 0);

    assert_eq!(result, Ok(MoveResult::OpponentPassed));
    assert_eq!(game.turn(), Player::Black);
    assert_eq!(game.cell(0, 1), Some(Cell::Disc(Player::Black)));
    assert!(game.is_valid_move(Player::Black, 0, 7));
    assert!(game.valid_moves(Player::White).is_empty());
}

#[test]
fn game_over_is_reported_when_neither_player_can_move() {
    let mut board = [[Cell::Disc(Player::Black); SIZE]; SIZE];
    board[0][0] = Cell::Empty;
    board[0][1] = Cell::Disc(Player::White);
    let mut game = game_from(board, Player::Black);

    let result = game.play(0, 0);

    assert_eq!(result, Ok(MoveResult::GameOver));
    assert!(game.is_game_over());
    assert_eq!(game.winner(), Some(Player::Black));
    assert_eq!(game.empty_count(), 0);
}

#[test]
fn best_move_uses_flip_count_across_directions() {
    let mut board = [[Cell::Empty; SIZE]; SIZE];
    board[0][1] = Cell::Disc(Player::White);
    board[0][2] = Cell::Disc(Player::White);
    board[0][3] = Cell::Disc(Player::Black);
    board[1][0] = Cell::Disc(Player::White);
    board[2][0] = Cell::Disc(Player::Black);
    let game = game_from(board, Player::Black);
    let best = position(0, 0);

    assert_eq!(game.flip_count_for(Player::Black, best), 3);
    assert_eq!(game.best_move_for(Player::Black), Some(best));

    let strategy = GreedyStrategy;
    assert_eq!(strategy.choose_move(&game, Player::Black), Some(best));
}

#[test]
fn cloned_game_state_can_restore_a_previous_turn() {
    let mut game = Game::new();
    let previous = game.clone();

    game.play(2, 3).expect("opening move should be legal");
    game = previous;

    assert_eq!(game.turn(), Player::Black);
    assert_eq!(game.score(), (2, 2));
    assert_eq!(game.cell(3, 3), Some(Cell::Disc(Player::White)));
}
