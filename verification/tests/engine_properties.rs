use othello::{
    Cell, DiscCounts, Game, GreedyStrategy, MoveError, MoveResult, Player, Position, Strategy, SIZE,
};

fn at(row: usize, col: usize) -> Position {
    Position::new(row, col).unwrap()
}

#[test]
fn opponent_is_the_other_player_and_back() {
    assert_eq!(Player::Black.opponent(), Player::White);
    assert_eq!(Player::White.opponent(), Player::Black);
    assert_eq!(Player::Black.opponent().opponent(), Player::Black);
}

#[test]
fn cell_owner_and_emptiness() {
    assert_eq!(Cell::Empty.player(), None);
    assert_eq!(Cell::Disc(Player::White).player(), Some(Player::White));
    assert!(Cell::Empty.is_empty());
    assert!(!Cell::Disc(Player::Black).is_empty());
}

#[test]
fn positions_exist_only_on_the_board() {
    assert!(Position::new(0, 0).is_some());
    assert!(Position::new(SIZE - 1, SIZE - 1).is_some());
    assert!(Position::new(SIZE, 0).is_none());
    assert!(Position::new(0, SIZE).is_none());
    let p = at(2, 5);
    assert_eq!((p.row(), p.col()), (2, 5));
    assert_eq!((p.human_row(), p.human_col()), (3, 6));
}

#[test]
fn human_coordinates_start_at_one() {
    assert_eq!(Position::from_human(1, 1), Some(at(0, 0)));
    assert_eq!(Position::from_human(SIZE, SIZE), Some(at(SIZE - 1, SIZE - 1)));
    assert_eq!(Position::from_human(0, 1), None);
    assert_eq!(Position::from_human(1, SIZE + 1), None);
    let p = at(4, 6);
    assert_eq!(Position::from_human(p.human_row(), p.human_col()), Some(p));
}

#[test]
fn disc_counts_total_and_winner() {
    let counts = DiscCounts { black: 10, white: 7 };
    assert_eq!(counts.total(), 17);
    assert_eq!(counts.winner(), Some(Player::Black));
    assert_eq!(DiscCounts { black: 3, white: 9 }.winner(), Some(Player::White));
    assert_eq!(DiscCounts { black: 5, white: 5 }.winner(), None);
}

#[test]
fn cells_off_the_board_are_none() {
    let game = Game::new();
    assert_eq!(game.cell(SIZE, 0), None);
    assert_eq!(game.cell(0, SIZE), None);
    assert_eq!(game.cell(0, 0), Some(Cell::Empty));
    assert_eq!(game.cell_at(at(3, 4)), Cell::Disc(Player::Black));
}

#[test]
fn default_game_is_the_starting_position() {
    let game = Game::default();
    assert_eq!(game.turn(), Player::Black);
    assert_eq!(game.score(), (2, 2));
    assert_eq!(game.valid_moves(Player::Black), Game::new().valid_moves(Player::Black));
}

#[test]
fn legality_checks_agree() {
    let game = Game::new();
    assert!(game.is_valid_move(Player::Black, 2, 3));
    assert!(game.is_valid_position(Player::Black, at(2, 3)));
    assert!(!game.is_valid_move(Player::Black, 2, 4));
    assert!(!game.is_valid_move(Player::Black, 3, 3));
    assert!(!game.is_valid_move(Player::Black, SIZE, 3));
    assert_eq!(game.flip_count_for(Player::Black, at(2, 3)), 1);
    assert_eq!(game.flip_count_for(Player::Black, at(3, 3)), 0);
    assert!(game.current_player_has_moves());
    assert!(!game.is_game_over());
    assert_eq!(game.winner(), None);
}

#[test]
fn valid_positions_match_valid_moves() {
    let game = Game::new();
    let positions = game.valid_positions(Player::White);
    let moves: Vec<(usize, usize)> = positions.iter().map(|p| (p.row(), p.col())).collect();
    assert_eq!(moves, game.valid_moves(Player::White));
}

#[test]
fn a_move_adds_one_disc_and_turns_over_its_captures() {
    let mut game = Game::new();
    let captured = game.flip_count_for(Player::Black, at(2, 3));
    let (black, white) = game.score();
    let empty = game.empty_count();

    assert_eq!(game.play_position(at(2, 3)), Ok(MoveResult::Played));

    assert_eq!(game.score(), (black + captured + 1, white - captured));
    assert_eq!(game.empty_count(), empty - 1);
    let counts = game.disc_counts();
    assert_eq!(counts.total() + game.empty_count(), SIZE * SIZE);
}

#[test]
fn captures_in_several_directions_are_all_turned() {
    let mut board = [[Cell::Empty; SIZE]; SIZE];
    board[0][1] = Cell::Disc(Player::White);
    board[0][2] = Cell::Disc(Player::White);
    board[0][3] = Cell::Disc(Player::Black);
    board[1][0] = Cell::Disc(Player::White);
    board[2][0] = Cell::Disc(Player::Black);
    board[5][5] = Cell::Disc(Player::White);
    let mut game = Game::from_board(board, Player::Black);

    assert_eq!(game.play(0, 0), Ok(MoveResult::GameOver));
    for (row, col) in [(0, 0), (0, 1), (0, 2), (0, 3), (1, 0), (2, 0)] {
        assert_eq!(game.cell(row, col), Some(Cell::Disc(Player::Black)));
    }
    assert_eq!(game.cell(5, 5), Some(Cell::Disc(Player::White)));
    assert_eq!(game.score(), (6, 1));
    assert!(game.is_game_over());
    assert_eq!(game.winner(), Some(Player::Black));
}

#[test]
fn a_disc_that_does_not_close_the_line_captures_nothing() {
    let mut board = [[Cell::Empty; SIZE]; SIZE];
    board[0][1] = Cell::Disc(Player::White);
    board[0][2] = Cell::Disc(Player::White);
    board[4][4] = Cell::Disc(Player::Black);
    let mut game = Game::from_board(board, Player::Black);

    assert_eq!(game.flip_count_for(Player::Black, at(0, 0)), 0);
    assert_eq!(
        game.play(0, 0),
        Err(MoveError::NoFlips { player: Player::Black, position: at(0, 0) })
    );
    assert_eq!(game.cell(0, 0), Some(Cell::Empty));
    assert_eq!(game.turn(), Player::Black);
}

#[test]
fn after_an_accepted_move_the_player_to_move_can_move() {
    let mut game = Game::new();
    let moves = [(2, 3), (2, 2), (3, 2), (4, 2)];
    for (row, col) in moves {
        let result = game.play(row, col).expect("each move is legal");
        assert_ne!(result, MoveResult::GameOver);
        assert!(game.current_player_has_moves());
    }
}

#[test]
fn no_move_is_accepted_once_the_game_is_over() {
    let mut board = [[Cell::Disc(Player::White); SIZE]; SIZE];
    board[7][7] = Cell::Empty;
    let mut game = Game::from_board(board, Player::Black);

    assert!(game.is_game_over());
    assert!(!game.current_player_has_moves());
    assert_eq!(
        game.play(7, 7),
        Err(MoveError::NoFlips { player: Player::Black, position: at(7, 7) })
    );
    assert_eq!(game.winner(), Some(Player::White));
    assert_eq!(game.empty_count(), 1);
}

#[test]
fn a_tied_game_has_no_winner() {
    let mut board = [[Cell::Disc(Player::Black); SIZE]; SIZE];
    for row in 0..SIZE / 2 {
        for col in 0..SIZE {
            board[row][col] = Cell::Disc(Player::White);
        }
    }
    let game = Game::from_board(board, Player::White);
    assert!(game.is_game_over());
    assert_eq!(game.score(), (32, 32));
    assert_eq!(game.winner(), None);
}

#[test]
fn greedy_choice_among_equals_is_the_last_in_reading_order() {
    let game = Game::new();
    assert_eq!(game.best_move_for(Player::Black), Some(at(5, 4)));
    assert_eq!(GreedyStrategy.choose_move(&game, Player::White), Some(at(5, 3)));
    let full = Game::from_board([[Cell::Disc(Player::Black); SIZE]; SIZE], Player::White);
    assert_eq!(full.best_move_for(Player::White), None);
    assert_eq!(GreedyStrategy.choose_move(&full, Player::White), None);
}

#[test]
fn play_position_reports_occupied_squares() {
    let mut game = Game::new();
    assert_eq!(
        game.play_position(at(4, 4)),
        Err(MoveError::Occupied { position: at(4, 4) })
    );
    assert_eq!(game.score(), (2, 2));
}

#[test]
fn players_and_positions_are_written_for_people() {
    assert_eq!(Player::Black.to_string(), "Black");
    assert_eq!(Player::White.to_string(), "White");
    assert_eq!(at(2, 3).to_string(), "3 4");
    assert_eq!(at(7, 0).to_string(), "8 1");
}

#[test]
fn refused_moves_are_explained() {
    assert_eq!(
        MoveError::OutOfBounds { row: SIZE, col: 0 }.to_string(),
        "Rows and columns must be between 1 and 8. You entered row 9, column 1."
    );
    assert_eq!(
        MoveError::OutOfBounds { row: usize::MAX, col: 41 }.to_string(),
        format!(
            "Rows and columns must be between 1 and 8. You entered row {}, column 42.",
            usize::MAX
        )
    );
    assert_eq!(
        MoveError::Occupied { position: at(3, 3) }.to_string(),
        "Position 4 4 is already occupied."
    );
    assert_eq!(
        MoveError::NoFlips { player: Player::White, position: at(0, 0) }.to_string(),
        "White cannot move at 1 1 because it flips no discs."
    );
}

#[test]
fn move_reports_name_the_next_player() {
    let mut game = Game::new();
    let result = game.play(2, 3).unwrap();
    assert_eq!(
        othello::move_result_text(&game, result),
        "Move accepted. White is up next."
    );

    let mut board = [[Cell::Disc(Player::Black); SIZE]; SIZE];
    board[0][0] = Cell::Empty;
    board[0][1] = Cell::Disc(Player::White);
    board[0][6] = Cell::Disc(Player::White);
    board[0][7] = Cell::Empty;
    let mut passed = Game::from_board(board, Player::Black);
    let result = passed.play(0, 0).unwrap();
    assert_eq!(
        othello::move_result_text(&passed, result),
        "The opponent has no legal moves, so Black gets another turn."
    );
}

#[test]
fn final_report_gives_score_and_winner() {
    let mut board = [[Cell::Disc(Player::Black); SIZE]; SIZE];
    board[0][0] = Cell::Empty;
    board[0][1] = Cell::Disc(Player::White);
    let mut game = Game::from_board(board, Player::Black);
    let result = game.play(0, 0).unwrap();
    assert_eq!(result, MoveResult::GameOver);
    let expected = "Game over. Final score: Black 64, White 0. Black wins.";
    assert_eq!(othello::move_result_text(&game, result), expected);
    assert_eq!(othello::final_result_text(&game), expected);

    let mut tied = [[Cell::Disc(Player::Black); SIZE]; SIZE];
    for row in 0..SIZE / 2 {
        for col in 0..SIZE {
            tied[row][col] = Cell::Disc(Player::White);
        }
    }
    assert_eq!(
        othello::final_result_text(&Game::from_board(tied, Player::Black)),
        "Game over. Final score: Black 32, White 32. It is a tie."
    );
}

#[test]
fn hints_name_the_greedy_move() {
    let game = Game::new();
    assert_eq!(othello::hint_text(&game), "Greedy hint for Black: 6 5. It flips 1 disc(s).");
    let full = Game::from_board([[Cell::Disc(Player::Black); SIZE]; SIZE], Player::White);
    assert_eq!(othello::hint_text(&full), "White has no legal moves.");
}

#[test]
fn a_player_without_moves_is_named() {
    assert_eq!(othello::no_moves_text(Player::White), "White has no legal moves.");
    assert_eq!(othello::no_moves_text(Player::Black), "Black has no legal moves.");
}

#[test]
fn a_copied_game_is_the_same_game() {
    let mut game = Game::new();
    game.play(2, 3).unwrap();
    let copy = game.clone();
    assert_eq!(copy.turn(), game.turn());
    assert_eq!(copy.score(), game.score());
    assert_eq!(copy.valid_moves(Player::White), game.valid_moves(Player::White));
}
