use othello::{Cell, Game, MinimaxStrategy, MoveResult, Player, Position, Strategy, SIZE};

fn at(row: usize, col: usize) -> Position {
    Position::new(row, col).unwrap()
}

#[test]
fn minimax_reports_its_depth() {
    assert_eq!(MinimaxStrategy::new(4).depth(), 4);
    assert_eq!(MinimaxStrategy::new(0).depth(), 0);
}

#[test]
fn illegal_moves_have_no_score() {
    let game = Game::new();
    let strategy = MinimaxStrategy::new(2);
    assert_eq!(strategy.score_move_for(&game, Player::Black, at(0, 0)), None);
    assert_eq!(strategy.score_move_for(&game, Player::Black, at(3, 3)), None);
    assert_eq!(strategy.score_move_for(&game, Player::White, at(2, 3)), None);
}

#[test]
fn one_move_deep_scores_the_disc_margin_after_the_move() {
    let game = Game::new();
    let shallow = MinimaxStrategy::new(1);
    assert_eq!(shallow.score_move_for(&game, Player::Black, at(2, 3)), Some(3));
    assert_eq!(shallow.score_move_for(&game, Player::White, at(2, 4)), Some(3));
    let zero = MinimaxStrategy::new(0);
    assert_eq!(zero.score_move_for(&game, Player::Black, at(2, 3)), Some(3));
}

#[test]
fn two_moves_deep_expects_the_best_reply() {
    let game = Game::new();
    let strategy = MinimaxStrategy::new(2);
    assert_eq!(strategy.score_move_for(&game, Player::Black, at(2, 3)), Some(0));
}

#[test]
fn minimax_picks_the_last_of_equally_good_moves() {
    let game = Game::new();
    assert_eq!(MinimaxStrategy::new(1).choose_move(&game, Player::Black), Some(at(5, 4)));
    let full = Game::from_board([[Cell::Disc(Player::Black); SIZE]; SIZE], Player::White);
    assert_eq!(MinimaxStrategy::new(3).choose_move(&full, Player::White), None);
}

#[test]
fn minimax_prefers_the_move_that_wins_more_discs() {
    let mut board = [[Cell::Empty; SIZE]; SIZE];
    board[0][1] = Cell::Disc(Player::White);
    board[0][2] = Cell::Disc(Player::White);
    board[0][3] = Cell::Disc(Player::Black);
    board[1][0] = Cell::Disc(Player::White);
    board[2][0] = Cell::Disc(Player::Black);
    board[7][6] = Cell::Disc(Player::White);
    board[7][5] = Cell::Disc(Player::Black);
    let game = Game::from_board(board, Player::Black);
    let strategy = MinimaxStrategy::new(1);
    let choice = strategy.choose_move(&game, Player::Black);
    assert_eq!(choice, Some(at(0, 0)));
    assert_eq!(strategy.score_move_for(&game, Player::Black, at(0, 0)), Some(6));
    assert_eq!(strategy.score_move_for(&game, Player::Black, at(7, 7)), Some(2));
}

#[test]
fn a_chosen_move_can_be_played() {
    let mut game = Game::new();
    let strategy = MinimaxStrategy::new(3);
    for _ in 0..6 {
        let player = game.turn();
        let Some(position) = strategy.choose_move(&game, player) else {
            break;
        };
        assert!(strategy.score_move_for(&game, player, position).is_some());
        let result = game.play_position(position).expect("the chosen move is legal");
        if result == MoveResult::GameOver {
            break;
        }
    }
}

#[test]
fn ai_reports_name_depth_square_player_and_score() {
    assert_eq!(
        othello::ai_move_text(4, at(5, 4), Player::Black, -3, "Move accepted. White is up next."),
        "AI searched 4 future move(s) and chose 6 5 for Black with score -3. Move accepted. White is up next."
    );
    assert_eq!(
        othello::ai_move_text(1, at(0, 0), Player::White, 12, "done"),
        "AI searched 1 future move(s) and chose 1 1 for White with score 12. done"
    );
    assert_eq!(
        othello::ai_move_text(2, at(7, 7), Player::White, isize::MIN, ""),
        format!("AI searched 2 future move(s) and chose 8 8 for White with score {}. ", isize::MIN)
    );
}
