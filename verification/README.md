# othello

An Othello (Reversi) engine whose rules are proved with Verus, and a desktop
front end for it.

- `src/rules.rs` states the rules as spec functions over `GameState`: which
  discs a move captures in each of the eight directions, which moves are legal,
  the board after a move, whose turn follows, and the disc counts.
- `src/game.rs` is the engine (`Game`); every operation is proved against the
  rules.
- `src/laws.rs` holds properties that span operations (how a move changes the
  disc counts, whose turn follows a move, that legal moves come in reading
  order, ...).
- `src/strategy.rs` and `src/search.rs` are computer players: greedy (most
  captures) and minimax (disc margin after a fixed number of moves).
- `src/text.rs` writes players, positions, refused moves and move reports as text.
- `app/main.rs` is the clickable board (eframe/egui).
- `tests/` runs the engine on concrete games.
