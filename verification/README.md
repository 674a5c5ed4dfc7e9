# filler

A player for the Filler game, with a viewer for the game's logs.

- `src/` is the library, verified with Verus:
  - `models.rs`: the board, the piece and the players' marks;
  - `grid.rs`: sums, minima and scans over the cells of a rectangle;
  - `text.rs`: words, numbers, prefixes and byte lengths of a line;
  - `input.rs`: reading the player's marks, the board and the piece from
    the lines received so far, and trimming the piece;
  - `logic.rs`: where each player's cells are, where a piece may go, the
    distance between the players and the choice of the best move;
  - `valid.rs`: a second form of the placement check;
  - `visualizer.rs`: reading boards out of a log, cell colours and
    places, the window's size and moving between boards.
- `app/` is the program: it reads standard input and prints the moves, or,
  run as `view <log_file>`, shows a log in an SDL2 window.
- `tests/` runs the library on concrete games.
