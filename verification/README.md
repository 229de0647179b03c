# tui_mines

Minesweeper for the terminal, with its rules verified by Verus.

- `src/` is the verified library:
  - `model.rs`: the game (board, cursor, opening, flood fill, chording,
    flags, winning, the clock) and its contracts;
  - `flood.rs`: the step lemmas behind the flood fill and chording;
  - `grid.rs`: the mathematical view of a board (neighbourhoods, counts,
    the relations between two boards) and its lemmas;
  - `placement.rs`: where the mines go (candidates outside the first click's
    3x3 block, the shuffle, the sites);
  - `leaderboard.rs`: the ranked table of best times;
  - `controller.rs`: which command a key asks for;
  - `layout.rs`, `look.rs`, `text.rs`: screen rectangles, square faces and
    board labels;
  - `clock.rs`: the clock calls, the only trusted items.
- `app/` is the terminal front end: keys, drawing with ratatui, sounds, and
  `scores.json` through serde.
- `tests/` runs the library on concrete games.
