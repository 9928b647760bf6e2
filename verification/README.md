# xiangqi

Chinese Chess (Xiangqi): the rules, the game record, an alpha-beta engine and
the session logic of a board window, written in Verus.

Layout:

- `src/board.rs` — pieces, coordinates and the board; `make`/`unmake`.
- `src/moves.rs` — move generation, check, the flying-general rule, legal
  moves, piece values and the check/chase classification of moves.
- `src/game.rs` — game state: applying and undoing plies, notation, the
  position hashes, end-of-game status with the CCA repetition rules, and
  save/load.
- `src/ai/` — the engine interface, the opening book, the reading of the
  AlphaZero sidecar's reply line, and the searcher (iterative deepening, PVS,
  transposition table, quiescence, SEE, move ordering, repetition scoring,
  the pick among the best root moves).
- `src/ui/app.rs` — the headless session: clicks, board flipping, undo,
  resignation, engine turns and the status line.
- `tests/` — rule, exchange, session and behaviour tests.
- `app/` — the program: the egui window, engine threads, save files, the
  AlphaZero sidecar process and sound.
