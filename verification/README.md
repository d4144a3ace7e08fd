# maxwell

A chess engine's core, written in Verus: the bitboard position and its
move generator, making and taking back moves, Zobrist hashing, draw and
repetition rules, FEN reading and writing, the opening book, the move
ordering and transposition table, the alpha-beta search with its
quiescence search and one aspiration-window iteration of the deepening (the
loop over depths, which prints after each, is in `app/`), and a small mailbox game with its
own move generator. Every function in `src/` carries a
contract that Verus proves; laws that span several functions (a move taken
back restores the position, legal play keeps a position consistent, every
generated move of such a position can be made, packing a move and
unpacking it gives it back, ...) are public proof functions.

Layout:

- `src/` — the verified library (`board`, `movegen`, `board_status`,
  `consistency`, `fen`, `zobrist`, `perft`, `search`, `game`, and the
  smaller tables and containers they use).
- `tests/` — tests that run the library on concrete positions (perft counts,
  FEN round trips, special moves, draws and results).
- `app/` — the UCI command loop, the engine's turn (opening book, time
  budget, one UCI info line per depth) with the floating-point evaluation
  that it hands to the library's search, and printing; it calls the library and tests what the
  library's functions require before each call.
