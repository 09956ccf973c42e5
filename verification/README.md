# cortado

The move generator, search and self-play plumbing of a self-learning chess
engine, written in Verus: every function of the library carries a contract,
and the properties that tie the pieces together are stated and proved as
laws. Verus proves every contract but one: `fen::format_square`, which
writes a square's name with std's `format!`, is trusted, and its contract
says only that the name is the file letter followed by the rank's digits.

## Layout

- `src/` — the verified library.
  - `bits` — squares in 64-bit bitboards, and the bit facts the rest uses.
  - `attacks`, `magic_table` — leaper attack sets, slider rays, relevance
    masks, and the magic lookup tables (with the law that a lookup gives the
    ray-walked attack set). Move generation and attack detection compute
    slider attacks by walking the rays; the tables are built and checked
    against those walks, but the generator does not read them.
  - `board`, `board_laws` — the board, making and taking back moves; laws:
    taking back a move restores the board, moves keep the bitboards
    consistent, castling rights only go away.
  - `movegen`, `legality` — pseudo-legal generation, attack detection,
    legality, the legal move list, the end of a game, perft.
  - `attack_laws` — attack relations read both ways, and the law that attack
    detection finds exactly the squares enemy pieces attack.
  - `fen` — reading positions and square names.
  - `ordering`, `search`, `engine` — move ordering, the alpha-beta search
    (with the law that it bounds the minimax value), scores, the network's
    board encoding, and self-play games.
  - `fit_laws` — on a board whose castling rights have king and rook at
    home and whose en passant square is empty, every pseudo-legal move fits
    the board and leaves a board of the same kind.
  - `game_laws` — why a game ends: every move lowers a bound on the moves
    left (captures and pawn moves lower the material, quiet moves run the
    fifty-move clock).
- `tests/` — tests on concrete positions (perft counts, mates, FEN, tables).
- `app/` — the program around the library: the floating-point value
  network, writing games to a file, and debug printing.
