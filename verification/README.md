# nelfusion

A chess move generator with its correctness proved in Verus: bitboards, FEN reading and
writing, move encoding, making and taking back moves, pseudo-legal move generation, magic
bitboard tables and perft node counting, plus the reply logic of a small UCI front end.

Layout:

- `src/board/`: bitboards and squares, the position and its FEN text, making and unmaking
  moves, and the FEN round-trip proof (`fen_lemmas.rs`).
- `src/movegen/`: move encoding and move lists, attack tables, magic bitboards, the move
  generator, attack detection, perft, and the proof that generated moves fit the board
  (`fits.rs`).
- `src/uci/`: what the engine answers to each UCI input line.
- `src/text.rs`: building strings character by character.
- `app/main.rs`: the program itself, reading standard input and printing the answers.
- `tests/`: tests run against the compiled library.

Main proved properties: taking back a move restores the position exactly; making a move keeps
every square holding at most one piece; every generated move fits the board it was generated
for; perft returns to the position it started from; reading back the FEN text of a position
gives the position; on tables whose every entry works (`tables_ok`, which `all_found`
confirms for generated tables) a magic lookup finds the same attacks as walking the rays; the
generated tables have the sizes and empty-board entries their masks call for; a bishop's
relevant mask is its empty-board attacks without the edge squares; the generator never
lists the same move twice.

Where a function leaves out inputs on which it would panic, a checked companion says exactly
which inputs those are: `fen_ok` for `Position::from_fen`, `perft_checked` for `perft`,
`divide_ok` for `perft_divide`, `try_generate_pseudo_legal` for `generate_pseudo_legal`, and
`MagicTables::all_found` for the lookups that need every magic number found.
