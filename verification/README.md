# lattice

A chess engine library whose rules, move generation, search and text
formats are verified with Verus: the functions in `src/` carry `requires` /
`ensures` contracts and are proved against them, except the clock wrappers
in `src/search/clock.rs`, which are trusted.

## Layout

- `src/board/`: squares, pieces, moves, the board with make/unmake, FEN.
- `src/movegen/`: attack sets, pseudo-legal and legal move generation,
  perft (with a recursive leaf-count specification) and divide.
- `src/eval/`, `src/nnue.rs`: the tapered static evaluation and the
  network's feature indexing.
- `src/tt.rs`: the transposition table (`Vec`-backed, one slot per key).
- `src/search/`: alpha-beta with quiescence, static exchange evaluation,
  move ordering, iterative deepening with aspiration windows; the clock is
  the only trusted part (`std::time::Instant`). `src/search/minimax.rs`
  defines the unpruned minimax and quiescence values; quiescence, and the
  main search with the pruning switches and the table off, are proved to
  return fail-soft bounds of them (exact inside the window), and the root's
  move to attain its score.
- `src/uci.rs`, `src/uci/san.rs`: command parsing, the position command's
  move list, info/bestmove lines, SAN reading and writing.
- `src/tactics.rs`, `src/tactics/epd.rs`: EPD suites and their report
  figures.
- `src/bench.rs`: the fixed benchmark and its report.
- `src/tuner/`: the tuner's data format and configuration checks.
- `src/lattice_board/`, `src/lattice_engine/`: the board crate's types and
  the engine crate's table and limits.
- `app/main.rs`: the UCI loop, threads, files, and the floating-point
  parts (the late-move reduction table, report percentages). The tuner's
  training (floating-point optimisation over files) is not part of this
  crate; `src/tuner/` holds its data format and configuration checks.
- `tests/`: the test suite, run against the compiled library.
