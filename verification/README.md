# rusty_dragon

A chess rules engine with full FIDE legality (castling, en passant,
promotion and under-promotion, check, checkmate, stalemate, the fifty-move
rule and threefold repetition), FEN and UCI move notation, move-path
counting (perft) and a negamax alpha-beta search, verified with Verus.

Layout:

- `src/board.rs`: the 64-square board, its model `Pos`, moves, the record
  of a position kept for repetition, position keys.
- `src/enpassant.rs`: when an en passant capture is possible, which
  decides whether two positions are the same for the repetition rule.
- `src/attack.rs`: attacked squares, king location, check.
- `src/attackers.rs`: attacks stated piece by piece (a square is attacked
  exactly when some piece attacks it along a clear line).
- `src/movegen.rs`: pseudo-legal moves, making a move, legal moves.
- `src/search.rs`: evaluation, repetition, perft, negamax, root search,
  and their checked forms that report where they could not run.
- `src/distinct.rs`: the move lists repeat no move.
- `src/game.rs`: a game as the sequence of its positions, and the
  repetition rule stated over it.
- `src/fide.rs`: the rules of chess stated move by move, and the proof
  that in a sane position the legal moves are exactly the moves they allow.
- `src/sanity.rs`: sane positions, and the proof that legal moves keep
  positions sane and that nothing fails on a sane position.
- `src/text.rs`, `src/uci.rs`, `src/fen.rs`: words, numbers, square and
  move notation, FEN reading and writing.
- `src/alphabeta.rs`: plain negamax, and the proof that alpha-beta
  pruning finds the same score and move.
- `src/engine.rs`: the `Engine` a user interface drives.
- `src/laws.rs`: properties spanning several operations (FEN and UCI
  round trips, castling rules, perft recursion, the search proposes a
  legal move, ...).
- `app/lib.rs`: the `wasm-bindgen` surface for the browser.
