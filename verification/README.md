# shogi_engine

A shogi engine (normal rules and the "ouke" variant with the HM, KO/WK and
NIN pieces), written in Verus. The library states in its contracts what each
function computes and proves it.

Layout:

- `src/types.rs` — piece codes, board and hand types, promotion tables.
- `src/movegen.rs` — destination squares of each piece, drop squares,
  promotion rules and the full legal move list, each specified by a spec
  function in generation order.
- `src/check.rs` — king search, check detection, move legality and
  checkmate (mutually recursive with the pawn-drop-mate rule).
- `src/apply.rs` — playing a move on a board and hands.
- `src/eval.rs` — the static evaluation.
- `src/tt.rs` — the transposition table and the position hash, with proofs
  that a store is read back and that the hash sees any single change.
- `src/search.rs` — alpha-beta search with iterative deepening; the clock
  is a closure supplied by the caller. A search the clock does not stop
  returns what the spec functions `search` and `deepen` describe (and
  visits `search_nodes` nodes); a stopped one shows the clock reading that
  stopped it. The search asks only that no capture within its depth can push
  a hand count past 255 (`captures_fit`), which holds whenever at most 255
  pieces are in play. Proofs that the table's best move is searched first and
  that a one-ply search takes the best evaluation.
- `src/alphabeta.rs` — proof that alpha-beta without table probes returns
  the plain minimax value of the legal moves.
- `src/mcts.rs` — the integer parts of Monte Carlo tree search: move
  priorities, best-move picking, guided playouts and moving a kept tree's
  root along a played move.
- `src/legality.rs` — proofs that the generator produces exactly the legal
  moves (none leaves the king in check, none is missed), that drops and
  promotions obey the rules, that checkmate means having no move other
  than an ouke NIN promotion or reversion, and that a move keeps the pieces
  in play (so that at most 255 pieces in play leave no hand count to
  overflow).
- `src/symmetry.rs` — proofs that check, checkmate, the legal moves, piece
  moves and the evaluation treat both players alike.
- `src/reflection.rs` — proofs that piece moves and the evaluation are the
  same when the board is reflected across its centre file.
- `src/input.rs` — reading boards and hands from flat lists.
- `app/` — WebAssembly bindings and the floating-point MCTS tree.
- `tests/` — scenarios run against the compiled library.
