# dab-core

Dots and Boxes rules, endgame analysis and computer opponents, written in
Verus: every function under `src/` carries a contract that the verifier
proves, except one trusted wrapper whose contract is taken as given:
`sha256_digest` in `src/stamp.rs`, which calls the `sha2` digest.

## Layout

| Path | What it holds |
|------|---------------|
| `src/bitboard.rs` | Fixed-size bitsets; their view is the set of set bits |
| `src/board.rs` | Board geometry, edge and box numbering, packed positions |
| `src/moves.rs` | Drawing and undoing edges, completed boxes, legal moves |
| `src/game.rs` | Turns, scores, ownership, winner; play and undo |
| `src/cgt.rs`, `src/cgt/` | Strings-and-coins analysis: the corridor graph, chains and loops as its components, long-chain parity, control decisions |
| `src/engine.rs` | The engine trait; random, greedy and CGT engines |
| `src/solver.rs`, `src/solver/` | Exact solver: game value, alpha-beta with a transposition table, board symmetries |
| `src/mcts.rs` | Integer parts of the Monte Carlo engine (shortcut, rollouts, final choice) |
| `src/features.rs` | Feature planes and policy indices for the network engines |
| `src/cli.rs`, `src/stamp.rs` | Command-line and command parsing; model sidecar checks |
| `src/render.rs`, `src/playground.rs` | The terminal playground's text and what each input line does |
| `src/session.rs` | Open sessions of the WebSocket gateway and how each message is answered |
| `tests/` | Tests run against the compiled library |
| `app/` | The terminal program, the HTTP/WebSocket server, the browser bindings, and the floating-point searches (UCT, PUCT, network evaluation) |

## Main guarantees

- Edge and box numbering round-trips; a move followed by its undo restores the
  game; every play keeps the rules invariant.
- The endgame analysis reports exactly the connected components of the
  corridor graph, chains before loops, each group by its anchor box; any two
  analyses of one position are equal.
- The exact solver returns the game value, and the perfect engine an optimal
  move; its table shares results only between positions that a board
  symmetry maps onto each other, and symmetries keep the value.
