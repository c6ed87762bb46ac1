# boardgames

Rules, move generation, rendering and simple players for several board games,
with their contracts proved by Verus.

- `src/blokus`: Blokus (Classic 4-player 20x20 and Duo 2-player 14x14):
  piece orientations, legal placements, scoring, greedy and random players,
  greedy playouts, agent descriptions for tournaments.
- `src/connect4`: Connect 4 states, the referee, tactical and random
  opponents, round-based planning dynamics, agent descriptions, rendering.
- `src/connection`: Connect 4 over a bit-set board.
- `src/hex`: Hex with disjoint-set forests for connectivity, the swap rule,
  shortest-path and rollout evaluators, the proof that a full board
  always has a winner (`src/hex/outcome.rs`), and the proof that in every
  position reached by play a win is a chain of stones joining the player's
  edges (`src/hex/connect.rs`).
- `src/sequence`: the Sequence card game: board layout, sequence detection,
  turns, observations and determinization, rendering.
- `src/sat.rs`, `src/tzf8`: CNF clauses and 2048 tile rendering.
- `src/text.rs`, `src/numeral.rs`, `src/random.rs`: text helpers, the
  syntax of decimal numbers with a point or an exponent, and the random
  choices drawn from `rand`.

`app/` holds the command-line program: terminal play, and the evaluators that
weigh the library's integer counts with floating-point weights.
`tests/` runs the library on concrete positions.
