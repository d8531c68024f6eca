# water_sort

The rules, state and solvers of a water sort puzzle, with their contracts
proved by Verus.

## Layout

- `src/` is the verified library.
  - `bits`: fixed-size bit sets and the packed fields read from them.
  - `state`: the puzzle state, its legal moves, and applying and undoing a
    move. `reachable` holds the invariant that every reachable state keeps.
  - `ranges`, `starting`: checking a starting description and building the
    state it describes.
  - `history`: moves that can be taken back and redone.
  - `layout`, `level`: the board a level is drawn on, and a whole level.
  - `search`: a depth-first search with a lossy table of visited states, a
    breadth-first search, and the hash they share.
  - `view`, `decor`, `input`, `hud`, `anim`, `session`: what the board
    shows, which safes share a door, what a click asks for, the banner and
    buttons, which animation plays, and a game session over a level.
  - `rng`, `sizes`: a small random number generator and storage sizes.
- `tests/` runs the library on concrete puzzles.
- `app/` is the command-line program: reading levels, storing progress, and
  running the solvers.

The laws of the library are public proof functions, named `law_...` or
`lemma_...`, next to the functions they speak of.
