# Arboliva

A Sudoku solver for classic rules and several variants (anti-knight, killer cages,
little killer diagonals, thermometers), written in Verus. Puzzles are read from YAML,
candidates are narrowed by constraint propagation, and a backtracking search with the
fewest-candidates heuristic finishes the job.

## Layout

- `src/grid/`: positions, grids, candidate cells (a bit mask per cell) and the text
  views of solved and unsolved grids.
- `src/constraints/`: the `Constraint` trait, one module per rule under `variants/`,
  the `ConstraintSet` that runs them together until nothing changes, and a builder
  that reads constraints from YAML descriptions.
- `src/model/`: puzzles, clues and rules.
- `src/io/`: the YAML document model, the call into `serde_yaml` that reads a text
  into it, and the reader that turns a document into a `Puzzle`.
- `src/solver/`: the search.
- `app/main.rs`: reads the file `puzzles/thermometer.yaml`, hands its text to the
  library, solves the puzzle and prints the grid, or `No solution found`.

## What is proved

- Every constraint only removes candidates that no assignment obeying it can use, and
  reports a contradiction only when no such assignment fits the grid.
- `update_grid_for_position`, which the classic and anti-knight rules use, gives exactly
  the grid of its row-major pass over the marked cells, and `None` exactly when that
  pass empties a cell, leaving the grid as the pass stood at that removal.
- The killer, little killer and thermometer updates give exactly the grid of pruning the
  touched cages, diagonals or thermometers in index order, each with the candidates the
  earlier ones left, and `None` at the first that cannot be filled.
- `ActivePositionsSet` keeps the last grids up to its capacity, and its aggregate is
  their union.
- The propagation loop of `ConstraintSet::update` terminates, keeps every solution,
  and stops only when the grid is stable: no rule would rule out anything more (a
  fixed value is gone from its peers, and every candidate of a cage, diagonal or
  thermometer is used by some filling of it), and once each cell holds one value,
  the rules hold.
- `solve` returns a grid only when it is the one assignment that respects the givens
  and obeys every rule (killer cages without cells must ask for a sum of zero), reports
  "No solution found" or "Contradiction found" only when there is none, and "Multiple
  solution found" only when there are at least two.
- The YAML reader returns exactly the puzzle that the document describes, or the
  first error in reading order.
