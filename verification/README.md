# novelty_search

Novelty search and objective-based evolution of neural controllers for a
robot in a maze, with the decision logic verified by Verus.

## Layout

- `src/` — the verified library
  - `grid.rs`: a maze of square cells as a graph (walks, connectivity,
    passage counts, loop-freeness)
  - `eller.rs`: Eller's algorithm; every maze it builds is perfect (all
    cells connected, no loop)
  - `segments.rs`: wall segments of a maze grid, in cell units
  - `order_key.rs`: integer keys that order binary64 values
  - `selection.rs`: arg-max/arg-min scans and tournament selection
  - `evolution.rs`, `novelty.rs`: the bookkeeping and selection decisions of
    one generation of each search; the nearest-neighbour choice of a
    novelty score; the archive-threshold rule
  - `explainer.rs`: export metadata and file name, the winner of a run and
    its lineage through the recorded selections
  - `rng.rs`: the random draws
- `app/` — the interactive viewer: simulation with floating point (robot,
  network, ray casting), the egui interface, JSON export
- `tests/` — tests of the library
