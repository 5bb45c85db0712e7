# goal_hdc

Finds hockey goals whose puck tracks resemble a given goal, by encoding each
track as a binary hypervector.

- `src/` is the verified library:
  - `hypervec`: XOR, set-bit counts and the Hamming distance (`dist`), with
    its algebraic laws.
  - `random`: the calls into `rand` (fair bits, sampling without repetition,
    shuffling), each stated for every outcome.
  - `level_grid`: the grid of level hypervectors; the distance between two
    pixels is proved to be linear in their offset along each axis.
  - `encoding`: permutation arrays, window encoding, majority bundling and the
    hypervector of a goal.
  - `trim`: the start/end trimming of a puck track, as a scan over per-instant
    facts.
  - `preprocessing`: play-by-play records, which goals are processed and
    rotated, puck-data presence, last-n selection.
  - `ranking`: goals ranked by distance (stable sort).
- `app/` is the command-line program: reading JSON folders, floating-point
  coordinates (clamping, rotation, distances to the rink's landmarks, scaling
  to pixels), Parquet/NumPy import and export.
