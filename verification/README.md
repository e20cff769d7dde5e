# rklearn

Fast scikit-learn compatible components in Rust (scalers, ridge and Huber
regression, k-nearest neighbors, k-means), with the integer logic at their core
verified with Verus.

## Layout

- `src/` — the verified library (no floating point):
  - `rng.rs` — the linear congruential generator used to seed k-means, the seed of
    each k-means run, and the partial Fisher-Yates pick of random initial samples.
  - `selection.rs` — nearest-neighbor selection on order keys: the bounded
    neighbor heap used by tree searches, `find_k_nearest` (a merge sort of the
    positions by key, O(n log n)), and the nearest-centroid choice.
  - `tree.rs` — the layout of KD-trees (median splits) and ball trees (sorted
    halves): which samples each node holds, in which order, and each split key.
  - `voting.rs` — class extraction, majority vote, per-class vote counts and
    accuracy counting for the k-nearest-neighbors classifier.
  - `clusters.rs` — the number of samples assigned to each k-means cluster.
  - `config.rs` — parameter checks and the choice of search structure.
  - `arrays.rs` — the ndarray arrays of neighbor indices and labels, read through
    a few trusted accessors.
- `app/` — the Python extension module (pyo3/numpy), the floating-point
  arithmetic (distances, statistics, scaling, linear solves, centroid updates) and
  the rayon parallelism, calling into the library.
- `tests/` — tests of the library.

Distances and feature values enter the library as `u64` order keys. The key map
in `app/order.rs` is meant to send every non-NaN `f64` to a key whose integer order
is the numeric order, so that selections made on keys are the selections made on
values; that map is ordinary, unverified code in `app/`, and the library's
contracts speak of the keys only.
