# thermite_core

The discrete core of a small machine-learning toolkit, written in Verus: every
function in `src/` carries a contract that Verus proves.

- `src/` — the verified library: train/test splitting (plain and stratified, with
  exact largest-remainder quotas), label and one-hot encoding with their round
  trips, DBSCAN cluster labelling over precomputed neighbourhoods, random walks on
  a graph, bootstrap sampling, feature selection (RFE ranking, column selection),
  successive-halving schedules, per-class confusion counts, a count vectorizer,
  CSR validation, and the argument checks of the nearest-neighbour and manifold
  estimators. Calls into `rand`, `sprs` and `std` string functions stand behind
  small trusted wrappers whose contracts are stated in their doc comments.
- `tests/` — tests run against the compiled library.
- `app/` — the floating-point estimators (linear models, trees, k-means, mixtures,
  manifolds, scalers, recommenders) in ordinary Rust over `ndarray`, calling the
  verified library for their discrete steps.
