# iqdb_hnsw

A Hierarchical Navigable Small World (HNSW) approximate nearest-neighbour
index whose graph logic is written and proved in Verus.

## Layout

- `src/` is the verified library. It owns the configuration and its checks,
  the seeded SplitMix64 layer generator, the per-node columns, the layered
  adjacency, the live-id table, and every algorithm over them: beam search at
  one layer (`layer_search`), k-NN search (`search`), insertion with the
  diverse-neighbour heuristic and pinned trimming (`insert`, `heuristic`),
  tombstone deletion and the layer histogram (`index`). Searches and
  insertions run as state machines: they ask for distances through a
  `Request` and resume when the caller supplies one order-preserving integer
  key per distance. Metadata filters are evaluated by `iqdb-filter`
  (`filtering`). `laws` states what holds of every well-formed index.
- `app/` is the `iqdb_index::IndexCore` / `iqdb_index::Index` implementation
  around the library. It keeps the `f32` vector rows and the caller's
  `VectorId`s, computes distances with `iqdb-distance`, draws the
  floating-point layer from the library's generator, and turns the library's
  hits into `iqdb_types::Hit`s.
- `tests/units.rs` exercises the library directly (with a one-dimensional
  distance); `tests/index.rs` drives it end to end with the real distance
  kernels, filters and traits, and checks recall against `iqdb-flat`.
