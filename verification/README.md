# spatio

An embedded key-value and spatial database whose core is verified with Verus.

## Layout

- `src/` — the verified library.
  - `store.rs`: the key space with expiration (a sorted map from byte keys to
    items, an index of expiration times kept in step with it, statistics), reads
    that hide expired items, replay of the append-only file, and the laws that
    relate writes, reads, deletes, cleanup and replay.
  - `ordered.rs`, `expiry.rs`, `order.rs`: the sorted key space, the expiration
    index (a `BTreeMap` from times to keys), lexicographic order on byte strings, byte search, and the upper bound
    of a prefix scan.
  - `aof.rs`: the append-only-file record format (encode, parse, replay) and
    the bookkeeping of file size and rewrites.
  - `batch.rs`: atomic batches, applied only when the work that filled them
    succeeded.
  - `storage.rs`: the in-memory storage backend.
  - `namespace.rs`: namespaced keys.
  - `keys.rs`, `trajectory.rs`, `stats.rs`: keys of spatial and trajectory
    data, trajectory queries over a time window, statistics over stored keys.
  - `cluster.rs`: seed-and-grow clustering over a neighbour relation.
  - `report.rs`, `bench.rs`: naming and grouping for the benchmark report, and
    the reading of benchmark lines printed by `cargo bench`.
  - `types.rs`, `error.rs`, `buffer.rs`: items, options, statistics, errors, and
    the `bytes` buffers seen by their contents.
- `app/` — the program around the library: floating-point geometry (points,
  distances, the geohash spatial index, the neighbour lists that clustering
  starts from, coordinates, line strings and polygons), file I/O for the append-only file, the
  locked database handle, configuration formats, and the benchmark report
  generator.
- `tests/` — tests of the library.

Clock readings, TTLs and expiration times are nanoseconds (since the Unix
epoch for points in time) as `u128`, wide enough for any `SystemTime` after
the epoch and any `Duration`, so that a clock reading plus a TTL is exact.
The append-only file records the expiration that a write gives an item,
absolute or from a TTL, in whole seconds.
