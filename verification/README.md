# diskann

Approximate nearest-neighbour search over vectors, verified with Verus: a graph index in the
manner of Vamana, with labels and filters, quantized codes, an index that vectors can be added to
and deleted from, and an index of postings that splits and merges them in place.

Numbers are handled as binary32 patterns (`u32`). The order of patterns is part of the library
(`word`); arithmetic and metrics come from an implementation of `metric::Distance`.

## Layout

- `src/` is the library.
  - Search: `beam`, `course`, `candidate`, `queue`, `select`, `word`.
  - The graph index: `vamana`, `prune`, `csr`, `index`, `storage`, `wire`, `bytes`.
  - Labels: `filter`, `filtered`.
  - Codes: `pq`, `kmeans`, `sq`, `rabitq`, `rotation`, `bits`, `quantizer`, `codec`, `quantized`.
  - Changing indexes: `delta`, `incremental`, `image`, `like`, `orderly`.
  - Postings: `postings`, `spfresh`, `bisect`, `history`, `upkeep`, `routing`, `probe`, `meta`,
    `reopen`, `audit`, `snapshot`, `alike`.
  - The rest: `formats`, `metric`, `random`, `simd`, `error`.
- `app/` has files, memory maps, locks, worker threads, object stores and Python bindings around
  the library, for plain `f32` vectors.
- `tests/` runs the library with the kernels of `numkong`.

Public proof functions state what holds of the library as a whole, such as that what is written
reads back, that a wide beam finds the nearest, that two runs of a search return one list, or that
an unmarked block was not written.
