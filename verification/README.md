# rsomics_kbins

Per-column binning of a numeric matrix into ordinal bin codes or one-hot
indicator columns, with the `uniform` and `quantile` edge strategies of a
k-bins discretizer. The library in `src/` is verified with Verus.

Values are carried as IEEE-754 binary64 bit patterns (`u64`). The library
states and proves what it does with them: comparisons as the hardware makes
them, sorting by the total order, order statistics and percentile picks,
column ranges, constant columns, removal of near-duplicate edges, bin codes by
right insertion, one-hot expansion, column names, and the layout of a
tab-separated matrix. The arithmetic that creates new values (evenly spaced
edges, midpoints, interpolation, the width test between neighbouring edges,
parsing numbers) is done by the caller.

Layout:

- `src/binary64.rs` — ordering and comparison of encodings.
- `src/order.rs` — running minimum and maximum, sorting, order statistics.
- `src/quantile.rs` — which order statistics a percentile reads.
- `src/kbins.rs` — fitting columns, deduplicating edges, bin codes.
- `src/onehot.rs`, `src/names.rs` — one-hot rows and their column names.
- `src/encode.rs` — encoding whole matrices.
- `src/table.rs` — records, shape, names and value fields of a TSV matrix.
- `src/options.rs` — command-line choices and request checks.
- `app/` — the `rsomics-kbins` command: I/O, argument parsing and the
  binary64 arithmetic.
- `tests/` — tests of the library.
