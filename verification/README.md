# packed_histogram

A memory-optimised sparse histogram with a high dynamic range, written and verified in Verus.

A histogram is made for values from `low` to `high` with a number of significant decimal
digits. It keeps only the buckets that were hit, in ascending order, and their counts in one,
two, four or eight bytes each: as few as the largest count needs.

- `src/geometry.rs`: the map between values and flat indices.
- `src/model.rs`: the state that a histogram stands for, a count for every flat index.
- `src/sparse.rs`, `src/slots.rs`: how the populated indices and their counts stand for it.
- `src/packed.rs`: recording and querying.
- `src/stream.rs`, `src/varint.rs`, `src/packed/serialization.rs`: V2 streams.
- `src/wire.rs`, `src/zlib.rs`, `src/memory.rs`: what is taken from `byteorder`, `flate2` and
  `std` on trust, with what is claimed of it.
- `src/laws.rs`: what holds of histograms as a whole, such as that a stream is read back as the
  histogram that was written.
- `app/`: streams through `std::io`, and quantiles in floating point.
