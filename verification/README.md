# mf4_rs

Verified core of a toolkit for ASAM MDF 4 measurement files, written in
Verus.

- `src/fragments.rs`: a sorted store of file fragments serving byte-range
  reads (two binary searches per read), the failing and the gap-recording
  readers, and range coalescing.
- `src/writer/`: the block writer (8-byte alignment, zero padding, named
  block positions, link patching) over a growable in-memory sink or a
  fixed-size mapped image.
- `src/merge.rs`, `src/blocks.rs`: channel/group layout matching, merging of
  channel-group lists, conversion-chain fingerprints, VLSD payload decoding.
- `src/signal_ranges.rs`, `src/byte_ranges.rs`: data-block payload ranges and
  fragment readers built from parallel range/fragment lists.
- `app/lib.rs`: the file-system edge (creating output files, mapping them,
  persisting the finished image).
