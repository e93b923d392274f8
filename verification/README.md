# zenflate

DEFLATE, zlib and gzip compression and decompression, verified with Verus.

- `src/` is the library, with contracts that Verus proves:
  - `stream.rs`, `container.rs` and `codes.rs` say what the formats mean.
  - `decompress/` decodes buffers and streams: what comes out, and each error, is what
    the format says of the input.
  - `compress/` encodes: what comes out decodes to the input, takes no more room than the
    bound, and consists of the blocks that the strategy of the level makes. All levels
    but 0 write each block stored, with the static codes, or with codes of its own,
    whichever takes the fewest bits.
  - `checksum/` has Adler-32 and CRC-32, `matchfinder/` the searches for matches.
- `tests/` runs the library, partly against libdeflate.
- `app/` is ordinary Rust around it: standard readers, threads, errors for `?`, and the
  parts of full-optimal parsing that weigh costs in floating point.

Laws that relate several functions are the public proof functions whose names begin with
`law_`.
