# rust_hdf5

The logic of an HDF5 reader and writer in Verus: what stands where in a file, what has
to be read or written next, and what the bytes of filters, headers and superblocks mean.
The code under `src/` is executable Rust whose contracts are proved.

- `src/format` - superblocks, object headers, checksums, the szip, n-bit and scale-offset
  filters, fixed and extensible arrays, header messages as values.
- `src/io` - space allocation, locking policy, the arithmetic of chunks, tiles and
  selections, the catalog of a reader, the state of a writer, streams of frames.
- `src/group.rs`, `src/swmr.rs`, `src/types.rs` - groups, streaming files and element types.
- `tests` - tests of the library, whole files in memory among them.
- `app` - files on disk: handles, locks, memory maps and the loops that perform what the
  library asks for. A `Codec` gives the byte forms of the remaining structures.

The library does no input or output. A function that needs something from the file says
what it needs, and is called again with it. Roundtrip laws are public proof functions
beside the functions that they relate.
