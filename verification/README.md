# parcode

A graph-based storage format for Rust values that can be read lazily.

An object is decomposed into a tree of chunks. Chunks are written children
first, each as `[payload][children table][meta byte]`, and a 26-byte global
header at the end of the file points at the root chunk. A reader starts from
the header and touches only the chunks it needs: a vector is split into shards
described by a run-length table, so one item can be read by loading one shard;
a map is split into hash shards with a struct-of-arrays layout, so one key can
be looked up by scanning one shard's hashes.

## Layout

- `src/` is the library, verified with Verus:
  - `format`: meta byte, child references, global header;
  - `compression`: the compressor interface, the identity and LZ4 (through
    `lz4_flex`), and the registry of algorithms;
  - `graph`, `rt`: task graphs and the jobs they hold;
  - `executor`, `io`, `api`: turning a graph into the bytes of a file;
  - `reader`, `collection`, `map`: opening files, reading chunks, locating
    vector items and map entries;
  - `visitor_impls`: the sharding strategy of vectors;
  - `codec`: the bytes of run tables as bincode writes them;
  - `inspector`: structural reports;
  - `text`: decimal writing of numbers for reports and error messages;
  - `readback`: proofs that what is written reads back, and that every
    written file can be walked by the inspector.
- `app/` holds what works on generic Rust values and the outside world: the
  visitor and reader traits over serde types, lazy promises, file I/O, the
  parallel executor on rayon, and displayable copies of report types.
- `tests/` exercises the library on concrete files.
