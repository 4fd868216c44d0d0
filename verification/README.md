# copc

A library for reading [COPC](https://copc.io/) (Cloud-Optimized Point Cloud) files piece by piece,
with support for a temporal index over GPS time. It is written in Rust and verified with
[Verus](https://github.com/verus-lang/verus).

COPC files organise LAS/LAZ point data in an octree. The library decides which ranges of a file to
read, and makes sense of the bytes that were read:

- the LAS header, the COPC info and the LAZ parameters (`header`),
- the pages of the octree hierarchy, all of them or those that a region needs (`hierarchy`),
- the nodes that a region needs, and their decompressed chunks (`reader`, `chunk`),
- the pages of the temporal index, all of them or those that a time range needs (`temporal_cache`),
- the nodes and points of a time range (`temporal_node`, `temporal_query`).

## Layout

- `src/` is the library. Every public function in it states what it returns, and that is proved,
  except where a function does no more than call an outside crate. What holds of several functions
  together is stated by the `law_*` proof functions; what loading goes through, round by round, in
  `hierarchy_load` and `temporal_load`.
- The LAS and LAZ formats are read by the `las` and `laz` crates, and little-endian numbers by
  `byteorder`. What these calls return is believed, not proved: it is stated in `bytes`, `fields`,
  `header`, `point_cloud` and `chunk`, above each call.
- `app/` reads files: an async `ByteSource` trait, local files, and the loops that read what the
  library asks for. The boxes of octree nodes are floating-point arithmetic and are computed there.
- `tests/` runs the library on concrete values.

Coordinates and times are held by their bit patterns (`Binary64`), and compared as IEEE 754 says.
