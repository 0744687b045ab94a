# pmtiles_core

Reading and writing PMTiles v3 archives, verified with Verus.

- `src/` is the verified library:
  - `varint.rs`: the LEB128 varints of directories, with the proof that
    decoding an encoding gives the value back;
  - `tile_id.rs`: tile ids (zoom levels in turn, Hilbert order within a level),
    with the proofs that the tiles of a zoom level and the ids of its band
    correspond one to one, and that consecutive ids are neighbouring tiles;
  - `directory.rs`: parsing and writing directories, with the proof that a
    written directory parses back to its entries and that bytes after a
    directory do not change its parse;
  - `search.rs`: finding the entry for a tile id by binary search;
  - `header.rs`: the 127-byte header;
  - `compression.rs`: gzip through `flate2`, brotli and zstd through
    `pmtiles2`, each behind trusted wrappers;
  - `reader.rs`: opening an archive and the lookup from the root directory
    through leaf directories to a tile, as a step function and over an archive
    in memory;
  - `writer.rs`: building an archive from added tiles, with the proof that
    the order in which distinct tiles are added does not change it;
  - `roundtrip.rs`: the proof that every tile the writer stored reads back
    at the position it was added at.
- `app/` reads archives from files (positioned reads into the lookup's steps)
  and shares the writer between threads.
- `tests/` runs the library on concrete archives.
