# ziso

A verified library for ZSO disc images (LZ4 blocks behind a shifted offset
index), with a multithreaded command-line tool around it.

- `src/` — the library, verified with Verus:
  - `format.rs`: header, position shift, index entries, errors;
  - `codec.rs`: the LZ4 block calls of `lzzzz`, with their stated contracts;
  - `compress.rs`: block storage (LZ4 or raw, aligned), runs of blocks (and
    why the result does not depend on how the runs are shared among
    workers), the index writer, whole-image compression;
  - `decompress.rs`: header and index checks, reading runs, whole-image
    decompression (each block read at its index position, raw blocks cut to
    the image bytes they stand for);
  - `roundtrip.rs`: decompressing a compressed image gives it back, whenever
    its shifted positions fit the 31 position bits of the index entries (the
    one limit of the format); the index of a compressed image;
  - `runs.rs`: reading in runs gives what reading block by block gives;
  - `reorder.rs`: the writer's in-order release of finished runs;
  - `args.rs`, `types.rs`, `utils.rs`: options, shared types, byte encodings.
- `app/` — the program: command line, files, threads and logging.
- `tests/` — tests of the library.
