# root-vortex

Conversion of CERN ROOT trees to the Vortex columnar format.

- `src/` is the verified library:
  - `rcompress`: the chain of compressed frames of ROOT records (frame
    headers, zlib / xz / LZ4 blocks) and the compression settings;
  - `converter`: which branches become which columns, what a conversion
    reports, and the offsets of list columns;
  - `info`: the description of a tree;
  - `error`: the reader's errors.
- `app/` is the command line tool and the Python bindings: it opens ROOT files
  with oxyroot, builds and writes the Vortex arrays, and asks the library what
  to convert.
- `tests/` exercise the library, writing small ROOT files with oxyroot.
