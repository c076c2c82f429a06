# hidefix

Reads HDF5 and netCDF-4 datasets through an index of their chunks, without the
HDF5 library at read time. The index holds, for every dataset of a file, where
its chunks are stored and how they are encoded, along with the attributes and
dimension names, so that the chunks of any part of a dataset can be fetched and
decoded independently of each other, from a file, from memory or from an object
store.

`src/` is the library, verified with [Verus](https://github.com/verus-lang/verus):

- `extent`: the part of a dataset that is to be read.
- `layout`: row-major positions.
- `idx`: the index. `dataset` and `any` hold the datasets and their chunks,
  `slices` cuts a selection into slices of chunks, `index` is the tree of groups,
  `attributes` the metadata, `serialized` the framing of a serialized index.
- `filters`: shuffle, gzip and byte order.
- `reader`: `chunk` decodes chunks, `plan` says what a read has to fetch and
  where it goes, `par`, `direct` and `any` read from the bytes of a file.
- `python`: what the Python module decides and computes.
- `names`, `text`, `path`: ordered maps of names, the parts of names, and the
  paths of files.

What the library relies on without proof are the few items marked
`external_body` or `assume_specification`: decompression (`flate2`), the root of
a flexbuffer (`flexbuffers`), the names of S3 regions and how they are formatted
(`aws-region`), and, of `std`, lossy decoding and quoting of text and the copying
and formatting of paths. Their doc comments say what is taken for granted.

`app/` is ordinary Rust around it: walking files with the HDF5 library, readers
of files with a handle per worker, serialization, S3 and the Python module.

`tests/` runs the library.
