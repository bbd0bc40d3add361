# mosaic_core

A columnar file format, written and read by verified code.

A file holds row groups. The columns of a row group take turns among the buckets,
and each bucket is encoded column by column (constant, dictionary, plain or all
null) and optionally compressed with zstd. Large buckets are paged, so that
a projection reads only the columns it names. A schema block, an index of the row
groups with their statistics, and a footer close the file.

## Layout

- `src/`: the library. Every function states what it returns over mathematical
  views of its arguments.
  - `varint`, `bytes`, `bits`: numbers and bits as bytes.
  - `types`, `values`, `batch`, `schema`: types of columns, cells and stored values,
    rows in memory, and the columns of a file.
  - `encoding`, `decoding`: what the bytes of a bucket are, and what they stand for;
    `bucket_writer` and `bucket_reader` compute both.
  - `blocks`: compressed blocks.
  - `stats`, `layout`, `image`: statistics, the index and the footer, and a file as a
    whole.
  - `input`, `reader`, `row_group`, `writer`: reading and writing files.
  - `round_trip`, `file_round_trip`, `session`: what was written is what is read.
  - `projection`: reading some columns gives what reading all of them gives.
- `tests/`: tests on concrete values.
- `app/`: Arrow arrays, files read by several threads, and the C and Java
  interfaces.

## What is trusted

The compressor and decompressor of the `zstd` crate (`src/blocks.rs`), and
`String::from_utf8` and `std::str::from_utf8` (`src/types.rs`). A file that a user of
the library implements is trusted to hold the bytes that it says it holds, and to
fail only as it says: not at all where it calls itself dependable.
