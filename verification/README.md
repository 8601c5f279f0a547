# serde_ply

Reading and writing PLY (polygon file format) data, in the ASCII format and in the
two binary formats, with contracts proved by Verus.

## Layout

- `src/` is the verified library.
  - `header.rs`: the header model, `PlyHeader::parse` (line by line, as the format
    says) and the header writer; `header_proof.rs` proves that a written header
    reads back as itself.
  - `scalar.rs`, `words.rs`, `text.rs`: formats, scalar types and their names,
    whitespace, words, lines and decimal numbers.
  - `value.rs`: the values of rows (scalars, lists, and the text of floating-point
    values in the ASCII format).
  - `binary.rs`: scalars in the binary formats, through `byteorder`; `ascii.rs`:
    tokens and integers in the ASCII format.
  - `row.rs`: reading and writing rows; `reader.rs`: reading whole data element by
    element; `chunked.rs`: reading data that arrives in pieces.
  - `writer.rs`: the header that the shape of data calls for, and writing data;
    `serializer.rs`: a value-by-value writer.
  - `roundtrip.rs`: rows and whole data read back as they were written;
    `resume.rs`: reading in pieces gives what reading at once gives; `stream.rs`:
    a whole file fed to the chunked reader in pieces, split anywhere, gives every
    row of every element in order.
- `tests/`: tests of the library.
- `app/`: serde on top of the library: `from_reader`, `from_bytes`, `from_str`,
  `to_bytes`, `to_writer`, `to_string`, chunked reading into serde types, and the
  errors as `std::error::Error` values. Floating-point text (parsing and printing
  `f32`/`f64` in the ASCII format) is done there.
