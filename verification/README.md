# parquet_decode

Decoding of Parquet file structures, verified with Verus.

- `src/thrift.rs`, `src/wire.rs`, `src/varint.rs`, `src/le.rs`, `src/bits.rs`: the
  Thrift compact protocol and the integers that it and Parquet are made of.
- `src/meta.rs`: file and page metadata.
- `src/levels.rs`: level and dictionary-index streams (RLE / bit-packed hybrid).
- `src/decode.rs`: page decompression and PLAIN values.
- `src/model.rs`, `src/schema.rs`, `src/assemble.rs`: issues, byte lineage, logical
  values, the schema tree, and the assembly of shredded columns into rows.
- `src/shred.rs`: shredding as a mathematical function, and the proof that assembly
  inverts it.
- `src/json.rs`, `src/text.rs`, `src/equality.rs`: logical values as JSON, text for
  messages, equality of bytes and of floating-point numbers.
- `tests/`: the library from outside.
- `app/`: ordinary Rust around the library: `anyhow` errors, serialisable records and
  floating-point numbers.

Floating-point numbers are kept as IEEE 754 bit patterns throughout the library.
