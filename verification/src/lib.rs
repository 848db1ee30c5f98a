//! Decoding of Parquet file structures: the Thrift compact protocol, file and
//! page metadata, level and dictionary-index streams, PLAIN values, and the
//! assembly of shredded columns back into logical rows.
//!
//! The contracts are proved. Trusted are those of the functions that only call
//! `snap`, `serde_json` or the standard library, and of two conversions of the
//! standard library; their doc comments say what is claimed.
pub mod assemble;
pub mod bits;
pub mod decode;
pub mod equality;
pub mod json;
pub mod le;
pub mod levels;
pub mod meta;
pub mod model;
pub mod schema;
pub mod shred;
pub mod text;
pub mod thrift;
pub mod varint;
pub mod wire;
