//! A small binary codec: values are written to a byte buffer and read back
//! from a byte reader, in a fixed big-endian wire format with 32-bit length
//! prefixes. Every encoder and decoder is specified over a mathematical model
//! of the value, and each decodable type proves that decoding its own
//! encoding gives the value back.
pub mod big_endian;
pub mod codec;
pub mod error;
pub mod laws;
pub mod maps;
pub mod optional;
pub mod reader;
pub mod records;
pub mod scalars;
pub mod sequences;
pub mod text;

pub use codec::{DeSerialize, Serialize};
pub use error::Error;
pub use maps::{
    deserialize_btree_map, deserialize_btree_set, deserialize_hash_map, deserialize_hash_set,
    serialize_btree_map, serialize_btree_set, serialize_hash_map, serialize_hash_set,
};
pub use reader::ByteReader;
