//! Decoder for a binary replay container: length-framed chunks holding a
//! recursive tree of named, typed properties.
//!
//! The wire grammar (all integers little-endian):
//! - chunk: `size:u32 crc:u32 payload:u8[size]`
//! - text: `len:u32 body:u8[len-1] terminator:u8`
//! - dict: a sequence of entries ended by a sentinel entry named `"None"`
//! - entry: `name:text tag:text redundant:u64 payload`
//!
//! The byte-level grammar is written once as a family of spec functions
//! (`wire`), and the executable decoders (`decode`) are proved to return
//! exactly what the grammar says, for every input.

pub mod decode;
pub mod encode;
pub mod laws;
pub mod model;
pub mod wire;

pub use decode::decode_chunk;
pub use decode::decode_dict;
pub use decode::decode_sections;
pub use decode::decode_text;
pub use encode::encode_text;
pub use model::Chunk;
pub use model::DecodeError;
pub use model::FaultKind;
pub use model::PropertyValue;
