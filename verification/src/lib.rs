//! Reading, cataloguing and replaying recorded detector streams.
//!
//! A dump is a flat sequence of records, each an 8-byte little-endian signed
//! length followed by that many payload bytes. Payloads are either JSON
//! metadata or opaque image data; nothing but an attempt to parse tells the
//! two apart.

pub mod cat;
pub mod cursor;
pub mod error;
pub mod framing;
pub mod inspect;
pub mod json;
pub mod message;
pub mod replay;
pub mod sender;
pub mod summary;
