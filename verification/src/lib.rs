//! Binary codec and packet dispatch for a stateful, versioned game protocol.
//!
//! Values are turned into bytes by [`encoding::Encodable`] and read back by
//! [`decoding::Decodable`]; what either does is stated over plain byte
//! sequences, so that the two can be held against each other.

pub mod animation;
pub mod datatypes;
pub mod decoding;
pub mod encoding;
pub mod naming;
pub mod nbt;
pub mod packets;
pub mod position;
pub mod reader;
pub mod statistics;
pub mod types;

pub use datatypes::varint::VarInt;
