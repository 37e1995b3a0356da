//! Codecs of the primitive wire types.

pub mod bigendian;
pub mod floats;
pub mod integers;
pub mod sized;
pub mod strings;
pub mod unique_id;
pub mod varint;
