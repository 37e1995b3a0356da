//! Block positions and rotation angles.
//!
//! A position travels as one 64-bit big-endian word: `x` in the top 26 bits,
//! `z` in the next 26, `y` in the low 12, each in two's complement.

use crate::datatypes::bigendian::{
    be_bytes, be_value, lemma_be_bytes_of_value, lemma_be_value_of_bytes, lemma_spans, put_be,
    read_u64_be, signed,
};
use crate::datatypes::floats::Float;
use crate::decoding::{Decodable, DecodingError};
use crate::encoding::{Encodable, EncodingError};
use crate::reader::ByteReader;
use vstd::prelude::*;

verus! {

/// A rotation, as a single-precision number in the four-byte layout of one.
pub type Angle = Float;

/// The position of a block.
#[derive(Clone, Copy, Debug, PartialEq, Eq, Hash, Structural)]
pub struct Position {
    pub x: i32,
    pub y: i16,
    pub z: i32,
}

/// How many values a 26-bit field tells apart.
pub const HORIZONTAL: u32 = 0x400_0000;

/// How many values a 12-bit field tells apart.
pub const VERTICAL: u32 = 0x1000;

/// The word that holds the low 26 bits of `x` and `z` and the low 12 of `y`.
pub open spec fn pack(x: int, y: int, z: int) -> nat {
    ((x % HORIZONTAL as int) * 0x40_0000_0000 + (z % HORIZONTAL as int) * 0x1000 + (y
        % VERTICAL as int)) as nat
}

/// The position whose fields are the three fields of `word`, sign-extended.
pub open spec fn unpack(word: nat) -> Position {
    Position {
        x: signed(word / 0x40_0000_0000, HORIZONTAL as nat) as i32,
        y: signed(word % VERTICAL as nat, VERTICAL as nat) as i16,
        z: signed((word / 0x1000) % HORIZONTAL as nat, HORIZONTAL as nat) as i32,
    }
}

proof fn lemma_pack_bits(x: i32, y: i16, z: i32)
    by (bit_vector)
    ensures
        (((x as u64) & 0x3FF_FFFF) << 38) | (((z as u64) & 0x3FF_FFFF) << 12) | ((y as u64) & 0xFFF)
            == ((x as u32) % 0x400_0000u32) * 0x40_0000_0000 + ((z as u32) % 0x400_0000u32) * 0x1000
            + ((y as u16) % 0x1000u16),
        x >= 0 ==> (x as u32) == x,
        x < 0 ==> (x as u32) == x + 0x1_0000_0000,
        z >= 0 ==> (z as u32) == z,
        z < 0 ==> (z as u32) == z + 0x1_0000_0000,
        y >= 0 ==> (y as u16) == y,
        y < 0 ==> (y as u16) == y + 0x1_0000,
{
}

proof fn lemma_unpack_bits(word: u64)
    by (bit_vector)
    ensures
        word >> 38 == word / 0x40_0000_0000,
        (word >> 38) < 0x400_0000,
        (word >> 12) & 0x3FF_FFFF == (word / 0x1000) % 0x400_0000,
        word & 0xFFF == word % 0x1000,
{
}

proof fn lemma_extend_26(raw: u32)
    by (bit_vector)
    requires
        raw < 0x400_0000,
    ensures
        raw < 0x200_0000 ==> (((raw << 6) as i32) >> 6) == raw,
        raw >= 0x200_0000 ==> (((raw << 6) as i32) >> 6) == raw - 0x400_0000,
{
}

proof fn lemma_extend_12(raw: u16)
    by (bit_vector)
    requires
        raw < 0x1000,
    ensures
        raw < 0x800 ==> (((raw << 4) as i16) >> 4) == raw,
        raw >= 0x800 ==> (((raw << 4) as i16) >> 4) == raw - 0x1000,
{
}

impl Position {
    /// Whether every field fits the bits that the wire form has for it.
    pub open spec fn in_range(self) -> bool {
        &&& -0x200_0000 <= self.x < 0x200_0000
        &&& -0x800 <= self.y < 0x800
        &&& -0x200_0000 <= self.z < 0x200_0000
    }

    /// What the head of `bytes` decodes to.
    pub open spec fn parse_of(bytes: Seq<u8>) -> Result<(Position, nat), DecodingError> {
        if bytes.len() < 8 {
            Err(DecodingError::UnexpectedEof)
        } else {
            Ok((unpack(be_value(bytes.take(8))), 8))
        }
    }
}

impl DeepView for Position {
    type V = Position;

    open spec fn deep_view(&self) -> Position {
        *self
    }
}

impl Encodable for Position {
    open spec fn fits(&self) -> Result<(), EncodingError> {
        Ok(())
    }

    open spec fn wire(&self) -> Seq<u8> {
        be_bytes(pack(self.x as int, self.y as int, self.z as int), 8)
    }

    /// A field that does not fit its bits is cut down to them: the low bits
    /// are written, and nothing spills into the neighbouring field.
    fn encode(&self, writer: &mut Vec<u8>) -> (r: Result<(), EncodingError>) {
        let word: u64 = (((self.x as u64) & 0x3FF_FFFF) << 38) | (((self.z as u64) & 0x3FF_FFFF)
            << 12) | ((self.y as u64) & 0xFFF);
        proof {
            lemma_pack_bits(self.x, self.y, self.z);
        }
        put_be(writer, word, 8);
        Ok(())
    }
}

impl Decodable for Position {
    open spec fn parse(bytes: Seq<u8>) -> Result<(Position, nat), DecodingError> {
        Position::parse_of(bytes)
    }

    /// Nothing is read where the bytes are too few.
    open spec fn stop(bytes: Seq<u8>) -> nat {
        0
    }

    fn decode(reader: &mut ByteReader<'_>) -> (r: Result<Self, DecodingError>) {
        let word = match read_u64_be(reader.rest()) {
            Some(word) => word,
            None => {
                return Err(DecodingError::UnexpectedEof);
            },
        };
        reader.advance(8);
        let raw_x: u32 = (word >> 38) as u32;
        let raw_z: u32 = ((word >> 12) & 0x3FF_FFFF) as u32;
        let raw_y: u16 = (word & 0xFFF) as u16;
        proof {
            lemma_unpack_bits(word);
            lemma_extend_26(raw_x);
            lemma_extend_26(raw_z);
            lemma_extend_12(raw_y);
        }
        Ok(
            Position {
                x: ((raw_x << 6) as i32) >> 6,
                y: ((raw_y << 4) as i16) >> 4,
                z: ((raw_z << 6) as i32) >> 6,
            },
        )
    }
}

proof fn lemma_fields_of_word(hx: u64, hy: u64, hz: u64)
    by (bit_vector)
    requires
        hx < 0x400_0000,
        hy < 0x1000,
        hz < 0x400_0000,
    ensures
        hx * 0x40_0000_0000 + hz * 0x1000 + hy < 0x1_0000_0000_0000_0000,
        (hx * 0x40_0000_0000 + hz * 0x1000 + hy) / 0x40_0000_0000 == hx,
        (hx * 0x40_0000_0000 + hz * 0x1000 + hy) % 0x1000 == hy,
        ((hx * 0x40_0000_0000 + hz * 0x1000 + hy) / 0x1000) % 0x400_0000 == hz,
{
}

/// A position whose fields fit their bits decodes from its wire form to
/// itself, whatever follows it.
pub proof fn lemma_position_round_trip(p: Position, rest: Seq<u8>)
    requires
        p.in_range(),
    ensures
        Position::parse(p.wire() + rest) == Ok::<(Position, nat), DecodingError>((p, 8)),
        p.wire().len() == 8,
{
    let hx = (p.x as int % HORIZONTAL as int) as u64;
    let hz = (p.z as int % HORIZONTAL as int) as u64;
    let hy = (p.y as int % VERTICAL as int) as u64;
    assert(hx == if p.x >= 0 {
        p.x as int
    } else {
        p.x + 0x400_0000
    });
    assert(hz == if p.z >= 0 {
        p.z as int
    } else {
        p.z + 0x400_0000
    });
    assert(hy == if p.y >= 0 {
        p.y as int
    } else {
        p.y + 0x1000
    });
    lemma_fields_of_word(hx, hy, hz);
    let word = pack(p.x as int, p.y as int, p.z as int);
    assert(word == hx * 0x40_0000_0000 + hz * 0x1000 + hy);
    lemma_spans();
    lemma_be_value_of_bytes(word, 8);
    assert((p.wire() + rest).take(8) == p.wire());
    assert(unpack(word) == p);
}

/// Whatever eight bytes are decoded, the fields of the position fit their
/// bits: no input yields a position out of range.
pub proof fn lemma_decoded_position_in_range(bytes: Seq<u8>)
    ensures
        Position::parse(bytes) matches Ok((p, _)) ==> p.in_range(),
{
    if bytes.len() >= 8 {
        lemma_be_bytes_of_value(bytes.take(8));
        lemma_spans();
    }
}

} // verus!
