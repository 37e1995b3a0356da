//! Fixed-width integers on the wire: single bytes, and 16-, 32- and 64-bit
//! signed numbers in big-endian order.

use crate::datatypes::bigendian::{
    be_bytes, be_value, lemma_be_value_of_bytes, lemma_patterns, lemma_signed_of_pattern,
    lemma_spans, pattern, put_be, read_i16_be, read_i32_be, read_i64_be, signed, span,
};
use crate::decoding::{Decodable, DecodingError};
use crate::encoding::{Encodable, EncodingError};
use crate::reader::ByteReader;
use vstd::prelude::*;

verus! {

/// What a field of `width` bytes that holds a signed big-endian number among
/// `modulus` patterns decodes to.
pub open spec fn parse_signed(bytes: Seq<u8>, width: nat, modulus: nat) -> Result<
    (int, nat),
    DecodingError,
> {
    if bytes.len() < width {
        Err(DecodingError::UnexpectedEof)
    } else {
        Ok((signed(be_value(bytes.take(width as int)), modulus), width))
    }
}

proof fn lemma_byte_casts(b: u8, v: i8)
    by (bit_vector)
    ensures
        b < 128 ==> (b as i8) == b,
        b >= 128 ==> (b as i8) == b - 256,
        v >= 0 ==> (v as u8) == v,
        v < 0 ==> (v as u8) == v + 256,
{
}

impl Encodable for u8 {
    open spec fn fits(&self) -> Result<(), EncodingError> {
        Ok(())
    }

    open spec fn wire(&self) -> Seq<u8> {
        seq![*self]
    }

    fn encode(&self, writer: &mut Vec<u8>) -> (r: Result<(), EncodingError>) {
        writer.push(*self);
        Ok(())
    }
}

impl Decodable for u8 {
    open spec fn parse(bytes: Seq<u8>) -> Result<(u8, nat), DecodingError> {
        if bytes.len() == 0 {
            Err(DecodingError::UnexpectedEof)
        } else {
            Ok((bytes[0], 1))
        }
    }

    /// Nothing is read where the bytes are too few.
    open spec fn stop(bytes: Seq<u8>) -> nat {
        0
    }

    fn decode(reader: &mut ByteReader<'_>) -> (r: Result<Self, DecodingError>) {
        reader.read_u8()
    }
}

impl Encodable for i8 {
    open spec fn fits(&self) -> Result<(), EncodingError> {
        Ok(())
    }

    open spec fn wire(&self) -> Seq<u8> {
        seq![pattern(*self as int, 0x100) as u8]
    }

    fn encode(&self, writer: &mut Vec<u8>) -> (r: Result<(), EncodingError>) {
        proof {
            lemma_byte_casts(0, *self);
        }
        writer.push(*self as u8);
        Ok(())
    }
}

impl Decodable for i8 {
    open spec fn parse(bytes: Seq<u8>) -> Result<(i8, nat), DecodingError> {
        if bytes.len() == 0 {
            Err(DecodingError::UnexpectedEof)
        } else {
            Ok((signed(bytes[0] as nat, 0x100) as i8, 1))
        }
    }

    /// Nothing is read where the bytes are too few.
    open spec fn stop(bytes: Seq<u8>) -> nat {
        0
    }

    fn decode(reader: &mut ByteReader<'_>) -> (r: Result<Self, DecodingError>) {
        let b = reader.read_u8()?;
        proof {
            lemma_byte_casts(b, 0);
        }
        Ok(b as i8)
    }
}

impl Encodable for i16 {
    open spec fn fits(&self) -> Result<(), EncodingError> {
        Ok(())
    }

    open spec fn wire(&self) -> Seq<u8> {
        be_bytes(pattern(*self as int, 0x1_0000), 2)
    }

    fn encode(&self, writer: &mut Vec<u8>) -> (r: Result<(), EncodingError>) {
        proof {
            lemma_patterns(*self, 0, 0);
        }
        put_be(writer, (*self as u16) as u64, 2);
        Ok(())
    }
}

impl Decodable for i16 {
    open spec fn parse(bytes: Seq<u8>) -> Result<(i16, nat), DecodingError> {
        match parse_signed(bytes, 2, 0x1_0000) {
            Ok((v, used)) => Ok((v as i16, used)),
            Err(e) => Err(e),
        }
    }

    /// Nothing is read where the bytes are too few.
    open spec fn stop(bytes: Seq<u8>) -> nat {
        0
    }

    fn decode(reader: &mut ByteReader<'_>) -> (r: Result<Self, DecodingError>) {
        match read_i16_be(reader.rest()) {
            Some(v) => {
                reader.advance(2);
                Ok(v)
            },
            None => Err(DecodingError::UnexpectedEof),
        }
    }
}

impl Encodable for i32 {
    open spec fn fits(&self) -> Result<(), EncodingError> {
        Ok(())
    }

    open spec fn wire(&self) -> Seq<u8> {
        be_bytes(pattern(*self as int, 0x1_0000_0000), 4)
    }

    fn encode(&self, writer: &mut Vec<u8>) -> (r: Result<(), EncodingError>) {
        proof {
            lemma_patterns(0, *self, 0);
        }
        put_be(writer, (*self as u32) as u64, 4);
        Ok(())
    }
}

impl Decodable for i32 {
    open spec fn parse(bytes: Seq<u8>) -> Result<(i32, nat), DecodingError> {
        match parse_signed(bytes, 4, 0x1_0000_0000) {
            Ok((v, used)) => Ok((v as i32, used)),
            Err(e) => Err(e),
        }
    }

    /// Nothing is read where the bytes are too few.
    open spec fn stop(bytes: Seq<u8>) -> nat {
        0
    }

    fn decode(reader: &mut ByteReader<'_>) -> (r: Result<Self, DecodingError>) {
        match read_i32_be(reader.rest()) {
            Some(v) => {
                reader.advance(4);
                Ok(v)
            },
            None => Err(DecodingError::UnexpectedEof),
        }
    }
}

impl Encodable for i64 {
    open spec fn fits(&self) -> Result<(), EncodingError> {
        Ok(())
    }

    open spec fn wire(&self) -> Seq<u8> {
        be_bytes(pattern(*self as int, 0x1_0000_0000_0000_0000), 8)
    }

    fn encode(&self, writer: &mut Vec<u8>) -> (r: Result<(), EncodingError>) {
        proof {
            lemma_patterns(0, 0, *self);
        }
        put_be(writer, *self as u64, 8);
        Ok(())
    }
}

impl Decodable for i64 {
    open spec fn parse(bytes: Seq<u8>) -> Result<(i64, nat), DecodingError> {
        match parse_signed(bytes, 8, 0x1_0000_0000_0000_0000) {
            Ok((v, used)) => Ok((v as i64, used)),
            Err(e) => Err(e),
        }
    }

    /// Nothing is read where the bytes are too few.
    open spec fn stop(bytes: Seq<u8>) -> nat {
        0
    }

    fn decode(reader: &mut ByteReader<'_>) -> (r: Result<Self, DecodingError>) {
        match read_i64_be(reader.rest()) {
            Some(v) => {
                reader.advance(8);
                Ok(v)
            },
            None => Err(DecodingError::UnexpectedEof),
        }
    }
}

/// A signed number written in `width` bytes reads back as itself, whatever
/// follows it.
pub proof fn lemma_signed_round_trip(v: int, width: nat, modulus: nat, rest: Seq<u8>)
    requires
        modulus == span(width),
        -(modulus as int) <= 2 * v < modulus,
    ensures
        be_bytes(pattern(v, modulus), width).len() == width,
        parse_signed(be_bytes(pattern(v, modulus), width) + rest, width, modulus) == Ok::<
            (int, nat),
            DecodingError,
        >((v, width)),
{
    lemma_signed_of_pattern(v, modulus);
    lemma_be_value_of_bytes(pattern(v, modulus), width);
    let written = be_bytes(pattern(v, modulus), width);
    assert((written + rest).take(width as int) == written);
}

/// A byte decodes from its wire form to itself, whatever follows it.
pub proof fn lemma_u8_round_trip(v: u8, rest: Seq<u8>)
    ensures
        u8::parse(v.wire() + rest) == Ok::<(u8, nat), DecodingError>((v, 1)),
        v.wire().len() == 1,
{
    assert((v.wire() + rest)[0] == v);
}

/// A signed byte decodes from its wire form to itself, whatever follows it.
pub proof fn lemma_i8_round_trip(v: i8, rest: Seq<u8>)
    ensures
        i8::parse(v.wire() + rest) == Ok::<(i8, nat), DecodingError>((v, 1)),
        v.wire().len() == 1,
{
    assert((v.wire() + rest)[0] == pattern(v as int, 0x100) as u8);
}

/// A 16-bit number decodes from its wire form to itself, whatever follows it.
pub proof fn lemma_i16_round_trip(v: i16, rest: Seq<u8>)
    ensures
        i16::parse(v.wire() + rest) == Ok::<(i16, nat), DecodingError>((v, 2)),
        v.wire().len() == 2,
{
    lemma_spans();
    lemma_signed_round_trip(v as int, 2, 0x1_0000, rest);
}

/// A 32-bit number decodes from its wire form to itself, whatever follows it.
pub proof fn lemma_i32_round_trip(v: i32, rest: Seq<u8>)
    ensures
        i32::parse(v.wire() + rest) == Ok::<(i32, nat), DecodingError>((v, 4)),
        v.wire().len() == 4,
{
    lemma_spans();
    lemma_signed_round_trip(v as int, 4, 0x1_0000_0000, rest);
}

/// A 64-bit number decodes from its wire form to itself, whatever follows it.
pub proof fn lemma_i64_round_trip(v: i64, rest: Seq<u8>)
    ensures
        i64::parse(v.wire() + rest) == Ok::<(i64, nat), DecodingError>((v, 8)),
        v.wire().len() == 8,
{
    lemma_spans();
    lemma_signed_round_trip(v as int, 8, 0x1_0000_0000_0000_0000, rest);
}

} // verus!
