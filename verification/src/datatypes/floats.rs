//! IEEE 754 numbers on the wire: the bit pattern, big-endian, in four or eight
//! bytes. The library moves the patterns and never computes with them.

use crate::datatypes::bigendian::{
    be_bytes, be_value, lemma_be_value_of_bytes, lemma_spans, put_be, read_u32_be, read_u64_be,
};
use crate::decoding::{Decodable, DecodingError};
use crate::encoding::{Encodable, EncodingError};
use crate::reader::ByteReader;
use vstd::prelude::*;

verus! {

/// A single-precision number, held as its 32-bit pattern.
#[derive(Clone, Copy, Debug, PartialEq, Eq, Hash, Structural)]
pub struct Float {
    pub bits: u32,
}

/// A double-precision number, held as its 64-bit pattern.
#[derive(Clone, Copy, Debug, PartialEq, Eq, Hash, Structural)]
pub struct Double {
    pub bits: u64,
}

/// What a field of `width` bytes that holds an unsigned big-endian number
/// decodes to.
pub open spec fn parse_unsigned(bytes: Seq<u8>, width: nat) -> Result<(nat, nat), DecodingError> {
    if bytes.len() < width {
        Err(DecodingError::UnexpectedEof)
    } else {
        Ok((be_value(bytes.take(width as int)), width))
    }
}

impl Float {
    /// The number with the given bit pattern.
    pub fn from_bits(bits: u32) -> (x: Float)
        ensures
            x.bits == bits,
    {
        Float { bits }
    }

    /// The bit pattern of the number.
    pub fn to_bits(&self) -> (bits: u32)
        ensures
            bits == self.bits,
    {
        self.bits
    }
}

impl Double {
    /// The number with the given bit pattern.
    pub fn from_bits(bits: u64) -> (x: Double)
        ensures
            x.bits == bits,
    {
        Double { bits }
    }

    /// The bit pattern of the number.
    pub fn to_bits(&self) -> (bits: u64)
        ensures
            bits == self.bits,
    {
        self.bits
    }
}

impl DeepView for Float {
    type V = Float;

    open spec fn deep_view(&self) -> Float {
        *self
    }
}

impl DeepView for Double {
    type V = Double;

    open spec fn deep_view(&self) -> Double {
        *self
    }
}

impl Encodable for Float {
    open spec fn fits(&self) -> Result<(), EncodingError> {
        Ok(())
    }

    open spec fn wire(&self) -> Seq<u8> {
        be_bytes(self.bits as nat, 4)
    }

    fn encode(&self, writer: &mut Vec<u8>) -> (r: Result<(), EncodingError>) {
        put_be(writer, self.bits as u64, 4);
        Ok(())
    }
}

impl Decodable for Float {
    open spec fn parse(bytes: Seq<u8>) -> Result<(Float, nat), DecodingError> {
        match parse_unsigned(bytes, 4) {
            Ok((bits, used)) => Ok((Float { bits: bits as u32 }, used)),
            Err(e) => Err(e),
        }
    }

    /// Nothing is read where the bytes are too few.
    open spec fn stop(bytes: Seq<u8>) -> nat {
        0
    }

    fn decode(reader: &mut ByteReader<'_>) -> (r: Result<Self, DecodingError>) {
        match read_u32_be(reader.rest()) {
            Some(bits) => {
                reader.advance(4);
                Ok(Float { bits })
            },
            None => Err(DecodingError::UnexpectedEof),
        }
    }
}

impl Encodable for Double {
    open spec fn fits(&self) -> Result<(), EncodingError> {
        Ok(())
    }

    open spec fn wire(&self) -> Seq<u8> {
        be_bytes(self.bits as nat, 8)
    }

    fn encode(&self, writer: &mut Vec<u8>) -> (r: Result<(), EncodingError>) {
        put_be(writer, self.bits, 8);
        Ok(())
    }
}

impl Decodable for Double {
    open spec fn parse(bytes: Seq<u8>) -> Result<(Double, nat), DecodingError> {
        match parse_unsigned(bytes, 8) {
            Ok((bits, used)) => Ok((Double { bits: bits as u64 }, used)),
            Err(e) => Err(e),
        }
    }

    /// Nothing is read where the bytes are too few.
    open spec fn stop(bytes: Seq<u8>) -> nat {
        0
    }

    fn decode(reader: &mut ByteReader<'_>) -> (r: Result<Self, DecodingError>) {
        match read_u64_be(reader.rest()) {
            Some(bits) => {
                reader.advance(8);
                Ok(Double { bits })
            },
            None => Err(DecodingError::UnexpectedEof),
        }
    }
}

/// Every 32-bit pattern decodes from its wire form to itself, whatever
/// follows it: not-a-number patterns and signed zeros are kept as they are.
pub proof fn lemma_float_round_trip(x: Float, rest: Seq<u8>)
    ensures
        Float::parse(x.wire() + rest) == Ok::<(Float, nat), DecodingError>((x, 4)),
        x.wire().len() == 4,
{
    lemma_spans();
    lemma_be_value_of_bytes(x.bits as nat, 4);
    assert((x.wire() + rest).take(4) == x.wire());
}

/// Every 64-bit pattern decodes from its wire form to itself, whatever
/// follows it.
pub proof fn lemma_double_round_trip(x: Double, rest: Seq<u8>)
    ensures
        Double::parse(x.wire() + rest) == Ok::<(Double, nat), DecodingError>((x, 8)),
        x.wire().len() == 8,
{
    lemma_spans();
    lemma_be_value_of_bytes(x.bits as nat, 8);
    assert((x.wire() + rest).take(8) == x.wire());
}

} // verus!
