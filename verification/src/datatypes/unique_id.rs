//! UUIDs on the wire: sixteen raw bytes, and behind a presence byte where the
//! field is optional.

use crate::datatypes::bigendian::{
    append, be_bytes, be_value, lemma_be_value_of_bytes, span,
};
use crate::decoding::{Decodable, DecodingError};
use crate::encoding::{Encodable, EncodingError};
use crate::reader::ByteReader;
use vstd::prelude::*;

verus! {

/// A universally unique identifier: a 128-bit number, whose sixteen bytes,
/// most significant first, are the bytes of its text form in reading order.
#[derive(Clone, Copy, Debug, PartialEq, Eq, Hash, Structural)]
pub struct Uuid(pub u128);

/// `uuid::Uuid::as_u128`, of the UUID made by `uuid::Uuid::from_bytes`: the
/// number that the sixteen bytes spell, most significant byte first.
#[verifier::external_body]
pub(crate) fn number_of_bytes(bytes: [u8; 16]) -> (number: u128)
    ensures
        number == be_value(bytes@),
{
    uuid::Uuid::from_bytes(bytes).as_u128()
}

/// `uuid::Uuid::into_bytes`, of the UUID made by `uuid::Uuid::from_u128`: the
/// sixteen bytes that spell the number, most significant byte first.
#[verifier::external_body]
pub(crate) fn bytes_of_number(number: u128) -> (bytes: [u8; 16])
    ensures
        bytes@ == be_bytes(number as nat, 16),
{
    uuid::Uuid::from_u128(number).into_bytes()
}

impl Uuid {
    /// The identifier with the given number.
    pub fn from_u128(number: u128) -> (id: Uuid)
        ensures
            id == Uuid(number),
    {
        Uuid(number)
    }

    /// The number of the identifier.
    pub fn as_u128(&self) -> (number: u128)
        ensures
            number == self.0,
    {
        self.0
    }

    /// The identifier whose sixteen bytes are `bytes`.
    pub fn from_bytes(bytes: [u8; 16]) -> (id: Uuid)
        ensures
            id.0 == be_value(bytes@),
    {
        Uuid(number_of_bytes(bytes))
    }

    /// The sixteen bytes of the identifier.
    pub fn to_bytes(&self) -> (bytes: [u8; 16])
        ensures
            bytes@ == self.wire(),
    {
        bytes_of_number(self.0)
    }

    /// What the head of `bytes` decodes to.
    pub open spec fn parse_of(bytes: Seq<u8>) -> Result<(Uuid, nat), DecodingError> {
        if bytes.len() < 16 {
            Err(DecodingError::UnexpectedEof)
        } else {
            Ok((Uuid(be_value(bytes.take(16)) as u128), 16))
        }
    }
}

impl DeepView for Uuid {
    type V = Uuid;

    open spec fn deep_view(&self) -> Uuid {
        *self
    }
}

/// How many numbers fit in sixteen bytes: as many as in 128 bits.
pub proof fn lemma_span_16()
    ensures
        span(16) == 0x1_0000_0000_0000_0000_0000_0000_0000_0000,
{
    reveal_with_fuel(span, 17);
}

/// The wire form of an optional identifier: a zero byte for none, a one byte
/// and the identifier for one.
pub open spec fn optional_uuid_wire(id: Option<Uuid>) -> Seq<u8> {
    match id {
        Some(id) => seq![1u8] + id.wire(),
        None => seq![0u8],
    }
}

/// What the head of `bytes` decodes to as an optional identifier. Only the
/// presence byte `1` announces an identifier.
pub open spec fn optional_uuid_parse(bytes: Seq<u8>) -> Result<(Option<Uuid>, nat), DecodingError> {
    if bytes.len() == 0 {
        Err(DecodingError::UnexpectedEof)
    } else if bytes[0] != 1 {
        Ok((None, 1))
    } else {
        match Uuid::parse_of(bytes.skip(1)) {
            Ok((id, used)) => Ok((Some(id), 1 + used)),
            Err(e) => Err(e),
        }
    }
}

impl Encodable for Uuid {
    open spec fn fits(&self) -> Result<(), EncodingError> {
        Ok(())
    }

    open spec fn wire(&self) -> Seq<u8> {
        be_bytes(self.0 as nat, 16)
    }

    fn encode(&self, writer: &mut Vec<u8>) -> (r: Result<(), EncodingError>) {
        let bytes = self.to_bytes();
        append(writer, bytes.as_slice());
        Ok(())
    }
}

impl Decodable for Uuid {
    open spec fn parse(bytes: Seq<u8>) -> Result<(Uuid, nat), DecodingError> {
        Uuid::parse_of(bytes)
    }

    /// Nothing is read where the bytes are too few.
    open spec fn stop(bytes: Seq<u8>) -> nat {
        0
    }

    fn decode(reader: &mut ByteReader<'_>) -> (r: Result<Self, DecodingError>) {
        assert(Uuid::parse(reader.remaining()) == Uuid::parse_of(reader.remaining()));
        assert(Uuid::stop(reader.remaining()) == 0);
        let taken = reader.take(16)?;
        let mut bytes = [0u8;16];
        let mut i: usize = 0;
        while i < 16
            invariant
                i <= 16,
                taken@.len() == 16,
                forall|j: int| 0 <= j < i ==> bytes@[j] == taken@[j],
            decreases 16 - i,
        {
            bytes[i] = taken[i];
            i = i + 1;
        }
        assert(bytes@ == taken@);
        Ok(Uuid::from_bytes(bytes))
    }
}

impl Encodable for Option<Uuid> {
    open spec fn fits(&self) -> Result<(), EncodingError> {
        Ok(())
    }

    open spec fn wire(&self) -> Seq<u8> {
        optional_uuid_wire(*self)
    }

    fn encode(&self, writer: &mut Vec<u8>) -> (r: Result<(), EncodingError>) {
        match self {
            Some(id) => {
                writer.push(1u8);
                let bytes = id.to_bytes();
                append(writer, bytes.as_slice());
            },
            None => {
                writer.push(0u8);
            },
        }
        Ok(())
    }
}

impl Decodable for Option<Uuid> {
    open spec fn parse(bytes: Seq<u8>) -> Result<(Option<Uuid>, nat), DecodingError> {
        optional_uuid_parse(bytes)
    }

    /// The presence byte is read, where there is one, and nothing of an
    /// identifier that is cut short.
    open spec fn stop(bytes: Seq<u8>) -> nat {
        if bytes.len() == 0 {
            0
        } else {
            1
        }
    }

    fn decode(reader: &mut ByteReader<'_>) -> (r: Result<Self, DecodingError>) {
        let ghost input = reader.remaining();
        let present = reader.read_u8()?;
        if present == 1 {
            let id = Uuid::decode(reader)?;
            assert(input.skip(1).skip(16) == input.skip(17));
            Ok(Some(id))
        } else {
            Ok(None)
        }
    }
}

/// An identifier decodes from its sixteen bytes to itself, whatever follows.
pub proof fn lemma_uuid_round_trip(id: Uuid, rest: Seq<u8>)
    ensures
        Uuid::parse(id.wire() + rest) == Ok::<(Uuid, nat), DecodingError>((id, 16)),
        id.wire().len() == 16,
{
    lemma_span_16();
    lemma_be_value_of_bytes(id.0 as nat, 16);
    assert((id.wire() + rest).take(16) == id.wire());
}

/// An optional identifier decodes from its wire form to itself, whatever
/// follows it. None takes the single byte `0`; an identifier takes seventeen
/// bytes, of which the first is `1`.
pub proof fn lemma_optional_uuid_round_trip(id: Option<Uuid>, rest: Seq<u8>)
    ensures
        Option::<Uuid>::parse(id.wire() + rest) == Ok::<(Option<Uuid>, nat), DecodingError>(
            (id, id.wire().len()),
        ),
        id is None ==> id.wire() == seq![0u8],
        id is Some ==> id.wire().len() == 17 && id.wire()[0] == 1,
{
    if let Some(u) = id {
        lemma_uuid_round_trip(u, rest);
        assert((id.wire() + rest).skip(1) == u.wire() + rest);
    }
}

} // verus!
