//! What the server sends while a client asks for its status.

use crate::datatypes::integers::lemma_i64_round_trip;
use crate::datatypes::strings::lemma_string_round_trip;
use crate::datatypes::varint::{lemma_varint_round_trip, VarInt};
use crate::decoding::{
    after, lemma_field_read, lemma_field_written, used, Decodable, DecodingError,
};
use crate::encoding::{Encodable, EncodingError};
use crate::reader::ByteReader;
use vstd::prelude::*;

verus! {

/// The server's description of itself, as a JSON text. Packet `0x00`.
#[derive(Clone, Debug, PartialEq, Eq, Hash)]
pub struct StatusResponse {
    pub id: VarInt,
    pub response: String,
}

/// What a [`StatusResponse`] holds, as mathematical values.
pub struct StatusResponseView {
    pub id: VarInt,
    pub response: Seq<char>,
}

impl DeepView for StatusResponse {
    type V = StatusResponseView;

    open spec fn deep_view(&self) -> StatusResponseView {
        StatusResponseView {
            id: self.id,
            response: self.response@,
        }
    }
}

impl Encodable for StatusResponse {
    open spec fn fits(&self) -> Result<(), EncodingError> {
        self.response.fits()
    }

    open spec fn wire(&self) -> Seq<u8> {
        self.id.wire() + self.response.wire()
    }

    fn encode(&self, writer: &mut Vec<u8>) -> (r: Result<(), EncodingError>) {
        let mark = writer.len();
        self.id.encode(writer)?;
        if let Err(e) = self.response.encode(writer) {
            writer.truncate(mark);
            return Err(e);
        }
        assert(writer@ == old(writer)@ + self.wire());
        Ok(())
    }
}

impl Decodable for StatusResponse {
    open spec fn parse(bytes: Seq<u8>) -> Result<(StatusResponseView, nat), DecodingError> {
        let id = VarInt::parse(bytes);
        let bytes1 = after(bytes, id);
        let response = String::parse(bytes1);
        if id is Err {
            Err(id->Err_0)
        } else if response is Err {
            Err(response->Err_0)
        } else {
            Ok(
                (
                    StatusResponseView {
                        id: id->Ok_0.0,
                        response: response->Ok_0.0,
                    },
                    used(id) + used(response),
                ),
            )
        }
    }

    /// The fields before the one that fails are read, and of that one what
    /// its own decoder reads.
    open spec fn stop(bytes: Seq<u8>) -> nat {
        let id = VarInt::parse(bytes);
        let bytes1 = after(bytes, id);
        if id is Err {
            VarInt::stop(bytes)
        } else {
            used(id) + String::stop(bytes1)
        }
    }

    fn decode(reader: &mut ByteReader<'_>) -> (r: Result<Self, DecodingError>) {
        let ghost bytes = reader.remaining();
        let ghost mut taken: nat = 0;
        let ghost before = reader.remaining();
        let id = VarInt::decode(reader)?;
        proof {
            let parsed = VarInt::parse(before);
            lemma_field_read(bytes, taken, before, parsed, reader.remaining());
            taken = taken + used(parsed);
        }
        let ghost before = reader.remaining();
        let response = String::decode(reader)?;
        proof {
            let parsed = String::parse(before);
            lemma_field_read(bytes, taken, before, parsed, reader.remaining());
            taken = taken + used(parsed);
        }
        Ok(StatusResponse { id, response })
    }
}

/// A [`StatusResponse`] that has a wire form decodes from its wire form to itself, whatever
/// follows it.
pub proof fn lemma_status_response_round_trip(packet: StatusResponse, rest: Seq<u8>)
    requires
        packet.fits() is Ok,
    ensures
        StatusResponse::parse(packet.wire() + rest) == Ok::<(StatusResponseView, nat), DecodingError>(
            (packet.deep_view(), packet.wire().len()),
        ),
{
    let tail2 = rest;
    let tail1 = packet.response.wire() + tail2;
    let tail0 = packet.id.wire() + tail1;
    let head1 = packet.id.wire();
    let head2 = head1 + packet.response.wire();
    assert(head1 + tail1 == head2 + tail2);
    assert(packet.wire() + rest == tail0);
    lemma_varint_round_trip(packet.id, tail1);
    lemma_field_written(tail0, VarInt::parse(tail0), packet.id.wire(), tail1);
    lemma_string_round_trip(packet.response@, tail2);
    lemma_field_written(tail1, String::parse(tail1), packet.response.wire(), tail2);
}

/// The answer to a ping, with the payload of the ping. Packet `0x01`.
#[derive(Clone, Copy, Debug, PartialEq, Eq, Hash, Structural)]
pub struct PingResponse {
    pub id: VarInt,
    pub payload: i64,
}

impl DeepView for PingResponse {
    type V = PingResponse;

    open spec fn deep_view(&self) -> PingResponse {
        *self
    }
}

impl Encodable for PingResponse {
    open spec fn fits(&self) -> Result<(), EncodingError> {
        Ok(())
    }

    open spec fn wire(&self) -> Seq<u8> {
        self.id.wire() + self.payload.wire()
    }

    fn encode(&self, writer: &mut Vec<u8>) -> (r: Result<(), EncodingError>) {
        self.id.encode(writer)?;
        self.payload.encode(writer)?;
        assert(writer@ == old(writer)@ + self.wire());
        Ok(())
    }
}

impl Decodable for PingResponse {
    open spec fn parse(bytes: Seq<u8>) -> Result<(PingResponse, nat), DecodingError> {
        let id = VarInt::parse(bytes);
        let bytes1 = after(bytes, id);
        let payload = i64::parse(bytes1);
        if id is Err {
            Err(id->Err_0)
        } else if payload is Err {
            Err(payload->Err_0)
        } else {
            Ok(
                (
                    PingResponse {
                        id: id->Ok_0.0,
                        payload: payload->Ok_0.0,
                    },
                    used(id) + used(payload),
                ),
            )
        }
    }

    /// The fields before the one that fails are read, and of that one what
    /// its own decoder reads.
    open spec fn stop(bytes: Seq<u8>) -> nat {
        let id = VarInt::parse(bytes);
        let bytes1 = after(bytes, id);
        if id is Err {
            VarInt::stop(bytes)
        } else {
            used(id) + i64::stop(bytes1)
        }
    }

    fn decode(reader: &mut ByteReader<'_>) -> (r: Result<Self, DecodingError>) {
        let ghost bytes = reader.remaining();
        let ghost mut taken: nat = 0;
        let ghost before = reader.remaining();
        let id = VarInt::decode(reader)?;
        proof {
            let parsed = VarInt::parse(before);
            lemma_field_read(bytes, taken, before, parsed, reader.remaining());
            taken = taken + used(parsed);
        }
        let ghost before = reader.remaining();
        let payload = i64::decode(reader)?;
        proof {
            let parsed = i64::parse(before);
            lemma_field_read(bytes, taken, before, parsed, reader.remaining());
            taken = taken + used(parsed);
        }
        Ok(PingResponse { id, payload })
    }
}

/// A [`PingResponse`] decodes from its wire form to itself, whatever
/// follows it.
pub proof fn lemma_ping_response_round_trip(packet: PingResponse, rest: Seq<u8>)
    ensures
        PingResponse::parse(packet.wire() + rest) == Ok::<(PingResponse, nat), DecodingError>(
            (packet.deep_view(), packet.wire().len()),
        ),
{
    let tail2 = rest;
    let tail1 = packet.payload.wire() + tail2;
    let tail0 = packet.id.wire() + tail1;
    let head1 = packet.id.wire();
    let head2 = head1 + packet.payload.wire();
    assert(head1 + tail1 == head2 + tail2);
    assert(packet.wire() + rest == tail0);
    lemma_varint_round_trip(packet.id, tail1);
    lemma_field_written(tail0, VarInt::parse(tail0), packet.id.wire(), tail1);
    lemma_i64_round_trip(packet.payload, tail2);
    lemma_field_written(tail1, i64::parse(tail1), packet.payload.wire(), tail2);
}
} // verus!
