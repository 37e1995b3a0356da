//! What the server sends while a client logs in.

use crate::datatypes::strings::lemma_string_round_trip;
use crate::datatypes::unique_id::{lemma_optional_uuid_round_trip, Uuid};
use crate::datatypes::varint::{lemma_varint_round_trip, VarInt};
use crate::decoding::{
    after, lemma_field_read, lemma_field_written, used, Decodable, DecodingError,
};
use crate::encoding::{Encodable, EncodingError};
use crate::reader::ByteReader;
use vstd::prelude::*;

verus! {

/// The player that logs in: an identifier, where there is one, and a name. Packet `0x00`.
#[derive(Clone, Debug, PartialEq, Eq, Hash)]
pub struct LoginRequest {
    pub id: VarInt,
    pub uuid: Option<Uuid>,
    pub username: String,
}

/// What a [`LoginRequest`] holds, as mathematical values.
pub struct LoginRequestView {
    pub id: VarInt,
    pub uuid: Option<Uuid>,
    pub username: Seq<char>,
}

impl DeepView for LoginRequest {
    type V = LoginRequestView;

    open spec fn deep_view(&self) -> LoginRequestView {
        LoginRequestView {
            id: self.id,
            uuid: self.uuid,
            username: self.username@,
        }
    }
}

impl Encodable for LoginRequest {
    open spec fn fits(&self) -> Result<(), EncodingError> {
        self.username.fits()
    }

    open spec fn wire(&self) -> Seq<u8> {
        self.id.wire() + self.uuid.wire() + self.username.wire()
    }

    fn encode(&self, writer: &mut Vec<u8>) -> (r: Result<(), EncodingError>) {
        let mark = writer.len();
        self.id.encode(writer)?;
        self.uuid.encode(writer)?;
        if let Err(e) = self.username.encode(writer) {
            writer.truncate(mark);
            return Err(e);
        }
        assert(writer@ == old(writer)@ + self.wire());
        Ok(())
    }
}

impl Decodable for LoginRequest {
    open spec fn parse(bytes: Seq<u8>) -> Result<(LoginRequestView, nat), DecodingError> {
        let id = VarInt::parse(bytes);
        let bytes1 = after(bytes, id);
        let uuid = Option::<Uuid>::parse(bytes1);
        let bytes2 = after(bytes1, uuid);
        let username = String::parse(bytes2);
        if id is Err {
            Err(id->Err_0)
        } else if uuid is Err {
            Err(uuid->Err_0)
        } else if username is Err {
            Err(username->Err_0)
        } else {
            Ok(
                (
                    LoginRequestView {
                        id: id->Ok_0.0,
                        uuid: uuid->Ok_0.0,
                        username: username->Ok_0.0,
                    },
                    used(id) + used(uuid) + used(username),
                ),
            )
        }
    }

    /// The fields before the one that fails are read, and of that one what
    /// its own decoder reads.
    open spec fn stop(bytes: Seq<u8>) -> nat {
        let id = VarInt::parse(bytes);
        let bytes1 = after(bytes, id);
        let uuid = Option::<Uuid>::parse(bytes1);
        let bytes2 = after(bytes1, uuid);
        if id is Err {
            VarInt::stop(bytes)
        } else if uuid is Err {
            used(id) + Option::<Uuid>::stop(bytes1)
        } else {
            used(id) + used(uuid) + String::stop(bytes2)
        }
    }

    fn decode(reader: &mut ByteReader<'_>) -> (r: Result<Self, DecodingError>) {
        let ghost bytes = reader.remaining();
        let ghost mut taken: nat = 0;
        let ghost before = reader.remaining();
        let id = VarInt::decode(reader)?;
        proof {
            let parsed = VarInt::parse(before);
            lemma_field_read(bytes, taken, before, parsed, reader.remaining());
            taken = taken + used(parsed);
        }
        let ghost before = reader.remaining();
        let uuid = Option::<Uuid>::decode(reader)?;
        proof {
            let parsed = Option::<Uuid>::parse(before);
            lemma_field_read(bytes, taken, before, parsed, reader.remaining());
            taken = taken + used(parsed);
        }
        let ghost before = reader.remaining();
        let username = String::decode(reader)?;
        proof {
            let parsed = String::parse(before);
            lemma_field_read(bytes, taken, before, parsed, reader.remaining());
            taken = taken + used(parsed);
        }
        Ok(LoginRequest { id, uuid, username })
    }
}

/// A [`LoginRequest`] that has a wire form decodes from its wire form to itself, whatever
/// follows it.
pub proof fn lemma_login_request_round_trip(packet: LoginRequest, rest: Seq<u8>)
    requires
        packet.fits() is Ok,
    ensures
        LoginRequest::parse(packet.wire() + rest) == Ok::<(LoginRequestView, nat), DecodingError>(
            (packet.deep_view(), packet.wire().len()),
        ),
{
    let tail3 = rest;
    let tail2 = packet.username.wire() + tail3;
    let tail1 = packet.uuid.wire() + tail2;
    let tail0 = packet.id.wire() + tail1;
    let head1 = packet.id.wire();
    let head2 = head1 + packet.uuid.wire();
    assert(head1 + tail1 == head2 + tail2);
    let head3 = head2 + packet.username.wire();
    assert(head2 + tail2 == head3 + tail3);
    assert(packet.wire() + rest == tail0);
    lemma_varint_round_trip(packet.id, tail1);
    lemma_field_written(tail0, VarInt::parse(tail0), packet.id.wire(), tail1);
    lemma_optional_uuid_round_trip(packet.uuid, tail2);
    lemma_field_written(tail1, Option::<Uuid>::parse(tail1), packet.uuid.wire(), tail2);
    lemma_string_round_trip(packet.username@, tail3);
    lemma_field_written(tail2, String::parse(tail2), packet.username.wire(), tail3);
}
} // verus!
