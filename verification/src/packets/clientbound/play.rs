//! What the server sends while the game is played.

use crate::animation::{lemma_animation_round_trip, EntityAnimationType};
use crate::datatypes::floats::{lemma_double_round_trip, lemma_float_round_trip, Double};
use crate::datatypes::integers::lemma_i16_round_trip;
use crate::datatypes::unique_id::{lemma_uuid_round_trip, Uuid};
use crate::datatypes::varint::{lemma_varint_round_trip, VarInt};
use crate::decoding::{
    after, lemma_field_read, lemma_field_written, used, Decodable, DecodingError,
};
use crate::encoding::{Encodable, EncodingError};
use crate::reader::ByteReader;
use vstd::prelude::*;
use crate::position::Angle;
use crate::statistics::{lemma_statistics_round_trip, Statistic};

verus! {

/// An entity appears. Packet `0x00`.
#[derive(Clone, Copy, Debug, PartialEq, Eq, Hash, Structural)]
pub struct SpawnEntity {
    pub id: VarInt,
    pub entity_id: VarInt,
    pub entity_unique_id: Uuid,
    pub ty: VarInt,
    pub x: Double,
    pub y: Double,
    pub z: Double,
    pub pitch: Angle,
    pub yaw: Angle,
    pub head_yaw: Angle,
    pub data: VarInt,
    pub velocity_x: i16,
    pub velocity_y: i16,
    pub velocity_z: i16,
}

impl DeepView for SpawnEntity {
    type V = SpawnEntity;

    open spec fn deep_view(&self) -> SpawnEntity {
        *self
    }
}

/// The wire form of the fields that say which entity appears of a [`SpawnEntity`].
pub open spec fn spawn_entity_identity_wire(packet: SpawnEntity) -> Seq<u8> {
    packet.id.wire()
        + packet.entity_id.wire()
        + packet.entity_unique_id.wire()
        + packet.ty.wire()
}

/// What the head of `bytes` decodes to as the fields that say which entity appears of a [`SpawnEntity`].
pub open spec fn spawn_entity_identity_parse(bytes: Seq<u8>) -> Result<
    ((VarInt, VarInt, Uuid, VarInt), nat),
    DecodingError,
> {
    let id = VarInt::parse(bytes);
    let bytes1 = after(bytes, id);
    let entity_id = VarInt::parse(bytes1);
    let bytes2 = after(bytes1, entity_id);
    let entity_unique_id = Uuid::parse(bytes2);
    let bytes3 = after(bytes2, entity_unique_id);
    let ty = VarInt::parse(bytes3);
    if id is Err {
        Err(id->Err_0)
    } else if entity_id is Err {
        Err(entity_id->Err_0)
    } else if entity_unique_id is Err {
        Err(entity_unique_id->Err_0)
    } else if ty is Err {
        Err(ty->Err_0)
    } else {
        Ok(
            (
                (id->Ok_0.0, entity_id->Ok_0.0, entity_unique_id->Ok_0.0, ty->Ok_0.0),
                used(id) + used(entity_id) + used(entity_unique_id) + used(ty),
            ),
        )
    }
}

/// How many bytes are read where the fields that say which entity appears
/// of a [`SpawnEntity`] cannot be decoded: the fields before the one that
/// fails, and of that one what its own decoder reads.
pub open spec fn spawn_entity_identity_stop(bytes: Seq<u8>) -> nat {
    let id = VarInt::parse(bytes);
    let bytes1 = after(bytes, id);
    let entity_id = VarInt::parse(bytes1);
    let bytes2 = after(bytes1, entity_id);
    let entity_unique_id = Uuid::parse(bytes2);
    let bytes3 = after(bytes2, entity_unique_id);
    if id is Err {
        VarInt::stop(bytes)
    } else if entity_id is Err {
        used(id) + VarInt::stop(bytes1)
    } else if entity_unique_id is Err {
        used(id) + used(entity_id) + Uuid::stop(bytes2)
    } else {
        used(id) + used(entity_id) + used(entity_unique_id) + VarInt::stop(bytes3)
    }
}

fn decode_spawn_entity_identity(reader: &mut ByteReader<'_>) -> (r: Result<
    (VarInt, VarInt, Uuid, VarInt),
    DecodingError,
>)
    ensures
        final(reader).data() == old(reader).data(),
        match spawn_entity_identity_parse(old(reader).remaining()) {
            Ok((value, used)) => {
                &&& r is Ok
                &&& r->Ok_0 == value
                &&& final(reader).moved_by(*old(reader), used)
            },
            Err(e) => {
                &&& r is Err
                &&& r->Err_0 == e
                &&& final(reader).position() == old(reader).position() + spawn_entity_identity_stop(
                    old(reader).remaining(),
                )
            },
        },
{
    let ghost bytes = reader.remaining();
    let ghost mut taken: nat = 0;
    let ghost before = reader.remaining();
    let id = VarInt::decode(reader)?;
    proof {
        let parsed = VarInt::parse(before);
        lemma_field_read(bytes, taken, before, parsed, reader.remaining());
        taken = taken + used(parsed);
    }
    let ghost before = reader.remaining();
    let entity_id = VarInt::decode(reader)?;
    proof {
        let parsed = VarInt::parse(before);
        lemma_field_read(bytes, taken, before, parsed, reader.remaining());
        taken = taken + used(parsed);
    }
    let ghost before = reader.remaining();
    let entity_unique_id = Uuid::decode(reader)?;
    proof {
        let parsed = Uuid::parse(before);
        lemma_field_read(bytes, taken, before, parsed, reader.remaining());
        taken = taken + used(parsed);
    }
    let ghost before = reader.remaining();
    let ty = VarInt::decode(reader)?;
    proof {
        let parsed = VarInt::parse(before);
        lemma_field_read(bytes, taken, before, parsed, reader.remaining());
        taken = taken + used(parsed);
    }
    Ok((id, entity_id, entity_unique_id, ty))
}

proof fn lemma_spawn_entity_identity_round_trip(packet: SpawnEntity, rest: Seq<u8>)
    ensures
        spawn_entity_identity_parse(spawn_entity_identity_wire(packet) + rest) == Ok::<
            ((VarInt, VarInt, Uuid, VarInt), nat),
            DecodingError,
        >(
            (
                (packet.id, packet.entity_id, packet.entity_unique_id, packet.ty),
                spawn_entity_identity_wire(packet).len(),
            ),
        ),
{
    let tail4 = rest;
    let tail3 = packet.ty.wire() + tail4;
    let tail2 = packet.entity_unique_id.wire() + tail3;
    let tail1 = packet.entity_id.wire() + tail2;
    let tail0 = packet.id.wire() + tail1;
    let head1 = packet.id.wire();
    let head2 = head1 + packet.entity_id.wire();
    assert(head1 + tail1 == head2 + tail2);
    let head3 = head2 + packet.entity_unique_id.wire();
    assert(head2 + tail2 == head3 + tail3);
    let head4 = head3 + packet.ty.wire();
    assert(head3 + tail3 == head4 + tail4);
    assert(spawn_entity_identity_wire(packet) + rest == tail0);
    lemma_varint_round_trip(packet.id, tail1);
    lemma_field_written(tail0, VarInt::parse(tail0), packet.id.wire(), tail1);
    lemma_varint_round_trip(packet.entity_id, tail2);
    lemma_field_written(tail1, VarInt::parse(tail1), packet.entity_id.wire(), tail2);
    lemma_uuid_round_trip(packet.entity_unique_id, tail3);
    lemma_field_written(tail2, Uuid::parse(tail2), packet.entity_unique_id.wire(), tail3);
    lemma_varint_round_trip(packet.ty, tail4);
    lemma_field_written(tail3, VarInt::parse(tail3), packet.ty.wire(), tail4);
}

/// The wire form of the fields that say where the entity is and how it is turned of a [`SpawnEntity`].
pub open spec fn spawn_entity_placement_wire(packet: SpawnEntity) -> Seq<u8> {
    packet.x.wire()
        + packet.y.wire()
        + packet.z.wire()
        + packet.pitch.wire()
        + packet.yaw.wire()
        + packet.head_yaw.wire()
}

/// What the head of `bytes` decodes to as the fields that say where the entity is and how it is turned of a [`SpawnEntity`].
pub open spec fn spawn_entity_placement_parse(bytes: Seq<u8>) -> Result<
    ((Double, Double, Double, Angle, Angle, Angle), nat),
    DecodingError,
> {
    let x = Double::parse(bytes);
    let bytes1 = after(bytes, x);
    let y = Double::parse(bytes1);
    let bytes2 = after(bytes1, y);
    let z = Double::parse(bytes2);
    let bytes3 = after(bytes2, z);
    let pitch = Angle::parse(bytes3);
    let bytes4 = after(bytes3, pitch);
    let yaw = Angle::parse(bytes4);
    let bytes5 = after(bytes4, yaw);
    let head_yaw = Angle::parse(bytes5);
    if x is Err {
        Err(x->Err_0)
    } else if y is Err {
        Err(y->Err_0)
    } else if z is Err {
        Err(z->Err_0)
    } else if pitch is Err {
        Err(pitch->Err_0)
    } else if yaw is Err {
        Err(yaw->Err_0)
    } else if head_yaw is Err {
        Err(head_yaw->Err_0)
    } else {
        Ok(
            (
                (x->Ok_0.0, y->Ok_0.0, z->Ok_0.0, pitch->Ok_0.0, yaw->Ok_0.0, head_yaw->Ok_0.0),
                used(x) + used(y) + used(z) + used(pitch) + used(yaw) + used(head_yaw),
            ),
        )
    }
}

/// How many bytes are read where the fields that say where the entity is and how it is turned
/// of a [`SpawnEntity`] cannot be decoded: the fields before the one that
/// fails, and of that one what its own decoder reads.
pub open spec fn spawn_entity_placement_stop(bytes: Seq<u8>) -> nat {
    let x = Double::parse(bytes);
    let bytes1 = after(bytes, x);
    let y = Double::parse(bytes1);
    let bytes2 = after(bytes1, y);
    let z = Double::parse(bytes2);
    let bytes3 = after(bytes2, z);
    let pitch = Angle::parse(bytes3);
    let bytes4 = after(bytes3, pitch);
    let yaw = Angle::parse(bytes4);
    let bytes5 = after(bytes4, yaw);
    if x is Err {
        Double::stop(bytes)
    } else if y is Err {
        used(x) + Double::stop(bytes1)
    } else if z is Err {
        used(x) + used(y) + Double::stop(bytes2)
    } else if pitch is Err {
        used(x) + used(y) + used(z) + Angle::stop(bytes3)
    } else if yaw is Err {
        used(x) + used(y) + used(z) + used(pitch) + Angle::stop(bytes4)
    } else {
        used(x) + used(y) + used(z) + used(pitch) + used(yaw) + Angle::stop(bytes5)
    }
}

fn decode_spawn_entity_placement(reader: &mut ByteReader<'_>) -> (r: Result<
    (Double, Double, Double, Angle, Angle, Angle),
    DecodingError,
>)
    ensures
        final(reader).data() == old(reader).data(),
        match spawn_entity_placement_parse(old(reader).remaining()) {
            Ok((value, used)) => {
                &&& r is Ok
                &&& r->Ok_0 == value
                &&& final(reader).moved_by(*old(reader), used)
            },
            Err(e) => {
                &&& r is Err
                &&& r->Err_0 == e
                &&& final(reader).position() == old(reader).position() + spawn_entity_placement_stop(
                    old(reader).remaining(),
                )
            },
        },
{
    let ghost bytes = reader.remaining();
    let ghost mut taken: nat = 0;
    let ghost before = reader.remaining();
    let x = Double::decode(reader)?;
    proof {
        let parsed = Double::parse(before);
        lemma_field_read(bytes, taken, before, parsed, reader.remaining());
        taken = taken + used(parsed);
    }
    let ghost before = reader.remaining();
    let y = Double::decode(reader)?;
    proof {
        let parsed = Double::parse(before);
        lemma_field_read(bytes, taken, before, parsed, reader.remaining());
        taken = taken + used(parsed);
    }
    let ghost before = reader.remaining();
    let z = Double::decode(reader)?;
    proof {
        let parsed = Double::parse(before);
        lemma_field_read(bytes, taken, before, parsed, reader.remaining());
        taken = taken + used(parsed);
    }
    let ghost before = reader.remaining();
    let pitch = Angle::decode(reader)?;
    proof {
        let parsed = Angle::parse(before);
        lemma_field_read(bytes, taken, before, parsed, reader.remaining());
        taken = taken + used(parsed);
    }
    let ghost before = reader.remaining();
    let yaw = Angle::decode(reader)?;
    proof {
        let parsed = Angle::parse(before);
        lemma_field_read(bytes, taken, before, parsed, reader.remaining());
        taken = taken + used(parsed);
    }
    let ghost before = reader.remaining();
    let head_yaw = Angle::decode(reader)?;
    proof {
        let parsed = Angle::parse(before);
        lemma_field_read(bytes, taken, before, parsed, reader.remaining());
        taken = taken + used(parsed);
    }
    Ok((x, y, z, pitch, yaw, head_yaw))
}

proof fn lemma_spawn_entity_placement_round_trip(packet: SpawnEntity, rest: Seq<u8>)
    ensures
        spawn_entity_placement_parse(spawn_entity_placement_wire(packet) + rest) == Ok::<
            ((Double, Double, Double, Angle, Angle, Angle), nat),
            DecodingError,
        >(
            (
                (packet.x, packet.y, packet.z, packet.pitch, packet.yaw, packet.head_yaw),
                spawn_entity_placement_wire(packet).len(),
            ),
        ),
{
    let tail6 = rest;
    let tail5 = packet.head_yaw.wire() + tail6;
    let tail4 = packet.yaw.wire() + tail5;
    let tail3 = packet.pitch.wire() + tail4;
    let tail2 = packet.z.wire() + tail3;
    let tail1 = packet.y.wire() + tail2;
    let tail0 = packet.x.wire() + tail1;
    let head1 = packet.x.wire();
    let head2 = head1 + packet.y.wire();
    assert(head1 + tail1 == head2 + tail2);
    let head3 = head2 + packet.z.wire();
    assert(head2 + tail2 == head3 + tail3);
    let head4 = head3 + packet.pitch.wire();
    assert(head3 + tail3 == head4 + tail4);
    let head5 = head4 + packet.yaw.wire();
    assert(head4 + tail4 == head5 + tail5);
    let head6 = head5 + packet.head_yaw.wire();
    assert(head5 + tail5 == head6 + tail6);
    assert(spawn_entity_placement_wire(packet) + rest == tail0);
    lemma_double_round_trip(packet.x, tail1);
    lemma_field_written(tail0, Double::parse(tail0), packet.x.wire(), tail1);
    lemma_double_round_trip(packet.y, tail2);
    lemma_field_written(tail1, Double::parse(tail1), packet.y.wire(), tail2);
    lemma_double_round_trip(packet.z, tail3);
    lemma_field_written(tail2, Double::parse(tail2), packet.z.wire(), tail3);
    lemma_float_round_trip(packet.pitch, tail4);
    lemma_field_written(tail3, Angle::parse(tail3), packet.pitch.wire(), tail4);
    lemma_float_round_trip(packet.yaw, tail5);
    lemma_field_written(tail4, Angle::parse(tail4), packet.yaw.wire(), tail5);
    lemma_float_round_trip(packet.head_yaw, tail6);
    lemma_field_written(tail5, Angle::parse(tail5), packet.head_yaw.wire(), tail6);
}

/// The wire form of the data and the velocity of a [`SpawnEntity`].
pub open spec fn spawn_entity_motion_wire(packet: SpawnEntity) -> Seq<u8> {
    packet.data.wire()
        + packet.velocity_x.wire()
        + packet.velocity_y.wire()
        + packet.velocity_z.wire()
}

/// What the head of `bytes` decodes to as the data and the velocity of a [`SpawnEntity`].
pub open spec fn spawn_entity_motion_parse(bytes: Seq<u8>) -> Result<
    ((VarInt, i16, i16, i16), nat),
    DecodingError,
> {
    let data = VarInt::parse(bytes);
    let bytes1 = after(bytes, data);
    let velocity_x = i16::parse(bytes1);
    let bytes2 = after(bytes1, velocity_x);
    let velocity_y = i16::parse(bytes2);
    let bytes3 = after(bytes2, velocity_y);
    let velocity_z = i16::parse(bytes3);
    if data is Err {
        Err(data->Err_0)
    } else if velocity_x is Err {
        Err(velocity_x->Err_0)
    } else if velocity_y is Err {
        Err(velocity_y->Err_0)
    } else if velocity_z is Err {
        Err(velocity_z->Err_0)
    } else {
        Ok(
            (
                (data->Ok_0.0, velocity_x->Ok_0.0, velocity_y->Ok_0.0, velocity_z->Ok_0.0),
                used(data) + used(velocity_x) + used(velocity_y) + used(velocity_z),
            ),
        )
    }
}

/// How many bytes are read where the data and the velocity
/// of a [`SpawnEntity`] cannot be decoded: the fields before the one that
/// fails, and of that one what its own decoder reads.
pub open spec fn spawn_entity_motion_stop(bytes: Seq<u8>) -> nat {
    let data = VarInt::parse(bytes);
    let bytes1 = after(bytes, data);
    let velocity_x = i16::parse(bytes1);
    let bytes2 = after(bytes1, velocity_x);
    let velocity_y = i16::parse(bytes2);
    let bytes3 = after(bytes2, velocity_y);
    if data is Err {
        VarInt::stop(bytes)
    } else if velocity_x is Err {
        used(data) + i16::stop(bytes1)
    } else if velocity_y is Err {
        used(data) + used(velocity_x) + i16::stop(bytes2)
    } else {
        used(data) + used(velocity_x) + used(velocity_y) + i16::stop(bytes3)
    }
}

fn decode_spawn_entity_motion(reader: &mut ByteReader<'_>) -> (r: Result<
    (VarInt, i16, i16, i16),
    DecodingError,
>)
    ensures
        final(reader).data() == old(reader).data(),
        match spawn_entity_motion_parse(old(reader).remaining()) {
            Ok((value, used)) => {
                &&& r is Ok
                &&& r->Ok_0 == value
                &&& final(reader).moved_by(*old(reader), used)
            },
            Err(e) => {
                &&& r is Err
                &&& r->Err_0 == e
                &&& final(reader).position() == old(reader).position() + spawn_entity_motion_stop(
                    old(reader).remaining(),
                )
            },
        },
{
    let ghost bytes = reader.remaining();
    let ghost mut taken: nat = 0;
    let ghost before = reader.remaining();
    let data = VarInt::decode(reader)?;
    proof {
        let parsed = VarInt::parse(before);
        lemma_field_read(bytes, taken, before, parsed, reader.remaining());
        taken = taken + used(parsed);
    }
    let ghost before = reader.remaining();
    let velocity_x = i16::decode(reader)?;
    proof {
        let parsed = i16::parse(before);
        lemma_field_read(bytes, taken, before, parsed, reader.remaining());
        taken = taken + used(parsed);
    }
    let ghost before = reader.remaining();
    let velocity_y = i16::decode(reader)?;
    proof {
        let parsed = i16::parse(before);
        lemma_field_read(bytes, taken, before, parsed, reader.remaining());
        taken = taken + used(parsed);
    }
    let ghost before = reader.remaining();
    let velocity_z = i16::decode(reader)?;
    proof {
        let parsed = i16::parse(before);
        lemma_field_read(bytes, taken, before, parsed, reader.remaining());
        taken = taken + used(parsed);
    }
    Ok((data, velocity_x, velocity_y, velocity_z))
}

proof fn lemma_spawn_entity_motion_round_trip(packet: SpawnEntity, rest: Seq<u8>)
    ensures
        spawn_entity_motion_parse(spawn_entity_motion_wire(packet) + rest) == Ok::<
            ((VarInt, i16, i16, i16), nat),
            DecodingError,
        >(
            (
                (packet.data, packet.velocity_x, packet.velocity_y, packet.velocity_z),
                spawn_entity_motion_wire(packet).len(),
            ),
        ),
{
    let tail4 = rest;
    let tail3 = packet.velocity_z.wire() + tail4;
    let tail2 = packet.velocity_y.wire() + tail3;
    let tail1 = packet.velocity_x.wire() + tail2;
    let tail0 = packet.data.wire() + tail1;
    let head1 = packet.data.wire();
    let head2 = head1 + packet.velocity_x.wire();
    assert(head1 + tail1 == head2 + tail2);
    let head3 = head2 + packet.velocity_y.wire();
    assert(head2 + tail2 == head3 + tail3);
    let head4 = head3 + packet.velocity_z.wire();
    assert(head3 + tail3 == head4 + tail4);
    assert(spawn_entity_motion_wire(packet) + rest == tail0);
    lemma_varint_round_trip(packet.data, tail1);
    lemma_field_written(tail0, VarInt::parse(tail0), packet.data.wire(), tail1);
    lemma_i16_round_trip(packet.velocity_x, tail2);
    lemma_field_written(tail1, i16::parse(tail1), packet.velocity_x.wire(), tail2);
    lemma_i16_round_trip(packet.velocity_y, tail3);
    lemma_field_written(tail2, i16::parse(tail2), packet.velocity_y.wire(), tail3);
    lemma_i16_round_trip(packet.velocity_z, tail4);
    lemma_field_written(tail3, i16::parse(tail3), packet.velocity_z.wire(), tail4);
}

impl Encodable for SpawnEntity {
    open spec fn fits(&self) -> Result<(), EncodingError> {
        Ok(())
    }

    open spec fn wire(&self) -> Seq<u8> {
        spawn_entity_identity_wire(*self)
            + spawn_entity_placement_wire(*self)
            + spawn_entity_motion_wire(*self)
    }

    fn encode(&self, writer: &mut Vec<u8>) -> (r: Result<(), EncodingError>) {
        self.id.encode(writer)?;
        self.entity_id.encode(writer)?;
        self.entity_unique_id.encode(writer)?;
        self.ty.encode(writer)?;
        self.x.encode(writer)?;
        self.y.encode(writer)?;
        self.z.encode(writer)?;
        self.pitch.encode(writer)?;
        self.yaw.encode(writer)?;
        self.head_yaw.encode(writer)?;
        self.data.encode(writer)?;
        self.velocity_x.encode(writer)?;
        self.velocity_y.encode(writer)?;
        self.velocity_z.encode(writer)?;
        assert(writer@ == old(writer)@ + self.wire());
        Ok(())
    }
}

impl Decodable for SpawnEntity {
    open spec fn parse(bytes: Seq<u8>) -> Result<(SpawnEntity, nat), DecodingError> {
        let identity = spawn_entity_identity_parse(bytes);
        let bytes1 = after(bytes, identity);
        let placement = spawn_entity_placement_parse(bytes1);
        let bytes2 = after(bytes1, placement);
        let motion = spawn_entity_motion_parse(bytes2);
        if identity is Err {
            Err(identity->Err_0)
        } else if placement is Err {
            Err(placement->Err_0)
        } else if motion is Err {
            Err(motion->Err_0)
        } else {
            Ok(
                (
                    SpawnEntity {
                        id: identity->Ok_0.0.0,
                        entity_id: identity->Ok_0.0.1,
                        entity_unique_id: identity->Ok_0.0.2,
                        ty: identity->Ok_0.0.3,
                        x: placement->Ok_0.0.0,
                        y: placement->Ok_0.0.1,
                        z: placement->Ok_0.0.2,
                        pitch: placement->Ok_0.0.3,
                        yaw: placement->Ok_0.0.4,
                        head_yaw: placement->Ok_0.0.5,
                        data: motion->Ok_0.0.0,
                        velocity_x: motion->Ok_0.0.1,
                        velocity_y: motion->Ok_0.0.2,
                        velocity_z: motion->Ok_0.0.3,
                    },
                    used(identity) + used(placement) + used(motion),
                ),
            )
        }
    }

    /// The fields before the one that fails are read, and of that one what
    /// its own decoder reads.
    open spec fn stop(bytes: Seq<u8>) -> nat {
        let identity = spawn_entity_identity_parse(bytes);
        let bytes1 = after(bytes, identity);
        let placement = spawn_entity_placement_parse(bytes1);
        let bytes2 = after(bytes1, placement);
        if identity is Err {
            spawn_entity_identity_stop(bytes)
        } else if placement is Err {
            used(identity) + spawn_entity_placement_stop(bytes1)
        } else {
            used(identity) + used(placement) + spawn_entity_motion_stop(bytes2)
        }
    }

    fn decode(reader: &mut ByteReader<'_>) -> (r: Result<Self, DecodingError>) {
        let ghost bytes = reader.remaining();
        let ghost mut taken: nat = 0;
        let ghost before = reader.remaining();
        let (id, entity_id, entity_unique_id, ty) = decode_spawn_entity_identity(reader)?;
        proof {
            let parsed = spawn_entity_identity_parse(before);
            lemma_field_read(bytes, taken, before, parsed, reader.remaining());
            taken = taken + used(parsed);
        }
        let ghost before = reader.remaining();
        let (x, y, z, pitch, yaw, head_yaw) = decode_spawn_entity_placement(reader)?;
        proof {
            let parsed = spawn_entity_placement_parse(before);
            lemma_field_read(bytes, taken, before, parsed, reader.remaining());
            taken = taken + used(parsed);
        }
        let ghost before = reader.remaining();
        let (data, velocity_x, velocity_y, velocity_z) = decode_spawn_entity_motion(reader)?;
        proof {
            let parsed = spawn_entity_motion_parse(before);
            lemma_field_read(bytes, taken, before, parsed, reader.remaining());
            taken = taken + used(parsed);
        }
        Ok(SpawnEntity { id, entity_id, entity_unique_id, ty, x, y, z, pitch, yaw, head_yaw, data, velocity_x, velocity_y, velocity_z })
    }
}

/// A [`SpawnEntity`] decodes from its wire form to itself, whatever
/// follows it.
pub proof fn lemma_spawn_entity_round_trip(packet: SpawnEntity, rest: Seq<u8>)
    ensures
        SpawnEntity::parse(packet.wire() + rest) == Ok::<(SpawnEntity, nat), DecodingError>(
            (packet.deep_view(), packet.wire().len()),
        ),
{
    let tail3 = rest;
    let tail2 = spawn_entity_motion_wire(packet) + tail3;
    let tail1 = spawn_entity_placement_wire(packet) + tail2;
    let tail0 = spawn_entity_identity_wire(packet) + tail1;
    let head1 = spawn_entity_identity_wire(packet);
    let head2 = head1 + spawn_entity_placement_wire(packet);
    assert(head1 + tail1 == head2 + tail2);
    let head3 = head2 + spawn_entity_motion_wire(packet);
    assert(head2 + tail2 == head3 + tail3);
    assert(packet.wire() + rest == tail0);
    lemma_spawn_entity_identity_round_trip(packet, tail1);
    lemma_field_written(tail0, spawn_entity_identity_parse(tail0), spawn_entity_identity_wire(packet), tail1);
    lemma_spawn_entity_placement_round_trip(packet, tail2);
    lemma_field_written(tail1, spawn_entity_placement_parse(tail1), spawn_entity_placement_wire(packet), tail2);
    lemma_spawn_entity_motion_round_trip(packet, tail3);
    lemma_field_written(tail2, spawn_entity_motion_parse(tail2), spawn_entity_motion_wire(packet), tail3);
}

/// An experience orb appears. Packet `0x01`.
#[derive(Clone, Copy, Debug, PartialEq, Eq, Hash, Structural)]
pub struct SpawnExperienceOrb {
    pub id: VarInt,
    pub entity_id: VarInt,
    pub x: Double,
    pub y: Double,
    pub z: Double,
    pub count: i16,
}

impl DeepView for SpawnExperienceOrb {
    type V = SpawnExperienceOrb;

    open spec fn deep_view(&self) -> SpawnExperienceOrb {
        *self
    }
}

impl Encodable for SpawnExperienceOrb {
    open spec fn fits(&self) -> Result<(), EncodingError> {
        Ok(())
    }

    open spec fn wire(&self) -> Seq<u8> {
        self.id.wire()
            + self.entity_id.wire()
            + self.x.wire()
            + self.y.wire()
            + self.z.wire()
            + self.count.wire()
    }

    fn encode(&self, writer: &mut Vec<u8>) -> (r: Result<(), EncodingError>) {
        self.id.encode(writer)?;
        self.entity_id.encode(writer)?;
        self.x.encode(writer)?;
        self.y.encode(writer)?;
        self.z.encode(writer)?;
        self.count.encode(writer)?;
        assert(writer@ == old(writer)@ + self.wire());
        Ok(())
    }
}

impl Decodable for SpawnExperienceOrb {
    open spec fn parse(bytes: Seq<u8>) -> Result<(SpawnExperienceOrb, nat), DecodingError> {
        let id = VarInt::parse(bytes);
        let bytes1 = after(bytes, id);
        let entity_id = VarInt::parse(bytes1);
        let bytes2 = after(bytes1, entity_id);
        let x = Double::parse(bytes2);
        let bytes3 = after(bytes2, x);
        let y = Double::parse(bytes3);
        let bytes4 = after(bytes3, y);
        let z = Double::parse(bytes4);
        let bytes5 = after(bytes4, z);
        let count = i16::parse(bytes5);
        if id is Err {
            Err(id->Err_0)
        } else if entity_id is Err {
            Err(entity_id->Err_0)
        } else if x is Err {
            Err(x->Err_0)
        } else if y is Err {
            Err(y->Err_0)
        } else if z is Err {
            Err(z->Err_0)
        } else if count is Err {
            Err(count->Err_0)
        } else {
            Ok(
                (
                    SpawnExperienceOrb {
                        id: id->Ok_0.0,
                        entity_id: entity_id->Ok_0.0,
                        x: x->Ok_0.0,
                        y: y->Ok_0.0,
                        z: z->Ok_0.0,
                        count: count->Ok_0.0,
                    },
                    used(id) + used(entity_id) + used(x) + used(y) + used(z) + used(count),
                ),
            )
        }
    }

    /// The fields before the one that fails are read, and of that one what
    /// its own decoder reads.
    open spec fn stop(bytes: Seq<u8>) -> nat {
        let id = VarInt::parse(bytes);
        let bytes1 = after(bytes, id);
        let entity_id = VarInt::parse(bytes1);
        let bytes2 = after(bytes1, entity_id);
        let x = Double::parse(bytes2);
        let bytes3 = after(bytes2, x);
        let y = Double::parse(bytes3);
        let bytes4 = after(bytes3, y);
        let z = Double::parse(bytes4);
        let bytes5 = after(bytes4, z);
        if id is Err {
            VarInt::stop(bytes)
        } else if entity_id is Err {
            used(id) + VarInt::stop(bytes1)
        } else if x is Err {
            used(id) + used(entity_id) + Double::stop(bytes2)
        } else if y is Err {
            used(id) + used(entity_id) + used(x) + Double::stop(bytes3)
        } else if z is Err {
            used(id) + used(entity_id) + used(x) + used(y) + Double::stop(bytes4)
        } else {
            used(id) + used(entity_id) + used(x) + used(y) + used(z) + i16::stop(bytes5)
        }
    }

    fn decode(reader: &mut ByteReader<'_>) -> (r: Result<Self, DecodingError>) {
        let ghost bytes = reader.remaining();
        let ghost mut taken: nat = 0;
        let ghost before = reader.remaining();
        let id = VarInt::decode(reader)?;
        proof {
            let parsed = VarInt::parse(before);
            lemma_field_read(bytes, taken, before, parsed, reader.remaining());
            taken = taken + used(parsed);
        }
        let ghost before = reader.remaining();
        let entity_id = VarInt::decode(reader)?;
        proof {
            let parsed = VarInt::parse(before);
            lemma_field_read(bytes, taken, before, parsed, reader.remaining());
            taken = taken + used(parsed);
        }
        let ghost before = reader.remaining();
        let x = Double::decode(reader)?;
        proof {
            let parsed = Double::parse(before);
            lemma_field_read(bytes, taken, before, parsed, reader.remaining());
            taken = taken + used(parsed);
        }
        let ghost before = reader.remaining();
        let y = Double::decode(reader)?;
        proof {
            let parsed = Double::parse(before);
            lemma_field_read(bytes, taken, before, parsed, reader.remaining());
            taken = taken + used(parsed);
        }
        let ghost before = reader.remaining();
        let z = Double::decode(reader)?;
        proof {
            let parsed = Double::parse(before);
            lemma_field_read(bytes, taken, before, parsed, reader.remaining());
            taken = taken + used(parsed);
        }
        let ghost before = reader.remaining();
        let count = i16::decode(reader)?;
        proof {
            let parsed = i16::parse(before);
            lemma_field_read(bytes, taken, before, parsed, reader.remaining());
            taken = taken + used(parsed);
        }
        Ok(SpawnExperienceOrb { id, entity_id, x, y, z, count })
    }
}

/// A [`SpawnExperienceOrb`] decodes from its wire form to itself, whatever
/// follows it.
pub proof fn lemma_spawn_experience_orb_round_trip(packet: SpawnExperienceOrb, rest: Seq<u8>)
    ensures
        SpawnExperienceOrb::parse(packet.wire() + rest) == Ok::<(SpawnExperienceOrb, nat), DecodingError>(
            (packet.deep_view(), packet.wire().len()),
        ),
{
    let tail6 = rest;
    let tail5 = packet.count.wire() + tail6;
    let tail4 = packet.z.wire() + tail5;
    let tail3 = packet.y.wire() + tail4;
    let tail2 = packet.x.wire() + tail3;
    let tail1 = packet.entity_id.wire() + tail2;
    let tail0 = packet.id.wire() + tail1;
    let head1 = packet.id.wire();
    let head2 = head1 + packet.entity_id.wire();
    assert(head1 + tail1 == head2 + tail2);
    let head3 = head2 + packet.x.wire();
    assert(head2 + tail2 == head3 + tail3);
    let head4 = head3 + packet.y.wire();
    assert(head3 + tail3 == head4 + tail4);
    let head5 = head4 + packet.z.wire();
    assert(head4 + tail4 == head5 + tail5);
    let head6 = head5 + packet.count.wire();
    assert(head5 + tail5 == head6 + tail6);
    assert(packet.wire() + rest == tail0);
    lemma_varint_round_trip(packet.id, tail1);
    lemma_field_written(tail0, VarInt::parse(tail0), packet.id.wire(), tail1);
    lemma_varint_round_trip(packet.entity_id, tail2);
    lemma_field_written(tail1, VarInt::parse(tail1), packet.entity_id.wire(), tail2);
    lemma_double_round_trip(packet.x, tail3);
    lemma_field_written(tail2, Double::parse(tail2), packet.x.wire(), tail3);
    lemma_double_round_trip(packet.y, tail4);
    lemma_field_written(tail3, Double::parse(tail3), packet.y.wire(), tail4);
    lemma_double_round_trip(packet.z, tail5);
    lemma_field_written(tail4, Double::parse(tail4), packet.z.wire(), tail5);
    lemma_i16_round_trip(packet.count, tail6);
    lemma_field_written(tail5, i16::parse(tail5), packet.count.wire(), tail6);
}

/// A player comes into sight. Packet `0x02`.
#[derive(Clone, Copy, Debug, PartialEq, Eq, Hash, Structural)]
pub struct SpawnPlayer {
    pub id: VarInt,
    pub entity_id: VarInt,
    pub unique_id: Uuid,
    pub x: Double,
    pub y: Double,
    pub z: Double,
    pub yaw: Angle,
    pub pitch: Angle,
}

impl DeepView for SpawnPlayer {
    type V = SpawnPlayer;

    open spec fn deep_view(&self) -> SpawnPlayer {
        *self
    }
}

impl Encodable for SpawnPlayer {
    open spec fn fits(&self) -> Result<(), EncodingError> {
        Ok(())
    }

    open spec fn wire(&self) -> Seq<u8> {
        self.id.wire()
            + self.entity_id.wire()
            + self.unique_id.wire()
            + self.x.wire()
            + self.y.wire()
            + self.z.wire()
            + self.yaw.wire()
            + self.pitch.wire()
    }

    fn encode(&self, writer: &mut Vec<u8>) -> (r: Result<(), EncodingError>) {
        self.id.encode(writer)?;
        self.entity_id.encode(writer)?;
        self.unique_id.encode(writer)?;
        self.x.encode(writer)?;
        self.y.encode(writer)?;
        self.z.encode(writer)?;
        self.yaw.encode(writer)?;
        self.pitch.encode(writer)?;
        assert(writer@ == old(writer)@ + self.wire());
        Ok(())
    }
}

impl Decodable for SpawnPlayer {
    open spec fn parse(bytes: Seq<u8>) -> Result<(SpawnPlayer, nat), DecodingError> {
        let id = VarInt::parse(bytes);
        let bytes1 = after(bytes, id);
        let entity_id = VarInt::parse(bytes1);
        let bytes2 = after(bytes1, entity_id);
        let unique_id = Uuid::parse(bytes2);
        let bytes3 = after(bytes2, unique_id);
        let x = Double::parse(bytes3);
        let bytes4 = after(bytes3, x);
        let y = Double::parse(bytes4);
        let bytes5 = after(bytes4, y);
        let z = Double::parse(bytes5);
        let bytes6 = after(bytes5, z);
        let yaw = Angle::parse(bytes6);
        let bytes7 = after(bytes6, yaw);
        let pitch = Angle::parse(bytes7);
        if id is Err {
            Err(id->Err_0)
        } else if entity_id is Err {
            Err(entity_id->Err_0)
        } else if unique_id is Err {
            Err(unique_id->Err_0)
        } else if x is Err {
            Err(x->Err_0)
        } else if y is Err {
            Err(y->Err_0)
        } else if z is Err {
            Err(z->Err_0)
        } else if yaw is Err {
            Err(yaw->Err_0)
        } else if pitch is Err {
            Err(pitch->Err_0)
        } else {
            Ok(
                (
                    SpawnPlayer {
                        id: id->Ok_0.0,
                        entity_id: entity_id->Ok_0.0,
                        unique_id: unique_id->Ok_0.0,
                        x: x->Ok_0.0,
                        y: y->Ok_0.0,
                        z: z->Ok_0.0,
                        yaw: yaw->Ok_0.0,
                        pitch: pitch->Ok_0.0,
                    },
                    used(id)
                        + used(entity_id)
                        + used(unique_id)
                        + used(x)
                        + used(y)
                        + used(z)
                        + used(yaw)
                        + used(pitch)
                    ,
                ),
            )
        }
    }

    /// The fields before the one that fails are read, and of that one what
    /// its own decoder reads.
    open spec fn stop(bytes: Seq<u8>) -> nat {
        let id = VarInt::parse(bytes);
        let bytes1 = after(bytes, id);
        let entity_id = VarInt::parse(bytes1);
        let bytes2 = after(bytes1, entity_id);
        let unique_id = Uuid::parse(bytes2);
        let bytes3 = after(bytes2, unique_id);
        let x = Double::parse(bytes3);
        let bytes4 = after(bytes3, x);
        let y = Double::parse(bytes4);
        let bytes5 = after(bytes4, y);
        let z = Double::parse(bytes5);
        let bytes6 = after(bytes5, z);
        let yaw = Angle::parse(bytes6);
        let bytes7 = after(bytes6, yaw);
        if id is Err {
            VarInt::stop(bytes)
        } else if entity_id is Err {
            used(id) + VarInt::stop(bytes1)
        } else if unique_id is Err {
            used(id) + used(entity_id) + Uuid::stop(bytes2)
        } else if x is Err {
            used(id) + used(entity_id) + used(unique_id) + Double::stop(bytes3)
        } else if y is Err {
            used(id) + used(entity_id) + used(unique_id) + used(x) + Double::stop(bytes4)
        } else if z is Err {
            used(id)
                + used(entity_id)
                + used(unique_id)
                + used(x)
                + used(y)
                + Double::stop(bytes5)
        } else if yaw is Err {
            used(id)
                + used(entity_id)
                + used(unique_id)
                + used(x)
                + used(y)
                + used(z)
                + Angle::stop(bytes6)
        } else {
            used(id)
                + used(entity_id)
                + used(unique_id)
                + used(x)
                + used(y)
                + used(z)
                + used(yaw)
                + Angle::stop(bytes7)
        }
    }

    fn decode(reader: &mut ByteReader<'_>) -> (r: Result<Self, DecodingError>) {
        let ghost bytes = reader.remaining();
        let ghost mut taken: nat = 0;
        let ghost before = reader.remaining();
        let id = VarInt::decode(reader)?;
        proof {
            let parsed = VarInt::parse(before);
            lemma_field_read(bytes, taken, before, parsed, reader.remaining());
            taken = taken + used(parsed);
        }
        let ghost before = reader.remaining();
        let entity_id = VarInt::decode(reader)?;
        proof {
            let parsed = VarInt::parse(before);
            lemma_field_read(bytes, taken, before, parsed, reader.remaining());
            taken = taken + used(parsed);
        }
        let ghost before = reader.remaining();
        let unique_id = Uuid::decode(reader)?;
        proof {
            let parsed = Uuid::parse(before);
            lemma_field_read(bytes, taken, before, parsed, reader.remaining());
            taken = taken + used(parsed);
        }
        let ghost before = reader.remaining();
        let x = Double::decode(reader)?;
        proof {
            let parsed = Double::parse(before);
            lemma_field_read(bytes, taken, before, parsed, reader.remaining());
            taken = taken + used(parsed);
        }
        let ghost before = reader.remaining();
        let y = Double::decode(reader)?;
        proof {
            let parsed = Double::parse(before);
            lemma_field_read(bytes, taken, before, parsed, reader.remaining());
            taken = taken + used(parsed);
        }
        let ghost before = reader.remaining();
        let z = Double::decode(reader)?;
        proof {
            let parsed = Double::parse(before);
            lemma_field_read(bytes, taken, before, parsed, reader.remaining());
            taken = taken + used(parsed);
        }
        let ghost before = reader.remaining();
        let yaw = Angle::decode(reader)?;
        proof {
            let parsed = Angle::parse(before);
            lemma_field_read(bytes, taken, before, parsed, reader.remaining());
            taken = taken + used(parsed);
        }
        let ghost before = reader.remaining();
        let pitch = Angle::decode(reader)?;
        proof {
            let parsed = Angle::parse(before);
            lemma_field_read(bytes, taken, before, parsed, reader.remaining());
            taken = taken + used(parsed);
        }
        Ok(SpawnPlayer { id, entity_id, unique_id, x, y, z, yaw, pitch })
    }
}

/// A [`SpawnPlayer`] decodes from its wire form to itself, whatever
/// follows it.
pub proof fn lemma_spawn_player_round_trip(packet: SpawnPlayer, rest: Seq<u8>)
    ensures
        SpawnPlayer::parse(packet.wire() + rest) == Ok::<(SpawnPlayer, nat), DecodingError>(
            (packet.deep_view(), packet.wire().len()),
        ),
{
    let tail8 = rest;
    let tail7 = packet.pitch.wire() + tail8;
    let tail6 = packet.yaw.wire() + tail7;
    let tail5 = packet.z.wire() + tail6;
    let tail4 = packet.y.wire() + tail5;
    let tail3 = packet.x.wire() + tail4;
    let tail2 = packet.unique_id.wire() + tail3;
    let tail1 = packet.entity_id.wire() + tail2;
    let tail0 = packet.id.wire() + tail1;
    let head1 = packet.id.wire();
    let head2 = head1 + packet.entity_id.wire();
    assert(head1 + tail1 == head2 + tail2);
    let head3 = head2 + packet.unique_id.wire();
    assert(head2 + tail2 == head3 + tail3);
    let head4 = head3 + packet.x.wire();
    assert(head3 + tail3 == head4 + tail4);
    let head5 = head4 + packet.y.wire();
    assert(head4 + tail4 == head5 + tail5);
    let head6 = head5 + packet.z.wire();
    assert(head5 + tail5 == head6 + tail6);
    let head7 = head6 + packet.yaw.wire();
    assert(head6 + tail6 == head7 + tail7);
    let head8 = head7 + packet.pitch.wire();
    assert(head7 + tail7 == head8 + tail8);
    assert(packet.wire() + rest == tail0);
    lemma_varint_round_trip(packet.id, tail1);
    lemma_field_written(tail0, VarInt::parse(tail0), packet.id.wire(), tail1);
    lemma_varint_round_trip(packet.entity_id, tail2);
    lemma_field_written(tail1, VarInt::parse(tail1), packet.entity_id.wire(), tail2);
    lemma_uuid_round_trip(packet.unique_id, tail3);
    lemma_field_written(tail2, Uuid::parse(tail2), packet.unique_id.wire(), tail3);
    lemma_double_round_trip(packet.x, tail4);
    lemma_field_written(tail3, Double::parse(tail3), packet.x.wire(), tail4);
    lemma_double_round_trip(packet.y, tail5);
    lemma_field_written(tail4, Double::parse(tail4), packet.y.wire(), tail5);
    lemma_double_round_trip(packet.z, tail6);
    lemma_field_written(tail5, Double::parse(tail5), packet.z.wire(), tail6);
    lemma_float_round_trip(packet.yaw, tail7);
    lemma_field_written(tail6, Angle::parse(tail6), packet.yaw.wire(), tail7);
    lemma_float_round_trip(packet.pitch, tail8);
    lemma_field_written(tail7, Angle::parse(tail7), packet.pitch.wire(), tail8);
}

/// An entity plays an animation. Packet `0x03`.
#[derive(Clone, Copy, Debug, PartialEq, Eq, Hash, Structural)]
pub struct EntityAnimation {
    pub id: VarInt,
    pub entity_id: VarInt,
    pub animation: EntityAnimationType,
}

impl DeepView for EntityAnimation {
    type V = EntityAnimation;

    open spec fn deep_view(&self) -> EntityAnimation {
        *self
    }
}

impl Encodable for EntityAnimation {
    open spec fn fits(&self) -> Result<(), EncodingError> {
        Ok(())
    }

    open spec fn wire(&self) -> Seq<u8> {
        self.id.wire() + self.entity_id.wire() + self.animation.wire()
    }

    fn encode(&self, writer: &mut Vec<u8>) -> (r: Result<(), EncodingError>) {
        self.id.encode(writer)?;
        self.entity_id.encode(writer)?;
        self.animation.encode(writer)?;
        assert(writer@ == old(writer)@ + self.wire());
        Ok(())
    }
}

impl Decodable for EntityAnimation {
    open spec fn parse(bytes: Seq<u8>) -> Result<(EntityAnimation, nat), DecodingError> {
        let id = VarInt::parse(bytes);
        let bytes1 = after(bytes, id);
        let entity_id = VarInt::parse(bytes1);
        let bytes2 = after(bytes1, entity_id);
        let animation = EntityAnimationType::parse(bytes2);
        if id is Err {
            Err(id->Err_0)
        } else if entity_id is Err {
            Err(entity_id->Err_0)
        } else if animation is Err {
            Err(animation->Err_0)
        } else {
            Ok(
                (
                    EntityAnimation {
                        id: id->Ok_0.0,
                        entity_id: entity_id->Ok_0.0,
                        animation: animation->Ok_0.0,
                    },
                    used(id) + used(entity_id) + used(animation),
                ),
            )
        }
    }

    /// The fields before the one that fails are read, and of that one what
    /// its own decoder reads.
    open spec fn stop(bytes: Seq<u8>) -> nat {
        let id = VarInt::parse(bytes);
        let bytes1 = after(bytes, id);
        let entity_id = VarInt::parse(bytes1);
        let bytes2 = after(bytes1, entity_id);
        if id is Err {
            VarInt::stop(bytes)
        } else if entity_id is Err {
            used(id) + VarInt::stop(bytes1)
        } else {
            used(id) + used(entity_id) + EntityAnimationType::stop(bytes2)
        }
    }

    fn decode(reader: &mut ByteReader<'_>) -> (r: Result<Self, DecodingError>) {
        let ghost bytes = reader.remaining();
        let ghost mut taken: nat = 0;
        let ghost before = reader.remaining();
        let id = VarInt::decode(reader)?;
        proof {
            let parsed = VarInt::parse(before);
            lemma_field_read(bytes, taken, before, parsed, reader.remaining());
            taken = taken + used(parsed);
        }
        let ghost before = reader.remaining();
        let entity_id = VarInt::decode(reader)?;
        proof {
            let parsed = VarInt::parse(before);
            lemma_field_read(bytes, taken, before, parsed, reader.remaining());
            taken = taken + used(parsed);
        }
        let ghost before = reader.remaining();
        let animation = EntityAnimationType::decode(reader)?;
        proof {
            let parsed = EntityAnimationType::parse(before);
            lemma_field_read(bytes, taken, before, parsed, reader.remaining());
            taken = taken + used(parsed);
        }
        Ok(EntityAnimation { id, entity_id, animation })
    }
}

/// An [`EntityAnimation`] decodes from its wire form to itself, whatever
/// follows it.
pub proof fn lemma_entity_animation_round_trip(packet: EntityAnimation, rest: Seq<u8>)
    ensures
        EntityAnimation::parse(packet.wire() + rest) == Ok::<(EntityAnimation, nat), DecodingError>(
            (packet.deep_view(), packet.wire().len()),
        ),
{
    let tail3 = rest;
    let tail2 = packet.animation.wire() + tail3;
    let tail1 = packet.entity_id.wire() + tail2;
    let tail0 = packet.id.wire() + tail1;
    let head1 = packet.id.wire();
    let head2 = head1 + packet.entity_id.wire();
    assert(head1 + tail1 == head2 + tail2);
    let head3 = head2 + packet.animation.wire();
    assert(head2 + tail2 == head3 + tail3);
    assert(packet.wire() + rest == tail0);
    lemma_varint_round_trip(packet.id, tail1);
    lemma_field_written(tail0, VarInt::parse(tail0), packet.id.wire(), tail1);
    lemma_varint_round_trip(packet.entity_id, tail2);
    lemma_field_written(tail1, VarInt::parse(tail1), packet.entity_id.wire(), tail2);
    lemma_animation_round_trip(packet.animation, tail3);
    lemma_field_written(tail2, EntityAnimationType::parse(tail2), packet.animation.wire(), tail3);
}

/// Statistics of the player. The statistics fill the packet to its end; the count travels as it is given, whatever their number. Packet `0x04`.
#[derive(Clone, Debug, PartialEq, Eq, Hash)]
pub struct AwardStatistics {
    pub id: VarInt,
    pub count: VarInt,
    pub statistic: Vec<Statistic>,
}

/// What an [`AwardStatistics`] holds, as mathematical values.
pub struct AwardStatisticsView {
    pub id: VarInt,
    pub count: VarInt,
    pub statistic: Seq<Statistic>,
}

impl DeepView for AwardStatistics {
    type V = AwardStatisticsView;

    open spec fn deep_view(&self) -> AwardStatisticsView {
        AwardStatisticsView {
            id: self.id,
            count: self.count,
            statistic: self.statistic@,
        }
    }
}

impl Encodable for AwardStatistics {
    open spec fn fits(&self) -> Result<(), EncodingError> {
        Ok(())
    }

    open spec fn wire(&self) -> Seq<u8> {
        self.id.wire() + self.count.wire() + self.statistic.wire()
    }

    fn encode(&self, writer: &mut Vec<u8>) -> (r: Result<(), EncodingError>) {
        self.id.encode(writer)?;
        self.count.encode(writer)?;
        self.statistic.encode(writer)?;
        assert(writer@ == old(writer)@ + self.wire());
        Ok(())
    }
}

impl Decodable for AwardStatistics {
    open spec fn parse(bytes: Seq<u8>) -> Result<(AwardStatisticsView, nat), DecodingError> {
        let id = VarInt::parse(bytes);
        let bytes1 = after(bytes, id);
        let count = VarInt::parse(bytes1);
        let bytes2 = after(bytes1, count);
        let statistic = Vec::<Statistic>::parse(bytes2);
        if id is Err {
            Err(id->Err_0)
        } else if count is Err {
            Err(count->Err_0)
        } else if statistic is Err {
            Err(statistic->Err_0)
        } else {
            Ok(
                (
                    AwardStatisticsView {
                        id: id->Ok_0.0,
                        count: count->Ok_0.0,
                        statistic: statistic->Ok_0.0,
                    },
                    used(id) + used(count) + used(statistic),
                ),
            )
        }
    }

    /// The fields before the one that fails are read, and of that one what
    /// its own decoder reads.
    open spec fn stop(bytes: Seq<u8>) -> nat {
        let id = VarInt::parse(bytes);
        let bytes1 = after(bytes, id);
        let count = VarInt::parse(bytes1);
        let bytes2 = after(bytes1, count);
        if id is Err {
            VarInt::stop(bytes)
        } else if count is Err {
            used(id) + VarInt::stop(bytes1)
        } else {
            used(id) + used(count) + Vec::<Statistic>::stop(bytes2)
        }
    }

    fn decode(reader: &mut ByteReader<'_>) -> (r: Result<Self, DecodingError>) {
        let ghost bytes = reader.remaining();
        let ghost mut taken: nat = 0;
        let ghost before = reader.remaining();
        let id = VarInt::decode(reader)?;
        proof {
            let parsed = VarInt::parse(before);
            lemma_field_read(bytes, taken, before, parsed, reader.remaining());
            taken = taken + used(parsed);
        }
        let ghost before = reader.remaining();
        let count = VarInt::decode(reader)?;
        proof {
            let parsed = VarInt::parse(before);
            lemma_field_read(bytes, taken, before, parsed, reader.remaining());
            taken = taken + used(parsed);
        }
        let ghost before = reader.remaining();
        let statistic = Vec::<Statistic>::decode(reader)?;
        proof {
            assert(statistic.deep_view() == statistic@);
            let parsed = Vec::<Statistic>::parse(before);
            lemma_field_read(bytes, taken, before, parsed, reader.remaining());
            taken = taken + used(parsed);
        }
        Ok(AwardStatistics { id, count, statistic })
    }
}

/// An [`AwardStatistics`] decodes from its wire form to itself, where nothing
/// follows it.
pub proof fn lemma_award_statistics_round_trip(packet: AwardStatistics)
    ensures
        AwardStatistics::parse(packet.wire()) == Ok::<(AwardStatisticsView, nat), DecodingError>(
            (packet.deep_view(), packet.wire().len()),
        ),
{
    let rest = Seq::<u8>::empty();
    let tail3 = rest;
    let tail2 = packet.statistic.wire() + tail3;
    let tail1 = packet.count.wire() + tail2;
    let tail0 = packet.id.wire() + tail1;
    let head1 = packet.id.wire();
    let head2 = head1 + packet.count.wire();
    assert(head1 + tail1 == head2 + tail2);
    let head3 = head2 + packet.statistic.wire();
    assert(head2 + tail2 == head3 + tail3);
    assert(packet.wire() + rest == tail0);
    lemma_varint_round_trip(packet.id, tail1);
    lemma_field_written(tail0, VarInt::parse(tail0), packet.id.wire(), tail1);
    lemma_varint_round_trip(packet.count, tail2);
    lemma_field_written(tail1, VarInt::parse(tail1), packet.count.wire(), tail2);
    assert(tail2 == packet.statistic.wire());
    lemma_statistics_round_trip(packet.statistic@);
    lemma_field_written(tail2, Vec::<Statistic>::parse(tail2), packet.statistic.wire(), tail3);
    assert(packet.wire() + rest == packet.wire());
}
} // verus!
