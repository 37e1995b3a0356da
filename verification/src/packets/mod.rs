//! The packets, and the way from a packet id to the kind of packet.
//!
//! A packet id means something only together with the state of the connection
//! and the direction of travel: the same number names different packets in
//! different states.

pub mod clientbound;

pub use crate::types::{ClientState, PacketDirection, PacketState};
pub use clientbound::{login, play, status};

use crate::datatypes::bigendian::append;
use crate::packets::login::{LoginRequest, LoginRequestView};
use crate::packets::play::{
    AwardStatistics, AwardStatisticsView, EntityAnimation, SpawnEntity, SpawnExperienceOrb,
    SpawnPlayer,
};
use crate::packets::status::{PingResponse, StatusResponse, StatusResponseView};
use crate::decoding::{Decodable, DecodingError};
use crate::encoding::{Encodable, EncodingError};
use crate::reader::ByteReader;
use vstd::prelude::*;

verus! {

/// The kinds of packet that the library knows, one for each registered
/// combination of id, state and direction.
#[derive(Clone, Copy, Debug, PartialEq, Eq, Hash, Structural)]
pub enum PacketType {
    StatusResponseType,
    PingResponseType,
    LoginRequestType,
    SpawnEntityType,
    SpawnExperienceOrbType,
    SpawnPlayerType,
    EntityAnimationType,
    AwardStatisticsType,
}

/// A packet of one of the known kinds, with what it holds.
#[derive(Clone, Debug, PartialEq, Eq, Hash)]
pub enum Packet {
    StatusResponse(StatusResponse),
    PingResponse(PingResponse),
    LoginRequest(LoginRequest),
    SpawnEntity(SpawnEntity),
    SpawnExperienceOrb(SpawnExperienceOrb),
    SpawnPlayer(SpawnPlayer),
    EntityAnimation(EntityAnimation),
    AwardStatistics(AwardStatistics),
}

/// A packet of one of the known kinds, with what it holds as mathematical
/// values.
pub enum PacketView {
    StatusResponse(StatusResponseView),
    PingResponse(PingResponse),
    LoginRequest(LoginRequestView),
    SpawnEntity(SpawnEntity),
    SpawnExperienceOrb(SpawnExperienceOrb),
    SpawnPlayer(SpawnPlayer),
    EntityAnimation(EntityAnimation),
    AwardStatistics(AwardStatisticsView),
}

impl DeepView for Packet {
    type V = PacketView;

    open spec fn deep_view(&self) -> PacketView {
        match self {
            Packet::StatusResponse(p) => PacketView::StatusResponse(p.deep_view()),
            Packet::PingResponse(p) => PacketView::PingResponse(*p),
            Packet::LoginRequest(p) => PacketView::LoginRequest(p.deep_view()),
            Packet::SpawnEntity(p) => PacketView::SpawnEntity(*p),
            Packet::SpawnExperienceOrb(p) => PacketView::SpawnExperienceOrb(*p),
            Packet::SpawnPlayer(p) => PacketView::SpawnPlayer(*p),
            Packet::EntityAnimation(p) => PacketView::EntityAnimation(*p),
            Packet::AwardStatistics(p) => PacketView::AwardStatistics(p.deep_view()),
        }
    }
}

/// The kind of a packet.
pub open spec fn kind_of(packet: PacketView) -> PacketType {
    match packet {
        PacketView::StatusResponse(_) => PacketType::StatusResponseType,
        PacketView::PingResponse(_) => PacketType::PingResponseType,
        PacketView::LoginRequest(_) => PacketType::LoginRequestType,
        PacketView::SpawnEntity(_) => PacketType::SpawnEntityType,
        PacketView::SpawnExperienceOrb(_) => PacketType::SpawnExperienceOrbType,
        PacketView::SpawnPlayer(_) => PacketType::SpawnPlayerType,
        PacketView::EntityAnimation(_) => PacketType::EntityAnimationType,
        PacketView::AwardStatistics(_) => PacketType::AwardStatisticsType,
    }
}

/// What a parse of a record gives once the record is marked as a packet.
pub open spec fn marked<T>(
    parsed: Result<(T, nat), DecodingError>,
    mark: spec_fn(T) -> PacketView,
) -> Result<PacketView, DecodingError> {
    match parsed {
        Ok((record, _)) => Ok(mark(record)),
        Err(e) => Err(e),
    }
}

/// What `bytes`, the id of the packet in front, decode to as a packet of the
/// given kind.
pub open spec fn packet_parse(kind: PacketType, bytes: Seq<u8>) -> Result<
    PacketView,
    DecodingError,
> {
    match kind {
        PacketType::StatusResponseType => marked(
            StatusResponse::parse(bytes),
            |p| PacketView::StatusResponse(p),
        ),
        PacketType::PingResponseType => marked(
            PingResponse::parse(bytes),
            |p| PacketView::PingResponse(p),
        ),
        PacketType::LoginRequestType => marked(
            LoginRequest::parse(bytes),
            |p| PacketView::LoginRequest(p),
        ),
        PacketType::SpawnEntityType => marked(
            SpawnEntity::parse(bytes),
            |p| PacketView::SpawnEntity(p),
        ),
        PacketType::SpawnExperienceOrbType => marked(
            SpawnExperienceOrb::parse(bytes),
            |p| PacketView::SpawnExperienceOrb(p),
        ),
        PacketType::SpawnPlayerType => marked(
            SpawnPlayer::parse(bytes),
            |p| PacketView::SpawnPlayer(p),
        ),
        PacketType::EntityAnimationType => marked(
            EntityAnimation::parse(bytes),
            |p| PacketView::EntityAnimation(p),
        ),
        PacketType::AwardStatisticsType => marked(
            AwardStatistics::parse(bytes),
            |p| PacketView::AwardStatistics(p),
        ),
    }
}

/// Whether some kind of packet is registered under the id, for the state and
/// the direction.
pub open spec fn registered(id: u8, state: ClientState, direction: PacketDirection) -> bool {
    exists|kind: PacketType| #[trigger] kind.is_under(id, state, direction)
}

/// The bytes of a packet with its id in front: `data` as it is where it
/// starts with the id, and with the id put before it where it does not.
pub open spec fn framed(id: u8, data: Seq<u8>) -> Seq<u8> {
    if data.len() > 0 && data[0] == id {
        data
    } else {
        seq![id] + data
    }
}

impl PacketType {
    /// The id under which the kind is registered.
    pub open spec fn id(self) -> u8 {
        match self {
            PacketType::StatusResponseType => 0x00,
            PacketType::PingResponseType => 0x01,
            PacketType::LoginRequestType => 0x00,
            PacketType::SpawnEntityType => 0x00,
            PacketType::SpawnExperienceOrbType => 0x01,
            PacketType::SpawnPlayerType => 0x02,
            PacketType::EntityAnimationType => 0x03,
            PacketType::AwardStatisticsType => 0x04,
        }
    }

    /// The connection state in which the kind travels.
    pub open spec fn state(self) -> ClientState {
        match self {
            PacketType::StatusResponseType => ClientState::Status,
            PacketType::PingResponseType => ClientState::Status,
            PacketType::LoginRequestType => ClientState::Login,
            PacketType::SpawnEntityType => ClientState::Play,
            PacketType::SpawnExperienceOrbType => ClientState::Play,
            PacketType::SpawnPlayerType => ClientState::Play,
            PacketType::EntityAnimationType => ClientState::Play,
            PacketType::AwardStatisticsType => ClientState::Play,
        }
    }

    /// The direction in which the kind travels.
    pub open spec fn direction(self) -> PacketDirection {
        PacketDirection::Clientbound
    }

    /// Whether the kind is the one registered under the id, for the state and
    /// the direction.
    pub open spec fn is_under(self, id: u8, state: ClientState, direction: PacketDirection) -> bool {
        self.id() == id && self.state() == state && self.direction() == direction
    }

    /// The id under which the kind is registered.
    pub fn get_id(&self) -> (id: u8)
        ensures
            id == self.id(),
    {
        match self {
            PacketType::StatusResponseType => 0x00,
            PacketType::PingResponseType => 0x01,
            PacketType::LoginRequestType => 0x00,
            PacketType::SpawnEntityType => 0x00,
            PacketType::SpawnExperienceOrbType => 0x01,
            PacketType::SpawnPlayerType => 0x02,
            PacketType::EntityAnimationType => 0x03,
            PacketType::AwardStatisticsType => 0x04,
        }
    }

    /// The kind of packet registered under `id` for the state and direction.
    ///
    /// An id is looked up only among the packets of the given state and
    /// direction: one that is registered elsewhere and not here is unknown.
    pub fn get_from_id(id: u8, state: ClientState, direction: PacketDirection) -> (r: Result<
        PacketType,
        DecodingError,
    >)
        ensures
            r is Ok <==> registered(id, state, direction),
            r matches Ok(kind) ==> kind.is_under(id, state, direction),
            r matches Err(e) ==> e == (DecodingError::UnknownPacketId { id, state, direction }),
    {
        let unknown = Err(DecodingError::UnknownPacketId { id, state, direction });
        let found = match direction {
            PacketDirection::Serverbound => None,
            PacketDirection::Clientbound => match state {
                ClientState::Handshake => None,
                ClientState::Status => match id {
                    0x00 => Some(PacketType::StatusResponseType),
                    0x01 => Some(PacketType::PingResponseType),
                    _ => None,
                },
                ClientState::Login => match id {
                    0x00 => Some(PacketType::LoginRequestType),
                    _ => None,
                },
                ClientState::Play => match id {
                    0x00 => Some(PacketType::SpawnEntityType),
                    0x01 => Some(PacketType::SpawnExperienceOrbType),
                    0x02 => Some(PacketType::SpawnPlayerType),
                    0x03 => Some(PacketType::EntityAnimationType),
                    0x04 => Some(PacketType::AwardStatisticsType),
                    _ => None,
                },
            },
        };
        match found {
            Some(kind) => {
                assert(kind.is_under(id, state, direction));
                Ok(kind)
            },
            None => {
                assert forall|kind: PacketType| !#[trigger] kind.is_under(id, state, direction) by {
                }
                unknown
            },
        }
    }

    /// Decodes the bytes of a packet of this kind as a `T`.
    ///
    /// The decoder of a packet expects the id of the packet in front of its
    /// fields. Where `data` does not start with the id of this kind (the
    /// caller has taken it off to find the kind, or there are no bytes at
    /// all), the id is put back before decoding.
    pub fn wrap_packet<T>(&self, data: &[u8]) -> (r: Result<T, DecodingError>) where
        T: Encodable + Decodable,

        ensures
            match T::parse(framed(self.id(), data@)) {
                Ok((value, _)) => r is Ok && r->Ok_0.deep_view() == value,
                Err(e) => r is Err && r->Err_0 == e,
            },
    {
        let id = self.get_id();
        let mut frame: Vec<u8> = Vec::new();
        if data.len() == 0 || data[0] != id {
            frame.push(id);
        }
        append(&mut frame, data);
        assert(frame@ == framed(self.id(), data@));
        let mut reader = ByteReader::new(frame.as_slice());
        assert(reader.remaining() == frame@);
        T::decode(&mut reader)
    }
}

impl PacketType {
    /// Decodes the bytes of a packet of this kind, and marks what was decoded
    /// with the kind. As with [`PacketType::wrap_packet`], the id is put in
    /// front of `data` where `data` does not start with it.
    pub fn decode_packet(&self, data: &[u8]) -> (r: Result<Packet, DecodingError>)
        ensures
            match packet_parse(*self, framed(self.id(), data@)) {
                Ok(packet) => r is Ok && r->Ok_0.deep_view() == packet && kind_of(packet) == *self,
                Err(e) => r is Err && r->Err_0 == e,
            },
    {
        match self {
            PacketType::StatusResponseType => match self.wrap_packet::<StatusResponse>(data) {
                Ok(p) => Ok(Packet::StatusResponse(p)),
                Err(e) => Err(e),
            },
            PacketType::PingResponseType => match self.wrap_packet::<PingResponse>(data) {
                Ok(p) => Ok(Packet::PingResponse(p)),
                Err(e) => Err(e),
            },
            PacketType::LoginRequestType => match self.wrap_packet::<LoginRequest>(data) {
                Ok(p) => Ok(Packet::LoginRequest(p)),
                Err(e) => Err(e),
            },
            PacketType::SpawnEntityType => match self.wrap_packet::<SpawnEntity>(data) {
                Ok(p) => Ok(Packet::SpawnEntity(p)),
                Err(e) => Err(e),
            },
            PacketType::SpawnExperienceOrbType => match self.wrap_packet::<SpawnExperienceOrb>(
                data,
            ) {
                Ok(p) => Ok(Packet::SpawnExperienceOrb(p)),
                Err(e) => Err(e),
            },
            PacketType::SpawnPlayerType => match self.wrap_packet::<SpawnPlayer>(data) {
                Ok(p) => Ok(Packet::SpawnPlayer(p)),
                Err(e) => Err(e),
            },
            PacketType::EntityAnimationType => match self.wrap_packet::<EntityAnimation>(data) {
                Ok(p) => Ok(Packet::EntityAnimation(p)),
                Err(e) => Err(e),
            },
            PacketType::AwardStatisticsType => match self.wrap_packet::<AwardStatistics>(data) {
                Ok(p) => Ok(Packet::AwardStatistics(p)),
                Err(e) => Err(e),
            },
        }
    }
}

impl Packet {
    /// The kind of the packet.
    pub fn packet_type(&self) -> (kind: PacketType)
        ensures
            kind == kind_of(self.deep_view()),
    {
        match self {
            Packet::StatusResponse(_) => PacketType::StatusResponseType,
            Packet::PingResponse(_) => PacketType::PingResponseType,
            Packet::LoginRequest(_) => PacketType::LoginRequestType,
            Packet::SpawnEntity(_) => PacketType::SpawnEntityType,
            Packet::SpawnExperienceOrb(_) => PacketType::SpawnExperienceOrbType,
            Packet::SpawnPlayer(_) => PacketType::SpawnPlayerType,
            Packet::EntityAnimation(_) => PacketType::EntityAnimationType,
            Packet::AwardStatistics(_) => PacketType::AwardStatisticsType,
        }
    }
}

impl Encodable for Packet {
    open spec fn fits(&self) -> Result<(), EncodingError> {
        match self {
            Packet::StatusResponse(p) => p.fits(),
            Packet::PingResponse(p) => p.fits(),
            Packet::LoginRequest(p) => p.fits(),
            Packet::SpawnEntity(p) => p.fits(),
            Packet::SpawnExperienceOrb(p) => p.fits(),
            Packet::SpawnPlayer(p) => p.fits(),
            Packet::EntityAnimation(p) => p.fits(),
            Packet::AwardStatistics(p) => p.fits(),
        }
    }

    open spec fn wire(&self) -> Seq<u8> {
        match self {
            Packet::StatusResponse(p) => p.wire(),
            Packet::PingResponse(p) => p.wire(),
            Packet::LoginRequest(p) => p.wire(),
            Packet::SpawnEntity(p) => p.wire(),
            Packet::SpawnExperienceOrb(p) => p.wire(),
            Packet::SpawnPlayer(p) => p.wire(),
            Packet::EntityAnimation(p) => p.wire(),
            Packet::AwardStatistics(p) => p.wire(),
        }
    }

    /// A packet travels as the record that it holds: the kind is not written.
    fn encode(&self, writer: &mut Vec<u8>) -> (r: Result<(), EncodingError>) {
        match self {
            Packet::StatusResponse(p) => p.encode(writer),
            Packet::PingResponse(p) => p.encode(writer),
            Packet::LoginRequest(p) => p.encode(writer),
            Packet::SpawnEntity(p) => p.encode(writer),
            Packet::SpawnExperienceOrb(p) => p.encode(writer),
            Packet::SpawnPlayer(p) => p.encode(writer),
            Packet::EntityAnimation(p) => p.encode(writer),
            Packet::AwardStatistics(p) => p.encode(writer),
        }
    }
}

/// The kind of packet registered under `id` for the state and direction, as
/// [`PacketType::get_from_id`] gives it.
pub fn get_packet_type_from_id(id: u8, state: PacketState, direction: PacketDirection) -> (r:
    Result<PacketType, DecodingError>)
    ensures
        r is Ok <==> registered(id, state, direction),
        r matches Ok(kind) ==> kind.is_under(id, state, direction),
        r matches Err(e) ==> e == (DecodingError::UnknownPacketId { id, state, direction }),
{
    PacketType::get_from_id(id, state, direction)
}

/// No two kinds of packet are registered under the same id, state and
/// direction: a lookup that succeeds has one possible answer.
pub proof fn lemma_dispatch_unambiguous(a: PacketType, b: PacketType)
    requires
        a.id() == b.id(),
        a.state() == b.state(),
        a.direction() == b.direction(),
    ensures
        a == b,
{
}

/// Every kind of packet is found again under its own id, state and direction,
/// and under its id in no other state and no other direction.
pub proof fn lemma_dispatch_finds_each_kind(
    kind: PacketType,
    state: ClientState,
    direction: PacketDirection,
)
    ensures
        registered(kind.id(), kind.state(), kind.direction()),
        kind.is_under(kind.id(), state, direction) <==> state == kind.state() && direction
            == kind.direction(),
{
    assert(kind.is_under(kind.id(), kind.state(), kind.direction()));
}

} // verus!
