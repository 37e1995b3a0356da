use packet_codec::animation::EntityAnimationType;
use packet_codec::datatypes::floats::{Double, Float};
use packet_codec::datatypes::unique_id::Uuid;
use packet_codec::datatypes::varint::VarInt;
use packet_codec::decoding::{Decodable, DecodingError};
use packet_codec::encoding::{Encodable, EncodingError};
use packet_codec::packets::login::LoginRequest;
use packet_codec::packets::play::{
    AwardStatistics, EntityAnimation, SpawnEntity, SpawnExperienceOrb, SpawnPlayer,
};
use packet_codec::packets::status::{PingResponse, StatusResponse};
use packet_codec::packets::{get_packet_type_from_id, Packet, PacketType};
use packet_codec::reader::ByteReader;
use packet_codec::statistics::{CategoryType, Statistic};
use packet_codec::types::{ClientState, PacketDirection};

const ALL_KINDS: [PacketType; 8] = [
    PacketType::StatusResponseType,
    PacketType::PingResponseType,
    PacketType::LoginRequestType,
    PacketType::SpawnEntityType,
    PacketType::SpawnExperienceOrbType,
    PacketType::SpawnPlayerType,
    PacketType::EntityAnimationType,
    PacketType::AwardStatisticsType,
];

const ALL_STATES: [ClientState; 4] = [
    ClientState::Handshake,
    ClientState::Status,
    ClientState::Login,
    ClientState::Play,
];

fn state_of(kind: PacketType) -> ClientState {
    match kind {
        PacketType::StatusResponseType | PacketType::PingResponseType => ClientState::Status,
        PacketType::LoginRequestType => ClientState::Login,
        _ => ClientState::Play,
    }
}

fn round_trip<T: Encodable + Decodable + PartialEq + std::fmt::Debug>(value: T) -> Vec<u8> {
    let mut bytes = Vec::new();
    value.encode(&mut bytes).unwrap();
    let mut reader = ByteReader::new(&bytes);
    assert_eq!(T::decode(&mut reader), Ok(value));
    assert_eq!(reader.remaining_len(), 0);
    bytes
}

fn double(x: f64) -> Double {
    Double::from_bits(x.to_bits())
}

fn angle(x: f32) -> Float {
    Float::from_bits(x.to_bits())
}

fn some_entity() -> SpawnEntity {
    SpawnEntity {
        id: VarInt(0),
        entity_id: VarInt(4711),
        entity_unique_id: Uuid::from_u128(0x0123456789abcdef_fedcba9876543210),
        ty: VarInt(-3),
        x: double(1.5),
        y: double(-64.0),
        z: double(1e300),
        pitch: angle(90.0),
        yaw: angle(-0.25),
        head_yaw: angle(0.0),
        data: VarInt(i32::MAX),
        velocity_x: -1,
        velocity_y: 0,
        velocity_z: i16::MAX,
    }
}

#[test]
fn every_registered_id_is_found_with_its_own_kind() {
    for kind in ALL_KINDS {
        let found =
            PacketType::get_from_id(kind.get_id(), state_of(kind), PacketDirection::Clientbound);
        assert_eq!(found, Ok(kind));
        assert_eq!(found.unwrap().get_id(), kind.get_id());
        assert_eq!(
            get_packet_type_from_id(kind.get_id(), state_of(kind), PacketDirection::Clientbound),
            Ok(kind)
        );
    }
}

#[test]
fn the_registered_ids() {
    assert_eq!(PacketType::StatusResponseType.get_id(), 0x00);
    assert_eq!(PacketType::PingResponseType.get_id(), 0x01);
    assert_eq!(PacketType::LoginRequestType.get_id(), 0x00);
    assert_eq!(PacketType::SpawnEntityType.get_id(), 0x00);
    assert_eq!(PacketType::SpawnExperienceOrbType.get_id(), 0x01);
    assert_eq!(PacketType::SpawnPlayerType.get_id(), 0x02);
    assert_eq!(PacketType::EntityAnimationType.get_id(), 0x03);
    assert_eq!(PacketType::AwardStatisticsType.get_id(), 0x04);
}

#[test]
fn a_lookup_succeeds_only_where_the_id_is_registered() {
    for state in ALL_STATES {
        for direction in [PacketDirection::Clientbound, PacketDirection::Serverbound] {
            for id in 0..=255u8 {
                let expected = ALL_KINDS.iter().copied().find(|kind| {
                    kind.get_id() == id
                        && state_of(*kind) == state
                        && direction == PacketDirection::Clientbound
                });
                let found = PacketType::get_from_id(id, state, direction);
                match expected {
                    Some(kind) => assert_eq!(found, Ok(kind)),
                    None => assert_eq!(
                        found,
                        Err(DecodingError::UnknownPacketId { id, state, direction })
                    ),
                }
            }
        }
    }
}

#[test]
fn an_id_of_play_is_unknown_in_login() {
    assert_eq!(
        PacketType::get_from_id(0x03, ClientState::Play, PacketDirection::Clientbound),
        Ok(PacketType::EntityAnimationType)
    );
    assert_eq!(
        PacketType::get_from_id(0x03, ClientState::Login, PacketDirection::Clientbound),
        Err(DecodingError::UnknownPacketId {
            id: 0x03,
            state: ClientState::Login,
            direction: PacketDirection::Clientbound,
        })
    );
    assert_eq!(
        PacketType::get_from_id(0x03, ClientState::Play, PacketDirection::Serverbound),
        Err(DecodingError::UnknownPacketId {
            id: 0x03,
            state: ClientState::Play,
            direction: PacketDirection::Serverbound,
        })
    );
}

#[test]
fn the_same_id_names_different_packets_in_different_states() {
    let clientbound = PacketDirection::Clientbound;
    assert_eq!(
        PacketType::get_from_id(0, ClientState::Status, clientbound),
        Ok(PacketType::StatusResponseType)
    );
    assert_eq!(
        PacketType::get_from_id(0, ClientState::Login, clientbound),
        Ok(PacketType::LoginRequestType)
    );
    assert_eq!(
        PacketType::get_from_id(0, ClientState::Play, clientbound),
        Ok(PacketType::SpawnEntityType)
    );
    assert!(PacketType::get_from_id(0, ClientState::Handshake, clientbound).is_err());
}

#[test]
fn login_request_bytes() {
    let request = LoginRequest {
        id: VarInt(0),
        uuid: Some(Uuid::from_u128(0x2fc8417d_9e8b_470b_9b73_aaa14fe177bc)),
        username: String::from("NV6"),
    };
    let bytes = round_trip(request);
    assert_eq!(
        bytes,
        vec![
            0, 1, 47, 200, 65, 125, 158, 139, 71, 11, 155, 115, 170, 161, 79, 225, 119, 188, 3, 78,
            86, 54
        ]
    );
    assert_eq!(bytes[0], PacketType::LoginRequestType.get_id());
}

#[test]
fn login_request_without_uuid() {
    let request = LoginRequest { id: VarInt(0), uuid: None, username: String::from("x") };
    assert_eq!(round_trip(request), vec![0, 0, 1, b'x']);
}

#[test]
fn status_and_ping_round_trip() {
    let status = StatusResponse { id: VarInt(0), response: String::from("{\"players\":3}") };
    let bytes = round_trip(status);
    assert_eq!(bytes[0], 0);
    assert_eq!(bytes[1], 13);
    let ping = PingResponse { id: VarInt(1), payload: -81985529216486896 };
    assert_eq!(
        round_trip(ping),
        vec![1, 0xfe, 0xdc, 0xba, 0x98, 0x76, 0x54, 0x32, 0x10]
    );
}

#[test]
fn a_packet_with_a_long_text_is_refused_whole() {
    let status = StatusResponse { id: VarInt(300), response: "z".repeat(300) };
    let mut out = vec![7];
    assert_eq!(status.encode(&mut out), Err(EncodingError::StringTooLong));
    assert_eq!(out, vec![7]);
    let login = LoginRequest { id: VarInt(0), uuid: None, username: "z".repeat(256) };
    assert_eq!(login.encode(&mut out), Err(EncodingError::StringTooLong));
    assert_eq!(out, vec![7]);
}

#[test]
fn spawn_packets_round_trip() {
    let bytes = round_trip(some_entity());
    assert_eq!(bytes.len(), 1 + 2 + 16 + 5 + 24 + 12 + 5 + 6);
    round_trip(SpawnExperienceOrb {
        id: VarInt(1),
        entity_id: VarInt(128),
        x: double(0.0),
        y: double(-0.0),
        z: double(f64::INFINITY),
        count: 7,
    });
    round_trip(SpawnPlayer {
        id: VarInt(2),
        entity_id: VarInt(-1),
        unique_id: Uuid::from_u128(u128::MAX),
        x: double(12.25),
        y: double(70.0),
        z: double(-12.25),
        yaw: angle(180.0),
        pitch: angle(-45.5),
    });
}

#[test]
fn spawn_entity_fields_come_in_declared_order() {
    let bytes = round_trip(some_entity());
    assert_eq!(&bytes[..3], &[0, 0xe7, 0x24]);
    assert_eq!(&bytes[3..19], &0x0123456789abcdef_fedcba9876543210u128.to_be_bytes());
    assert_eq!(&bytes[19..24], &[0xfd, 0xff, 0xff, 0xff, 0x0f]);
    assert_eq!(&bytes[24..32], &1.5f64.to_be_bytes());
    assert_eq!(&bytes[48..52], &90.0f32.to_be_bytes());
    assert_eq!(&bytes[bytes.len() - 6..], &[0xff, 0xff, 0, 0, 0x7f, 0xff]);
}

#[test]
fn a_packet_that_ends_early_is_eof() {
    let mut bytes = Vec::new();
    some_entity().encode(&mut bytes).unwrap();
    for cut in [0, 1, 10, 30, bytes.len() - 1] {
        assert_eq!(
            SpawnEntity::decode(&mut ByteReader::new(&bytes[..cut])),
            Err(DecodingError::UnexpectedEof),
            "cut at {}",
            cut
        );
    }
}

#[test]
fn animations_travel_as_their_numbers() {
    let all = [
        EntityAnimationType::SwingMainArm,
        EntityAnimationType::TakeDamage,
        EntityAnimationType::LeaveBed,
        EntityAnimationType::SwingOffHand,
        EntityAnimationType::CriticalEffect,
        EntityAnimationType::MagicCriticalEffect,
    ];
    for (number, animation) in all.into_iter().enumerate() {
        assert_eq!(round_trip(animation), vec![number as u8]);
    }
    round_trip(EntityAnimation {
        id: VarInt(3),
        entity_id: VarInt(99),
        animation: EntityAnimationType::LeaveBed,
    });
}

#[test]
fn an_unknown_animation_is_an_error() {
    assert_eq!(
        EntityAnimationType::decode(&mut ByteReader::new(&[6])),
        Err(DecodingError::UnsupportedDiscriminant)
    );
    assert_eq!(
        EntityAnimation::decode(&mut ByteReader::new(&[3, 99, 0xff])),
        Err(DecodingError::UnsupportedDiscriminant)
    );
}

#[test]
fn statistics_travel_as_three_varints() {
    let statistic = Statistic {
        category: CategoryType::KilledBy,
        statistic_id: VarInt(300),
        value: VarInt(-1),
    };
    assert_eq!(
        round_trip(statistic),
        vec![7, 0xac, 0x02, 0xff, 0xff, 0xff, 0xff, 0x0f]
    );
    let all = [
        CategoryType::Mined,
        CategoryType::Crafted,
        CategoryType::Used,
        CategoryType::Broken,
        CategoryType::PickedUp,
        CategoryType::Dropped,
        CategoryType::Killed,
        CategoryType::KilledBy,
        CategoryType::Custom,
    ];
    for (number, category) in all.into_iter().enumerate() {
        assert_eq!(category.id(), number as i32);
        assert_eq!(CategoryType::from_id(number as i32), Ok(category));
        assert_eq!(round_trip(category), vec![number as u8]);
    }
}

#[test]
fn an_unknown_category_is_an_error_and_no_abort() {
    assert_eq!(CategoryType::from_id(9), Err(DecodingError::UnsupportedDiscriminant));
    assert_eq!(CategoryType::from_id(-1), Err(DecodingError::UnsupportedDiscriminant));
    assert_eq!(
        Statistic::decode(&mut ByteReader::new(&[9, 1, 1])),
        Err(DecodingError::UnsupportedDiscriminant)
    );
}

#[test]
fn award_statistics_fill_the_packet() {
    let packet = AwardStatistics {
        id: VarInt(4),
        count: VarInt(2),
        statistic: vec![
            Statistic { category: CategoryType::Mined, statistic_id: VarInt(1), value: VarInt(2) },
            Statistic {
                category: CategoryType::Custom,
                statistic_id: VarInt(200),
                value: VarInt(3),
            },
        ],
    };
    assert_eq!(round_trip(packet), vec![4, 2, 0, 1, 2, 8, 0xc8, 0x01, 3]);
    round_trip(AwardStatistics { id: VarInt(4), count: VarInt(0), statistic: vec![] });
}

#[test]
fn award_statistics_with_half_a_statistic_is_eof() {
    assert_eq!(
        AwardStatistics::decode(&mut ByteReader::new(&[4, 1, 0, 1])),
        Err(DecodingError::UnexpectedEof)
    );
}

#[test]
fn wrap_packet_puts_a_missing_id_back() {
    let ping = PingResponse { id: VarInt(1), payload: 5 };
    let mut whole = Vec::new();
    ping.encode(&mut whole).unwrap();
    let kind = PacketType::PingResponseType;
    assert_eq!(kind.wrap_packet::<PingResponse>(&whole), Ok(ping));
    // The payload starts with a zero byte, which is not the id of the kind.
    assert_eq!(kind.wrap_packet::<PingResponse>(&whole[1..]), Ok(ping));
    assert_eq!(
        kind.wrap_packet::<PingResponse>(&[]),
        Err(DecodingError::UnexpectedEof)
    );
}

#[test]
fn wrap_packet_takes_a_first_byte_that_equals_the_id_for_the_id() {
    // Without its id, this payload happens to start with the byte of the id.
    let ping = PingResponse { id: VarInt(1), payload: 0x0100_0000_0000_0000 };
    let mut whole = Vec::new();
    ping.encode(&mut whole).unwrap();
    let kind = PacketType::PingResponseType;
    assert_eq!(
        kind.wrap_packet::<PingResponse>(&whole[1..]),
        Err(DecodingError::UnexpectedEof)
    );
}

#[test]
fn decode_packet_marks_the_record_with_its_kind() {
    let animation = EntityAnimation {
        id: VarInt(3),
        entity_id: VarInt(12),
        animation: EntityAnimationType::TakeDamage,
    };
    let mut bytes = Vec::new();
    animation.encode(&mut bytes).unwrap();
    let kind =
        PacketType::get_from_id(bytes[0], ClientState::Play, PacketDirection::Clientbound).unwrap();
    let packet = kind.decode_packet(&bytes[1..]).unwrap();
    assert_eq!(packet, Packet::EntityAnimation(animation));
    assert_eq!(packet.packet_type(), kind);
    let mut again = Vec::new();
    packet.encode(&mut again).unwrap();
    assert_eq!(again, bytes);
}

#[test]
fn decode_packet_of_every_kind() {
    let packets = vec![
        Packet::StatusResponse(StatusResponse { id: VarInt(0), response: String::from("ok") }),
        Packet::PingResponse(PingResponse { id: VarInt(1), payload: 1 }),
        Packet::LoginRequest(LoginRequest {
            id: VarInt(0),
            uuid: None,
            username: String::from("NV6"),
        }),
        Packet::SpawnEntity(some_entity()),
        Packet::SpawnExperienceOrb(SpawnExperienceOrb {
            id: VarInt(1),
            entity_id: VarInt(2),
            x: double(1.0),
            y: double(2.0),
            z: double(3.0),
            count: 4,
        }),
        Packet::SpawnPlayer(SpawnPlayer {
            id: VarInt(2),
            entity_id: VarInt(3),
            unique_id: Uuid::from_u128(1),
            x: double(1.0),
            y: double(2.0),
            z: double(3.0),
            yaw: angle(4.0),
            pitch: angle(5.0),
        }),
        Packet::EntityAnimation(EntityAnimation {
            id: VarInt(3),
            entity_id: VarInt(4),
            animation: EntityAnimationType::CriticalEffect,
        }),
        Packet::AwardStatistics(AwardStatistics {
            id: VarInt(4),
            count: VarInt(0),
            statistic: vec![],
        }),
    ];
    for packet in packets {
        let mut bytes = Vec::new();
        packet.encode(&mut bytes).unwrap();
        let kind = packet.packet_type();
        assert_eq!(bytes[0], kind.get_id());
        assert_eq!(kind.decode_packet(&bytes), Ok(packet));
    }
}

#[test]
fn an_unknown_animation_takes_its_one_byte() {
    let bytes = [6, 1, 2, 3];
    let mut reader = ByteReader::new(&bytes);
    assert_eq!(
        EntityAnimationType::decode(&mut reader),
        Err(DecodingError::UnsupportedDiscriminant)
    );
    assert_eq!(reader.remaining_len(), 3);
    let mut reader = ByteReader::new(&bytes[..0]);
    assert_eq!(EntityAnimationType::decode(&mut reader), Err(DecodingError::UnexpectedEof));
    assert_eq!(reader.remaining_len(), 0);
    let mut reader = ByteReader::new(&bytes[1..]);
    assert_eq!(EntityAnimationType::decode(&mut reader), Ok(EntityAnimationType::TakeDamage));
    assert_eq!(reader.remaining_len(), 2);
}

#[test]
fn a_failed_read_of_a_packet_stops_in_the_field_that_fails() {
    // The id and the entity are read, and the byte of the unknown animation.
    let bytes = [3, 0xac, 0x02, 9, 1, 1];
    let mut reader = ByteReader::new(&bytes);
    assert_eq!(
        EntityAnimation::decode(&mut reader),
        Err(DecodingError::UnsupportedDiscriminant)
    );
    assert_eq!(reader.remaining_len(), 2);
    // The id, the presence byte and the length byte are read, and nothing of the short name.
    let bytes = [0, 0, 5, b'a', b'b'];
    let mut reader = ByteReader::new(&bytes);
    assert_eq!(LoginRequest::decode(&mut reader), Err(DecodingError::UnexpectedEof));
    assert_eq!(reader.remaining_len(), 2);
    // Nothing of a number of too few bytes is read.
    let bytes = [1, 0, 0, 0];
    let mut reader = ByteReader::new(&bytes);
    assert_eq!(PingResponse::decode(&mut reader), Err(DecodingError::UnexpectedEof));
    assert_eq!(reader.remaining_len(), 3);
    // A statistic of an unknown category is read as far as the category.
    let bytes = [4, 1, 0, 1, 2, 9, 7, 7];
    let mut reader = ByteReader::new(&bytes);
    assert_eq!(
        AwardStatistics::decode(&mut reader),
        Err(DecodingError::UnsupportedDiscriminant)
    );
    assert_eq!(reader.remaining_len(), 2);
}
