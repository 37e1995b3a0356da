use packet_codec::datatypes::unique_id::Uuid;
use packet_codec::decoding::Decodable;
use packet_codec::encoding::Encodable;
use packet_codec::packets::login::LoginRequest;
use packet_codec::packets::{get_packet_type_from_id, PacketDirection, PacketState, PacketType};
use packet_codec::reader::ByteReader;
use packet_codec::VarInt;
use std::str::FromStr;

fn player_id() -> Uuid {
    let parsed = uuid::Uuid::from_str("2fc8417d-9e8b-470b-9b73-aaa14fe177bc").unwrap();
    Uuid::from_bytes(*parsed.as_bytes())
}

#[test]
fn decoding_login_request_test() {
    let data = [
        0, 1, 47, 200, 65, 125, 158, 139, 71, 11, 155, 115, 170, 161, 79, 225, 119, 188, 3, 78, 86,
        54,
    ];
    let cursor = &mut ByteReader::new(&data);
    let decoded = LoginRequest::decode(cursor);
    println!("{:?}, {:?}", data, decoded);
    assert_eq!(
        decoded,
        Ok(LoginRequest {
            id: VarInt(0),
            uuid: Some(player_id()),
            username: String::from("NV6"),
        })
    );
}

#[test]
fn encoding_login_request_test() {
    let unique_id = Some(player_id());

    let request = LoginRequest {
        id: VarInt(0x00),
        uuid: unique_id,
        username: String::from("NV6"),
    };

    let buf = &mut Vec::<u8>::new();
    let buf2 = &mut Vec::<u8>::new();
    request.encode(buf).unwrap();
    unique_id.encode(buf2).unwrap();

    let mut cursor = ByteReader::new(buf);
    let mut cursor2 = ByteReader::new(buf2);

    assert_eq!(request, LoginRequest::decode(&mut cursor).unwrap());
    assert_eq!(Option::<Uuid>::decode(&mut cursor2).unwrap(), unique_id);
}

#[test]
fn packet_type() {
    let request = LoginRequest {
        id: VarInt(0x00),
        uuid: Some(player_id()),
        username: String::from("NV6"),
    };

    let data = &mut Vec::<u8>::new();

    request.encode(data).unwrap();

    let packet_type =
        get_packet_type_from_id(0x00, PacketState::Login, PacketDirection::Clientbound).unwrap();

    if let PacketType::LoginRequestType = packet_type {
        let packet = packet_type.wrap_packet::<LoginRequest>(data).unwrap();

        assert_eq!(request, packet, "Packet data does not match!");
        assert_eq!(0x00, packet_type.get_id());
    } else {
        panic!("the login id was given to another kind of packet");
    }
}
