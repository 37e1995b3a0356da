use packet_codec::decoding::{Decodable, DecodingError};
use packet_codec::encoding::Encodable;
use packet_codec::position::Position;
use packet_codec::reader::ByteReader;

fn encoded(p: Position) -> Vec<u8> {
    let mut out = Vec::new();
    p.encode(&mut out).unwrap();
    out
}

#[test]
fn position_round_trip_at_the_corners() {
    for x in [-33554432, 0, 33554431] {
        for y in [-2048i16, 0, 2047] {
            for z in [-33554432, 0, 33554431] {
                let p = Position { x, y, z };
                let bytes = encoded(p);
                assert_eq!(bytes.len(), 8);
                assert_eq!(Position::decode(&mut ByteReader::new(&bytes)), Ok(p));
            }
        }
    }
}

#[test]
fn position_packs_x_then_z_then_y() {
    let p = Position { x: 1, y: 2, z: 3 };
    let word: u64 = (1 << 38) | (3 << 12) | 2;
    assert_eq!(encoded(p), word.to_be_bytes().to_vec());
    let q = Position { x: 18357644, y: 831, z: -20882616 };
    let word: i64 = ((18357644i64 & 0x3FFFFFF) << 38) | ((-20882616i64 & 0x3FFFFFF) << 12) | 831;
    assert_eq!(encoded(q), word.to_be_bytes().to_vec());
    assert_eq!(encoded(q), vec![0x46, 0x07, 0x63, 0x2c, 0x15, 0xb4, 0x83, 0x3f]);
}

#[test]
fn position_sign_extends_each_field() {
    assert_eq!(
        Position::decode(&mut ByteReader::new(&[0xff; 8])),
        Ok(Position { x: -1, y: -1, z: -1 })
    );
    let word: u64 = (0x2000000 << 38) | (0x1ffffff << 12) | 0x800;
    assert_eq!(
        Position::decode(&mut ByteReader::new(&word.to_be_bytes())),
        Ok(Position { x: -33554432, y: -2048, z: 33554431 })
    );
}

#[test]
fn position_out_of_range_is_cut_to_its_bits() {
    let p = Position { x: 33554432, y: 2048, z: -33554433 };
    let bytes = encoded(p);
    assert_eq!(
        Position::decode(&mut ByteReader::new(&bytes)),
        Ok(Position { x: -33554432, y: -2048, z: 33554431 })
    );
}

#[test]
fn position_that_ends_early_is_eof() {
    assert_eq!(
        Position::decode(&mut ByteReader::new(&[0; 7])),
        Err(DecodingError::UnexpectedEof)
    );
}
