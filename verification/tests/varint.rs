use packet_codec::datatypes::varint::VarInt;
use packet_codec::decoding::{Decodable, DecodingError};
use packet_codec::encoding::Encodable;
use packet_codec::reader::ByteReader;

fn encoded(v: i32) -> Vec<u8> {
    let mut out = Vec::new();
    VarInt(v).encode(&mut out).unwrap();
    out
}

fn decoded(bytes: &[u8]) -> Result<VarInt, DecodingError> {
    VarInt::decode(&mut ByteReader::new(bytes))
}

#[test]
fn varint_round_trip_at_the_boundaries() {
    let values = [
        0,
        1,
        127,
        128,
        255,
        16383,
        16384,
        2097151,
        2097152,
        268435455,
        268435456,
        i32::MAX,
        -1,
        -128,
        i32::MIN,
    ];
    for v in values {
        let bytes = encoded(v);
        let mut reader = ByteReader::new(&bytes);
        assert_eq!(VarInt::decode(&mut reader), Ok(VarInt(v)), "value {}", v);
        assert_eq!(reader.remaining_len(), 0, "value {}", v);
    }
}

#[test]
fn varint_byte_lengths() {
    assert_eq!(encoded(0).len(), 1);
    assert_eq!(encoded(127).len(), 1);
    assert_eq!(encoded(128).len(), 2);
    assert_eq!(encoded(16383).len(), 2);
    assert_eq!(encoded(16384).len(), 3);
    assert_eq!(encoded(2097151).len(), 3);
    assert_eq!(encoded(2097152).len(), 4);
    assert_eq!(encoded(268435455).len(), 4);
    assert_eq!(encoded(268435456).len(), 5);
    assert_eq!(encoded(i32::MAX).len(), 5);
    assert_eq!(encoded(-1).len(), 5);
    assert_eq!(encoded(i32::MIN).len(), 5);
}

#[test]
fn varint_exact_bytes() {
    assert_eq!(encoded(0), vec![0x00]);
    assert_eq!(encoded(1), vec![0x01]);
    assert_eq!(encoded(127), vec![0x7f]);
    assert_eq!(encoded(128), vec![0x80, 0x01]);
    assert_eq!(encoded(255), vec![0xff, 0x01]);
    assert_eq!(encoded(300), vec![0xac, 0x02]);
    assert_eq!(encoded(25565), vec![0xdd, 0xc7, 0x01]);
    assert_eq!(encoded(2097151), vec![0xff, 0xff, 0x7f]);
    assert_eq!(encoded(i32::MAX), vec![0xff, 0xff, 0xff, 0xff, 0x07]);
    assert_eq!(encoded(-1), vec![0xff, 0xff, 0xff, 0xff, 0x0f]);
    assert_eq!(encoded(i32::MIN), vec![0x80, 0x80, 0x80, 0x80, 0x08]);
}

#[test]
fn varint_encode_appends_to_what_is_there() {
    let mut out = vec![9, 9];
    VarInt(300).encode(&mut out).unwrap();
    assert_eq!(out, vec![9, 9, 0xac, 0x02]);
}

#[test]
fn varint_decode_stops_behind_the_number() {
    let bytes = [0xac, 0x02, 0x55, 0x66];
    let mut reader = ByteReader::new(&bytes);
    assert_eq!(VarInt::decode(&mut reader), Ok(VarInt(300)));
    assert_eq!(reader.remaining_len(), 2);
    assert_eq!(reader.read_u8(), Ok(0x55));
}

#[test]
fn varint_decode_of_no_bytes_is_eof() {
    assert_eq!(decoded(&[]), Err(DecodingError::UnexpectedEof));
}

#[test]
fn varint_decode_that_ends_mid_sequence_is_eof() {
    assert_eq!(decoded(&[0x80]), Err(DecodingError::UnexpectedEof));
    assert_eq!(decoded(&[0xff, 0xff, 0xff, 0xff]), Err(DecodingError::UnexpectedEof));
}

#[test]
fn varint_decode_never_takes_a_sixth_byte() {
    assert_eq!(
        decoded(&[0x80, 0x80, 0x80, 0x80, 0x80, 0x01]),
        Err(DecodingError::InvalidEncoding)
    );
}

#[test]
fn varint_decode_masks_the_fifth_byte() {
    // Of the seven data bits of the fifth byte only the low four belong to the number.
    assert_eq!(decoded(&[0xff, 0xff, 0xff, 0xff, 0x7f]), Ok(VarInt(-1)));
    assert_eq!(decoded(&[0x80, 0x80, 0x80, 0x80, 0x10]), Ok(VarInt(0)));
}

#[test]
fn varint_decode_takes_padded_forms() {
    assert_eq!(decoded(&[0x80, 0x00]), Ok(VarInt(0)));
    assert_eq!(decoded(&[0x81, 0x80, 0x00]), Ok(VarInt(1)));
}

#[test]
fn failed_varint_decode_reads_at_most_five_bytes() {
    let cases: [(&[u8], usize); 5] = [
        (&[], 0),
        (&[0x80], 1),
        (&[0xff, 0xff, 0xff, 0xff], 4),
        (&[0x80, 0x80, 0x80, 0x80, 0x80, 0x01], 5),
        (&[0xff, 0xff, 0xff, 0xff, 0xff, 0xff, 0xff, 0xff], 5),
    ];
    for (bytes, read) in cases {
        let mut reader = ByteReader::new(bytes);
        assert!(VarInt::decode(&mut reader).is_err(), "bytes {:?}", bytes);
        assert_eq!(bytes.len() - reader.remaining_len(), read, "bytes {:?}", bytes);
    }
}
