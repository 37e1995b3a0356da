use packet_codec::datatypes::floats::{Double, Float};
use packet_codec::datatypes::unique_id::Uuid;
use packet_codec::decoding::{Decodable, DecodingError};
use packet_codec::encoding::{Encodable, EncodingError};
use packet_codec::reader::ByteReader;

fn bytes_of<T: Encodable>(value: &T) -> Vec<u8> {
    let mut out = Vec::new();
    value.encode(&mut out).unwrap();
    out
}

fn value_of<T: Decodable>(bytes: &[u8]) -> Result<T, DecodingError> {
    T::decode(&mut ByteReader::new(bytes))
}

#[test]
fn single_bytes_travel_as_they_are() {
    assert_eq!(bytes_of(&0xabu8), vec![0xab]);
    assert_eq!(bytes_of(&(-1i8)), vec![0xff]);
    assert_eq!(bytes_of(&i8::MIN), vec![0x80]);
    assert_eq!(value_of::<u8>(&[0xab, 1]), Ok(0xab));
    assert_eq!(value_of::<i8>(&[0xff]), Ok(-1));
    assert_eq!(value_of::<i8>(&[0x80]), Ok(i8::MIN));
    assert_eq!(value_of::<i8>(&[0x7f]), Ok(i8::MAX));
    assert_eq!(value_of::<u8>(&[]), Err(DecodingError::UnexpectedEof));
    assert_eq!(value_of::<i8>(&[]), Err(DecodingError::UnexpectedEof));
}

#[test]
fn shorts_are_big_endian() {
    assert_eq!(bytes_of(&0x1234i16), vec![0x12, 0x34]);
    assert_eq!(bytes_of(&(-2i16)), vec![0xff, 0xfe]);
    assert_eq!(value_of::<i16>(&[0x12, 0x34]), Ok(0x1234));
    assert_eq!(value_of::<i16>(&[0xff, 0xfe, 7]), Ok(-2));
    assert_eq!(value_of::<i16>(&[0x80, 0x00]), Ok(i16::MIN));
    assert_eq!(value_of::<i16>(&[0x12]), Err(DecodingError::UnexpectedEof));
}

#[test]
fn ints_are_big_endian() {
    assert_eq!(bytes_of(&0x12345678i32), vec![0x12, 0x34, 0x56, 0x78]);
    assert_eq!(bytes_of(&(-2i32)), vec![0xff, 0xff, 0xff, 0xfe]);
    assert_eq!(value_of::<i32>(&[0x12, 0x34, 0x56, 0x78]), Ok(0x12345678));
    assert_eq!(value_of::<i32>(&[0x80, 0, 0, 0]), Ok(i32::MIN));
    assert_eq!(value_of::<i32>(&[1, 2, 3]), Err(DecodingError::UnexpectedEof));
}

#[test]
fn longs_are_big_endian() {
    assert_eq!(
        bytes_of(&0x0102030405060708i64),
        vec![1, 2, 3, 4, 5, 6, 7, 8]
    );
    assert_eq!(bytes_of(&(-1i64)), vec![0xff; 8]);
    assert_eq!(
        value_of::<i64>(&[1, 2, 3, 4, 5, 6, 7, 8, 9]),
        Ok(0x0102030405060708)
    );
    assert_eq!(value_of::<i64>(&[0x80, 0, 0, 0, 0, 0, 0, 0]), Ok(i64::MIN));
    assert_eq!(
        value_of::<i64>(&[1, 2, 3, 4, 5, 6, 7]),
        Err(DecodingError::UnexpectedEof)
    );
}

#[test]
fn integers_round_trip_at_their_ends() {
    for v in [i16::MIN, -1, 0, 1, i16::MAX] {
        assert_eq!(value_of::<i16>(&bytes_of(&v)), Ok(v));
    }
    for v in [i32::MIN, -1, 0, 1, i32::MAX] {
        assert_eq!(value_of::<i32>(&bytes_of(&v)), Ok(v));
    }
    for v in [i64::MIN, -1, 0, 1, i64::MAX] {
        assert_eq!(value_of::<i64>(&bytes_of(&v)), Ok(v));
    }
    for v in [i8::MIN, -1, 0, 1, i8::MAX] {
        assert_eq!(value_of::<i8>(&bytes_of(&v)), Ok(v));
    }
}

#[test]
fn floats_travel_as_their_bit_patterns() {
    let one_and_a_half = Float::from_bits(1.5f32.to_bits());
    assert_eq!(bytes_of(&one_and_a_half), vec![0x3f, 0xc0, 0x00, 0x00]);
    assert_eq!(bytes_of(&one_and_a_half), 1.5f32.to_be_bytes().to_vec());
    assert_eq!(value_of::<Float>(&[0x3f, 0xc0, 0, 0]), Ok(one_and_a_half));
    assert_eq!(
        f32::from_bits(value_of::<Float>(&[0xc0, 0x20, 0, 0]).unwrap().to_bits()),
        -2.5f32
    );
    assert_eq!(value_of::<Float>(&[0, 0, 0]), Err(DecodingError::UnexpectedEof));
}

#[test]
fn doubles_travel_as_their_bit_patterns() {
    let x = Double::from_bits((-1234.5678f64).to_bits());
    assert_eq!(bytes_of(&x), (-1234.5678f64).to_be_bytes().to_vec());
    assert_eq!(value_of::<Double>(&bytes_of(&x)), Ok(x));
    assert_eq!(
        f64::from_bits(value_of::<Double>(&[0x3f, 0xf0, 0, 0, 0, 0, 0, 0]).unwrap().to_bits()),
        1.0f64
    );
    assert_eq!(
        value_of::<Double>(&[0, 0, 0, 0, 0, 0, 0]),
        Err(DecodingError::UnexpectedEof)
    );
}

#[test]
fn not_a_number_keeps_its_payload() {
    let quiet = Float::from_bits(0x7fc0_1234);
    let signalling = Double::from_bits(0x7ff0_0000_0000_0001);
    assert_eq!(value_of::<Float>(&bytes_of(&quiet)), Ok(quiet));
    assert_eq!(value_of::<Double>(&bytes_of(&signalling)), Ok(signalling));
}

#[test]
fn empty_string_round_trips() {
    let text = String::new();
    assert_eq!(bytes_of(&text), vec![0]);
    assert_eq!(value_of::<String>(&[0]), Ok(String::new()));
}

#[test]
fn string_is_length_then_utf8() {
    assert_eq!(bytes_of(&String::from("NV6")), vec![3, 78, 86, 54]);
    assert_eq!(value_of::<String>(&[3, 78, 86, 54, 99]), Ok(String::from("NV6")));
}

#[test]
fn longest_string_round_trips() {
    let text = "a".repeat(255);
    let bytes = bytes_of(&text);
    assert_eq!(bytes.len(), 256);
    assert_eq!(bytes[0], 255);
    assert_eq!(value_of::<String>(&bytes), Ok(text));
}

#[test]
fn multi_byte_string_round_trips() {
    let text = String::from("häßlich – 日本語 🦀");
    let bytes = bytes_of(&text);
    assert_eq!(bytes[0] as usize, text.len());
    assert_eq!(bytes.len(), text.len() + 1);
    assert_eq!(value_of::<String>(&bytes), Ok(text));
}

#[test]
fn string_of_256_bytes_is_refused_and_nothing_is_written() {
    let text = "a".repeat(256);
    let mut out = vec![1, 2, 3];
    assert_eq!(text.encode(&mut out), Err(EncodingError::StringTooLong));
    assert_eq!(out, vec![1, 2, 3]);
    // The length counts bytes, not characters.
    let wide = "é".repeat(128);
    assert_eq!(wide.encode(&mut out), Err(EncodingError::StringTooLong));
    assert_eq!(out, vec![1, 2, 3]);
}

#[test]
fn string_that_ends_early_is_eof() {
    assert_eq!(value_of::<String>(&[]), Err(DecodingError::UnexpectedEof));
    assert_eq!(value_of::<String>(&[3, 78, 86]), Err(DecodingError::UnexpectedEof));
}

#[test]
fn string_that_is_not_utf8_is_invalid() {
    assert_eq!(
        value_of::<String>(&[2, 0xff, 0xfe]),
        Err(DecodingError::InvalidEncoding)
    );
    assert_eq!(
        value_of::<String>(&[1, 0xc3]),
        Err(DecodingError::InvalidEncoding)
    );
}

#[test]
fn string_length_above_127_is_not_negative() {
    let text = "b".repeat(200);
    let mut bytes = vec![200u8];
    bytes.extend_from_slice(text.as_bytes());
    assert_eq!(value_of::<String>(&bytes), Ok(text));
}

const TEXT_FORM: &str = "2fc8417d-9e8b-470b-9b73-aaa14fe177bc";
const RAW: [u8; 16] = [
    0x2f, 0xc8, 0x41, 0x7d, 0x9e, 0x8b, 0x47, 0x0b, 0x9b, 0x73, 0xaa, 0xa1, 0x4f, 0xe1, 0x77, 0xbc,
];

#[test]
fn uuid_is_its_sixteen_bytes() {
    let parsed = uuid::Uuid::parse_str(TEXT_FORM).unwrap();
    let id = Uuid::from_bytes(*parsed.as_bytes());
    assert_eq!(id.as_u128(), 0x2fc8417d_9e8b_470b_9b73_aaa14fe177bc);
    assert_eq!(id.as_u128(), parsed.as_u128());
    assert_eq!(id, Uuid::from_u128(parsed.as_u128()));
    assert_eq!(id.to_bytes(), RAW);
    assert_eq!(bytes_of(&id), RAW.to_vec());
    assert_eq!(value_of::<Uuid>(&RAW), Ok(id));
    assert_eq!(uuid::Uuid::from_u128(id.as_u128()).to_string(), TEXT_FORM);
}

#[test]
fn uuid_that_ends_early_is_eof() {
    assert_eq!(value_of::<Uuid>(&RAW[..15]), Err(DecodingError::UnexpectedEof));
}

#[test]
fn absent_uuid_is_one_zero_byte() {
    let none: Option<Uuid> = None;
    assert_eq!(bytes_of(&none), vec![0x00]);
    assert_eq!(value_of::<Option<Uuid>>(&[0x00]), Ok(None));
}

#[test]
fn present_uuid_is_a_one_byte_and_the_uuid() {
    let id = Some(Uuid::from_bytes(RAW));
    let bytes = bytes_of(&id);
    assert_eq!(bytes.len(), 17);
    assert_eq!(bytes[0], 0x01);
    assert_eq!(&bytes[1..], &RAW[..]);
    assert_eq!(value_of::<Option<Uuid>>(&bytes), Ok(id));
}

#[test]
fn only_the_presence_byte_one_announces_a_uuid() {
    let mut bytes = vec![0x02];
    bytes.extend_from_slice(&RAW);
    let mut reader = ByteReader::new(&bytes);
    assert_eq!(Option::<Uuid>::decode(&mut reader), Ok(None));
    assert_eq!(reader.remaining_len(), 16);
}

#[test]
fn present_uuid_that_ends_early_is_eof() {
    assert_eq!(
        value_of::<Option<Uuid>>(&[0x01, 1, 2, 3]),
        Err(DecodingError::UnexpectedEof)
    );
    assert_eq!(value_of::<Option<Uuid>>(&[]), Err(DecodingError::UnexpectedEof));
}

#[test]
fn reader_hands_out_what_is_left() {
    let bytes = [1, 2, 3, 4, 5];
    let mut reader = ByteReader::new(&bytes);
    assert_eq!(reader.remaining_len(), 5);
    assert_eq!(reader.take(2), Ok(&bytes[..2]));
    assert_eq!(reader.rest(), &bytes[2..]);
    assert_eq!(reader.take(4), Err(DecodingError::UnexpectedEof));
    assert_eq!(reader.remaining_len(), 3);
    assert_eq!(reader.take(3), Ok(&bytes[2..]));
    assert_eq!(reader.remaining_len(), 0);
    assert_eq!(reader.read_u8(), Err(DecodingError::UnexpectedEof));
    assert_eq!(reader.take(0), Ok(&bytes[5..]));
}

#[test]
fn a_failed_read_of_a_string_stops_where_the_failure_shows() {
    let cases: [(&[u8], usize); 4] = [
        (&[], 0),
        (&[3, b'a', b'b'], 1),
        (&[2, 0xff, 0xfe, 1, 2], 3),
        (&[1, 0xc3, 0xa4], 2),
    ];
    for (bytes, read) in cases {
        let mut reader = ByteReader::new(bytes);
        assert!(String::decode(&mut reader).is_err(), "bytes {:?}", bytes);
        assert_eq!(bytes.len() - reader.remaining_len(), read, "bytes {:?}", bytes);
    }
}

#[test]
fn a_failed_read_of_a_fixed_field_reads_nothing() {
    let bytes = [1, 2, 3];
    let mut reader = ByteReader::new(&bytes);
    assert_eq!(i64::decode(&mut reader), Err(DecodingError::UnexpectedEof));
    assert_eq!(i32::decode(&mut reader), Err(DecodingError::UnexpectedEof));
    assert_eq!(Uuid::decode(&mut reader), Err(DecodingError::UnexpectedEof));
    assert_eq!(Double::decode(&mut reader), Err(DecodingError::UnexpectedEof));
    assert_eq!(reader.remaining_len(), 3);
    let bytes = [1, 2, 3];
    let mut reader = ByteReader::new(&bytes);
    assert_eq!(Option::<Uuid>::decode(&mut reader), Err(DecodingError::UnexpectedEof));
    assert_eq!(reader.remaining_len(), 2);
}
