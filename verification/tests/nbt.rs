use packet_codec::datatypes::floats::{Double, Float};
use packet_codec::decoding::{Decodable, DecodingError};
use packet_codec::encoding::{Encodable, EncodingError};
use packet_codec::nbt::binary::{check_value, read_value};
use packet_codec::nbt::compound::CompoundTag;
use packet_codec::nbt::Value;
use packet_codec::reader::ByteReader;

fn entry(name: &str, value: Value) -> (String, Value) {
    (String::from(name), value)
}

fn every_kind() -> Vec<(String, Value)> {
    vec![
        entry("byte", Value::Byte(-5)),
        entry("short", Value::Short(-300)),
        entry("int", Value::Int(70000)),
        entry("long", Value::Long(i64::MIN)),
        entry("float", Value::Float(Float::from_bits(1.5f32.to_bits()))),
        entry("double", Value::Double(Double::from_bits((-2.25f64).to_bits()))),
        entry("text", Value::String(String::from("grüß dich"))),
        entry("inner", Value::Compound(vec![])),
        entry("ints", Value::IntArray(vec![])),
        entry("bytes", Value::ByteArray(vec![1, -1, 127])),
        entry("longs", Value::LongArray(vec![i64::MAX, 0])),
        entry(
            "list",
            Value::List(vec![
                Value::Byte(1),
                Value::String(String::new()),
                Value::List(vec![]),
                Value::Compound(vec![entry("deep", Value::List(vec![Value::Int(-1)]))]),
            ]),
        ),
    ]
}

fn failure_of(reader: &mut ByteReader<'_>) -> Result<Vec<(String, Value)>, DecodingError> {
    CompoundTag::decode(reader).map(|tag| tag.into_entries())
}

fn bytes_of(value: &Value) -> Vec<u8> {
    let mut out = Vec::new();
    value.encode(&mut out).unwrap();
    out
}

#[test]
fn tag_tree_round_trip() {
    let tree = Value::Compound(every_kind());
    let bytes = bytes_of(&tree);
    let mut reader = ByteReader::new(&bytes);
    assert_eq!(Value::decode(&mut reader), Ok(tree));
    assert_eq!(reader.remaining_len(), 0);
}

#[test]
fn scalars_are_a_kind_byte_and_the_payload() {
    assert_eq!(bytes_of(&Value::Byte(-1)), vec![1, 0xff]);
    assert_eq!(bytes_of(&Value::Short(258)), vec![2, 1, 2]);
    assert_eq!(bytes_of(&Value::Int(-2)), vec![3, 0xff, 0xff, 0xff, 0xfe]);
    assert_eq!(bytes_of(&Value::Long(1)), vec![4, 0, 0, 0, 0, 0, 0, 0, 1]);
    assert_eq!(
        bytes_of(&Value::Float(Float::from_bits(1.0f32.to_bits()))),
        vec![5, 0x3f, 0x80, 0, 0]
    );
    assert_eq!(
        bytes_of(&Value::Double(Double::from_bits(1.0f64.to_bits()))),
        vec![6, 0x3f, 0xf0, 0, 0, 0, 0, 0, 0]
    );
    assert_eq!(bytes_of(&Value::String(String::from("hi"))), vec![8, 2, b'h', b'i']);
}

#[test]
fn collections_start_with_their_count() {
    assert_eq!(bytes_of(&Value::ByteArray(vec![1, -2])), vec![7, 2, 1, 0xfe]);
    assert_eq!(
        bytes_of(&Value::IntArray(vec![1, -2])),
        vec![11, 2, 0, 0, 0, 1, 0xff, 0xff, 0xff, 0xfe]
    );
    assert_eq!(
        bytes_of(&Value::LongArray(vec![256])),
        vec![12, 1, 0, 0, 0, 0, 0, 0, 1, 0]
    );
    assert_eq!(
        bytes_of(&Value::List(vec![Value::Byte(3), Value::Short(4)])),
        vec![9, 2, 1, 3, 2, 0, 4]
    );
    assert_eq!(
        bytes_of(&Value::Compound(vec![entry("a", Value::Byte(1)), entry("", Value::List(vec![]))])),
        vec![10, 2, 1, b'a', 1, 1, 0, 9, 0]
    );
    assert_eq!(bytes_of(&Value::Compound(vec![])), vec![10, 0]);
    assert_eq!(bytes_of(&Value::IntArray(vec![])), vec![11, 0]);
    let many = Value::ByteArray(vec![0; 200]);
    assert_eq!(&bytes_of(&many)[..3], &[7, 0xc8, 0x01]);
}

#[test]
fn exact_bytes_decode_to_the_value() {
    assert_eq!(
        read_value(&mut ByteReader::new(&[9, 2, 1, 3, 2, 0, 4, 77])),
        Ok(Value::List(vec![Value::Byte(3), Value::Short(4)]))
    );
    assert_eq!(
        read_value(&mut ByteReader::new(&[10, 1, 1, b'k', 11, 1, 0, 0, 1, 0])),
        Ok(Value::Compound(vec![entry("k", Value::IntArray(vec![256]))]))
    );
}

#[test]
fn an_unknown_kind_is_an_error() {
    for kind in [0u8, 13, 200] {
        assert_eq!(
            Value::decode(&mut ByteReader::new(&[kind, 0, 0, 0, 0])),
            Err(DecodingError::UnsupportedDiscriminant)
        );
    }
    assert_eq!(
        Value::decode(&mut ByteReader::new(&[9, 1, 13])),
        Err(DecodingError::UnsupportedDiscriminant)
    );
}

#[test]
fn a_value_that_ends_early_is_eof() {
    assert_eq!(Value::decode(&mut ByteReader::new(&[])), Err(DecodingError::UnexpectedEof));
    assert_eq!(Value::decode(&mut ByteReader::new(&[4, 0, 0])), Err(DecodingError::UnexpectedEof));
    assert_eq!(Value::decode(&mut ByteReader::new(&[9, 3, 1, 0])), Err(DecodingError::UnexpectedEof));
    assert_eq!(
        Value::decode(&mut ByteReader::new(&[11, 0xff, 0xff, 0xff, 0xff, 0x07, 0, 0, 0, 1])),
        Err(DecodingError::UnexpectedEof)
    );
    assert_eq!(Value::decode(&mut ByteReader::new(&[10, 1, 3, b'a'])), Err(DecodingError::UnexpectedEof));
}

#[test]
fn a_negative_count_is_malformed() {
    assert_eq!(
        Value::decode(&mut ByteReader::new(&[7, 0xff, 0xff, 0xff, 0xff, 0x0f])),
        Err(DecodingError::MalformedComposite)
    );
}

#[test]
fn a_name_that_is_not_utf8_is_invalid() {
    assert_eq!(
        Value::decode(&mut ByteReader::new(&[10, 1, 1, 0xff, 1, 0])),
        Err(DecodingError::InvalidEncoding)
    );
}

#[test]
fn a_tree_with_a_long_text_is_refused_and_nothing_is_written() {
    let long = "q".repeat(256);
    let tree = Value::List(vec![
        Value::Byte(1),
        Value::Compound(vec![entry("fine", Value::Int(1)), entry(&long, Value::Int(2))]),
    ]);
    let mut out = vec![42];
    assert_eq!(check_value(&tree), Err(EncodingError::StringTooLong));
    assert_eq!(tree.encode(&mut out), Err(EncodingError::StringTooLong));
    assert_eq!(out, vec![42]);
    let tree = Value::Compound(vec![entry("text", Value::String(long))]);
    assert_eq!(tree.encode(&mut out), Err(EncodingError::StringTooLong));
    assert_eq!(out, vec![42]);
}

#[test]
fn a_value_is_appended_to_what_is_there() {
    let mut out = vec![1];
    let value = Value::Short(-1);
    assert_eq!(check_value(&value), Ok(()));
    value.encode(&mut out).unwrap();
    assert_eq!(out, vec![1, 2, 0xff, 0xff]);
}

#[test]
fn a_collection_too_long_to_announce_is_refused() {
    let huge = Value::ByteArray(vec![0i8; 0x8000_0000]);
    assert_eq!(check_value(&huge), Err(EncodingError::LengthOverflow));
    let mut out = Vec::new();
    assert_eq!(huge.encode(&mut out), Err(EncodingError::LengthOverflow));
    assert_eq!(out, Vec::<u8>::new());
}

#[test]
fn deep_trees_round_trip() {
    let mut tree = Value::Byte(7);
    for depth in 0..200 {
        tree = if depth % 2 == 0 {
            Value::List(vec![tree])
        } else {
            Value::Compound(vec![entry("n", tree)])
        };
    }
    let bytes = bytes_of(&tree);
    assert_eq!(Value::decode(&mut ByteReader::new(&bytes)), Ok(tree));
}

#[test]
fn compound_tag_travels_behind_its_length() {
    let tag = CompoundTag::from_entries(vec![entry("a", Value::Byte(1))]).unwrap();
    let mut bytes = Vec::new();
    tag.encode(&mut bytes).unwrap();
    assert_eq!(bytes, vec![6, 10, 1, 1, b'a', 1, 1]);
    bytes.push(99);
    let mut reader = ByteReader::new(&bytes);
    let back = CompoundTag::decode(&mut reader).unwrap();
    assert_eq!(back.entries(), tag.entries());
    assert_eq!(reader.read_u8(), Ok(99));
}

#[test]
fn compound_tag_round_trip() {
    let tag = CompoundTag::from_entries(every_kind()).unwrap();
    let mut bytes = Vec::new();
    tag.encode(&mut bytes).unwrap();
    let mut reader = ByteReader::new(&bytes);
    let back = CompoundTag::decode(&mut reader).unwrap();
    assert_eq!(back.into_entries(), every_kind());
    assert_eq!(reader.remaining_len(), 0);
    let empty = CompoundTag::new();
    let mut bytes = Vec::new();
    empty.encode(&mut bytes).unwrap();
    assert_eq!(bytes, vec![2, 10, 0]);
    let back = CompoundTag::decode(&mut ByteReader::new(&bytes)).unwrap();
    assert_eq!(back.len(), 0);
}

#[test]
fn compound_tag_longer_than_the_bytes_is_malformed() {
    assert_eq!(
        failure_of(&mut ByteReader::new(&[7, 10, 1, 1, b'a', 1, 1])),
        Err(DecodingError::MalformedComposite)
    );
    assert_eq!(
        failure_of(&mut ByteReader::new(&[0xff, 0xff, 0xff, 0xff, 0x0f, 10, 0])),
        Err(DecodingError::MalformedComposite)
    );
}

#[test]
fn compound_tag_with_bytes_over_is_malformed() {
    assert_eq!(
        failure_of(&mut ByteReader::new(&[3, 10, 0, 0])),
        Err(DecodingError::MalformedComposite)
    );
}

#[test]
fn compound_tag_that_is_short_of_bytes_is_malformed() {
    assert_eq!(
        failure_of(&mut ByteReader::new(&[4, 10, 1, 1, b'a', 1, 1])),
        Err(DecodingError::MalformedComposite)
    );
    assert_eq!(
        failure_of(&mut ByteReader::new(&[0])),
        Err(DecodingError::MalformedComposite)
    );
}

#[test]
fn compound_tag_that_holds_another_kind_is_invalid() {
    assert_eq!(
        failure_of(&mut ByteReader::new(&[2, 1, 5])),
        Err(DecodingError::InvalidEncoding)
    );
    assert_eq!(
        failure_of(&mut ByteReader::new(&[2, 13, 5])),
        Err(DecodingError::UnsupportedDiscriminant)
    );
}

#[test]
fn compound_tag_without_a_length_is_eof() {
    assert_eq!(failure_of(&mut ByteReader::new(&[])), Err(DecodingError::UnexpectedEof));
}

#[test]
fn compound_tag_as_a_mapping() {
    let mut tag = CompoundTag::new();
    assert_eq!(tag.len(), 0);
    assert_eq!(tag.get("a"), None);
    tag.insert(String::from("a"), Value::Byte(1));
    tag.insert(String::from("b"), Value::Byte(2));
    assert_eq!(tag.get("a"), Some(&Value::Byte(1)));
    assert_eq!(tag.get("b"), Some(&Value::Byte(2)));
    assert_eq!(tag.get("c"), None);
    assert_eq!(tag.get(""), None);
    tag.insert(String::from("a"), Value::Short(3));
    assert_eq!(tag.len(), 2);
    assert_eq!(tag.get("a"), Some(&Value::Short(3)));
    assert_eq!(
        tag.entries(),
        &vec![entry("a", Value::Short(3)), entry("b", Value::Byte(2))]
    );
    let mut bytes = Vec::new();
    tag.encode(&mut bytes).unwrap();
    assert_eq!(bytes, vec![11, 10, 2, 1, b'a', 2, 0, 3, 1, b'b', 1, 2]);
    let back = CompoundTag::decode(&mut ByteReader::new(&bytes)).unwrap();
    assert_eq!(back.entries(), tag.entries());
    assert_eq!(back.get("a"), Some(&Value::Short(3)));
}

#[test]
fn a_compound_holds_no_name_twice() {
    let twice = vec![entry("a", Value::Byte(1)), entry("b", Value::Byte(2)), entry("a", Value::Byte(3))];
    assert!(CompoundTag::from_entries(twice).is_none());
    assert!(CompoundTag::from_entries(vec![entry("a", Value::Byte(1)), entry("A", Value::Byte(2))]).is_some());
    let twice = vec![entry("a", Value::Byte(1)), entry("b", Value::Byte(2)), entry("a", Value::Byte(3))];
    let tree = Value::List(vec![Value::Compound(twice)]);
    let mut out = vec![5];
    assert_eq!(check_value(&tree), Err(EncodingError::RepeatedName));
    assert_eq!(tree.encode(&mut out), Err(EncodingError::RepeatedName));
    assert_eq!(out, vec![5]);
}

#[test]
fn a_compound_that_names_something_twice_is_not_read() {
    let bytes = [10, 2, 1, b'a', 1, 1, 1, b'a', 1, 2, 77];
    let mut reader = ByteReader::new(&bytes);
    assert_eq!(Value::decode(&mut reader), Err(DecodingError::InvalidEncoding));
    assert_eq!(reader.remaining_len(), 1);
    let framed = [10, 10, 2, 1, b'a', 1, 1, 1, b'a', 1, 2, 77];
    let mut reader = ByteReader::new(&framed);
    assert_eq!(failure_of(&mut reader), Err(DecodingError::InvalidEncoding));
    assert_eq!(reader.remaining_len(), 1);
}

#[test]
fn a_failed_read_of_a_value_stops_where_the_failure_shows() {
    let cases: [(&[u8], usize); 8] = [
        (&[], 0),
        (&[13, 1, 2], 1),
        (&[4, 0, 0], 1),
        (&[8, 3, b'a'], 2),
        (&[8, 2, 0xff, 0xff, 9], 4),
        (&[9, 2, 1, 5, 2, 0], 5),
        (&[7, 0xff, 0xff, 0xff, 0xff, 0x0f, 1], 6),
        (&[10, 1, 1, b'k', 9, 1, 13, 0, 0], 7),
    ];
    for (bytes, read) in cases {
        let mut reader = ByteReader::new(bytes);
        assert!(Value::decode(&mut reader).is_err(), "bytes {:?}", bytes);
        assert_eq!(bytes.len() - reader.remaining_len(), read, "bytes {:?}", bytes);
    }
}

#[test]
fn a_failed_read_of_a_compound_tag_takes_no_byte_behind_its_blob() {
    let cases: [(&[u8], usize); 6] = [
        (&[], 0),
        (&[0x80], 1),
        (&[7, 10, 1, 1, b'a', 1, 1], 1),
        (&[3, 10, 0, 0, 55, 66], 4),
        (&[4, 10, 1, 1, b'a', 1, 1], 5),
        (&[2, 13, 5, 9, 9, 9], 3),
    ];
    for (bytes, read) in cases {
        let mut reader = ByteReader::new(bytes);
        assert!(CompoundTag::decode(&mut reader).is_err(), "bytes {:?}", bytes);
        assert_eq!(bytes.len() - reader.remaining_len(), read, "bytes {:?}", bytes);
    }
}
