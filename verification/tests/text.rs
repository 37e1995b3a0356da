use packet_codec::datatypes::floats::{Double, Float};
use packet_codec::decoding::DecodingError;
use packet_codec::nbt::text::{parse_compound, parse_entry, parse_literal, Literal};
use packet_codec::nbt::Value;

fn tag(name: &str, value: Value) -> (String, Literal) {
    (String::from(name), Literal::Tag(value))
}

fn literal(text: &str) -> Result<Literal, DecodingError> {
    parse_literal(text.as_bytes())
}

#[test]
fn a_small_compound() {
    let text = "{\nname: \"Steve\"\nlevel: 12\nslots: [1, 2, 3]\n}\n";
    assert_eq!(
        parse_compound(text.as_bytes()),
        Ok(vec![
            tag("name", Value::String(String::from("Steve"))),
            tag("level", Value::Byte(12)),
            tag("slots", Value::ByteArray(vec![1, 2, 3])),
        ])
    );
}

#[test]
fn blanks_around_names_and_values_do_not_count() {
    let text = "  {  \r\n\t key one \t:\t  -7  \r\n  } \r\n \n";
    assert_eq!(parse_compound(text.as_bytes()), Ok(vec![tag("key one", Value::Byte(-7))]));
}

#[test]
fn an_empty_compound() {
    assert_eq!(parse_compound(b"{\n}"), Ok(vec![]));
}

#[test]
fn lines_of_blanks_are_passed_over() {
    assert_eq!(
        parse_compound(b"{\n\n  \r\na: 1\n\t\nb: 2\n\n}"),
        Ok(vec![tag("a", Value::Byte(1)), tag("b", Value::Byte(2))])
    );
}

#[test]
fn whole_numbers_take_the_narrowest_width() {
    assert_eq!(literal("0"), Ok(Literal::Tag(Value::Byte(0))));
    assert_eq!(literal("127"), Ok(Literal::Tag(Value::Byte(127))));
    assert_eq!(literal("-128"), Ok(Literal::Tag(Value::Byte(-128))));
    assert_eq!(literal("+5"), Ok(Literal::Tag(Value::Byte(5))));
    assert_eq!(literal("-0"), Ok(Literal::Tag(Value::Byte(0))));
    assert_eq!(literal("007"), Ok(Literal::Tag(Value::Byte(7))));
    assert_eq!(literal("128"), Ok(Literal::Tag(Value::Short(128))));
    assert_eq!(literal("-129"), Ok(Literal::Tag(Value::Short(-129))));
    assert_eq!(literal("32767"), Ok(Literal::Tag(Value::Short(32767))));
    assert_eq!(literal("32768"), Ok(Literal::Tag(Value::Int(32768))));
    assert_eq!(literal("-2147483648"), Ok(Literal::Tag(Value::Int(i32::MIN))));
    assert_eq!(literal("2147483648"), Ok(Literal::Tag(Value::Long(2147483648))));
    assert_eq!(literal("9223372036854775807"), Ok(Literal::Tag(Value::Long(i64::MAX))));
    assert_eq!(literal("-9223372036854775808"), Ok(Literal::Tag(Value::Long(i64::MIN))));
}

#[test]
fn what_is_no_whole_number_of_64_bits_is_left_to_the_reader_of_reals() {
    for text in [
        "9223372036854775808",
        "-9223372036854775809",
        "99999999999999999999999999",
        "1.5",
        "-1e9",
        "inf",
        "abc",
        "",
        "+",
        "-",
        "1 2",
        "12a",
        "\"",
        "[",
    ] {
        assert_eq!(literal(text), Ok(Literal::Real(String::from(text))), "text {:?}", text);
    }
}

#[test]
fn quoted_texts() {
    assert_eq!(literal("\"\""), Ok(Literal::Tag(Value::String(String::new()))));
    assert_eq!(
        literal("\"a: b, [c] ü\""),
        Ok(Literal::Tag(Value::String(String::from("a: b, [c] ü"))))
    );
    assert_eq!(literal("\"12\""), Ok(Literal::Tag(Value::String(String::from("12")))));
}

#[test]
fn arrays_take_the_narrowest_width_that_holds_all() {
    assert_eq!(literal("[1,-2, 3 ]"), Ok(Literal::Tag(Value::ByteArray(vec![1, -2, 3]))));
    assert_eq!(literal("[1, 128]"), Ok(Literal::Tag(Value::IntArray(vec![1, 128]))));
    assert_eq!(
        literal("[2147483648, -1]"),
        Ok(Literal::Tag(Value::LongArray(vec![2147483648, -1])))
    );
    assert_eq!(literal("[ 7 ]"), Ok(Literal::Tag(Value::ByteArray(vec![7]))));
}

#[test]
fn arrays_of_anything_else_are_unsupported() {
    for text in ["[]", "[1,]", "[,1]", "[1, a]", "[1.5]", "[9223372036854775808]", "[\"a\"]", "[[1]]"] {
        assert_eq!(literal(text), Err(DecodingError::Unsupported), "text {:?}", text);
    }
}

#[test]
fn nested_compounds_are_unsupported() {
    assert_eq!(literal("{"), Err(DecodingError::Unsupported));
    assert_eq!(literal("{ a: 1 }"), Err(DecodingError::Unsupported));
    assert_eq!(
        parse_compound(b"{\ninner: {\na: 1\n}\n}\n"),
        Err(DecodingError::Unsupported)
    );
}

#[test]
fn a_text_that_does_not_open_with_a_brace_is_invalid() {
    assert_eq!(parse_compound(b""), Err(DecodingError::InvalidEncoding));
    assert_eq!(parse_compound(b"a: 1\n}"), Err(DecodingError::InvalidEncoding));
    assert_eq!(parse_compound(b"{ a: 1\n}"), Err(DecodingError::InvalidEncoding));
    assert_eq!(parse_compound(b"\n{\n}"), Err(DecodingError::InvalidEncoding));
}

#[test]
fn a_text_that_ends_before_the_closing_brace_is_eof() {
    assert_eq!(parse_compound(b"{"), Err(DecodingError::UnexpectedEof));
    assert_eq!(parse_compound(b"{\na: 1"), Err(DecodingError::UnexpectedEof));
    assert_eq!(parse_compound(b"{\na: 1\n"), Err(DecodingError::UnexpectedEof));
    assert_eq!(parse_compound(b"{\n\n\n"), Err(DecodingError::UnexpectedEof));
}

#[test]
fn a_line_without_a_colon_is_invalid() {
    assert_eq!(parse_compound(b"{\nabc\n}"), Err(DecodingError::InvalidEncoding));
    assert_eq!(parse_compound(b"{\n}}\n}"), Err(DecodingError::InvalidEncoding));
}

#[test]
fn text_behind_the_closing_brace_is_not_dropped_in_silence() {
    assert_eq!(parse_compound(b"{\n}\nmore: 1\n"), Err(DecodingError::Unsupported));
    assert_eq!(parse_compound(b"{\n}\n \r\n\t\n"), Ok(vec![]));
}

#[test]
fn bytes_that_are_not_utf8_are_invalid() {
    assert_eq!(parse_compound(b"{\n\xff: 1\n}"), Err(DecodingError::InvalidEncoding));
    assert_eq!(parse_compound(b"{\na: \"\xff\"\n}"), Err(DecodingError::InvalidEncoding));
    assert_eq!(parse_compound(b"{\na: \xff\n}"), Err(DecodingError::InvalidEncoding));
}

#[test]
fn the_name_ends_at_the_first_colon() {
    assert_eq!(
        parse_entry(b"a:b: 1"),
        Ok((String::from("a"), Literal::Real(String::from("b: 1"))))
    );
    assert_eq!(parse_entry(b": 1"), Ok((String::new(), Literal::Tag(Value::Byte(1)))));
    assert_eq!(parse_entry(b"no colon"), Err(DecodingError::InvalidEncoding));
}

#[test]
fn reals_are_resolved_with_what_their_reader_gives() {
    let text = "{\nspeed: 1.5\nbig: 1e300\nlevel: 3\n}";
    let entries = parse_compound(text.as_bytes()).unwrap();
    let mut values = Vec::new();
    for (name, literal) in entries {
        let (single, double) = match &literal {
            Literal::Real(text) => (
                text.parse::<f32>().ok().filter(|x| x.is_finite()).map(|x| Float::from_bits(x.to_bits())),
                text.parse::<f64>().ok().map(|x| Double::from_bits(x.to_bits())),
            ),
            Literal::Tag(_) => (None, None),
        };
        values.push((name, literal.resolve(single, double)));
    }
    assert_eq!(
        values,
        vec![
            (String::from("speed"), Ok(Value::Float(Float::from_bits(1.5f32.to_bits())))),
            (String::from("big"), Ok(Value::Double(Double::from_bits(1e300f64.to_bits())))),
            (String::from("level"), Ok(Value::Byte(3))),
        ]
    );
}

#[test]
fn a_real_that_no_reader_takes_is_unsupported() {
    let abc = Literal::Real(String::from("abc"));
    assert_eq!(abc.resolve(None, None), Err(DecodingError::Unsupported));
    let single = Float::from_bits(2.0f32.to_bits());
    let double = Double::from_bits(2.0f64.to_bits());
    let two = Literal::Real(String::from("2.0"));
    assert_eq!(two.resolve(Some(single), Some(double)), Ok(Value::Float(single)));
    let two = Literal::Real(String::from("2.0"));
    assert_eq!(two.resolve(None, Some(double)), Ok(Value::Double(double)));
    let seven = Literal::Tag(Value::Byte(7));
    assert_eq!(seven.resolve(Some(single), None), Ok(Value::Byte(7)));
}

#[test]
fn blanks_around_a_literal_do_not_count() {
    assert_eq!(literal(" \t-42\r "), Ok(Literal::Tag(Value::Byte(-42))));
    assert_eq!(literal("  [ 1 ,2 ]  "), Ok(Literal::Tag(Value::ByteArray(vec![1, 2]))));
    assert_eq!(literal("   "), Ok(Literal::Real(String::new())));
    assert_eq!(literal(" a b "), Ok(Literal::Real(String::from("a b"))));
}
