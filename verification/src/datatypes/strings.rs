//! Strings on the wire: one byte that gives the length of the UTF-8 form, then
//! that many bytes.

use crate::datatypes::bigendian::append;
use crate::decoding::{Decodable, DecodingError};
use crate::encoding::{Encodable, EncodingError};
use crate::reader::ByteReader;
use vstd::prelude::*;
use vstd::slice::slice_to_vec;
use vstd::utf8::{
    decode_utf8, encode_utf8, encode_utf8_decode_utf8, encode_utf8_valid_utf8, valid_utf8,
};

verus! {

/// The longest UTF-8 form, in bytes, that the length byte can announce.
pub const MAX_STRING_BYTES: usize = 255;

/// `String::from_utf8`: the string whose UTF-8 form is `bytes`, or nothing
/// where `bytes` are not valid UTF-8.
#[verifier::external_body]
pub(crate) fn string_from_utf8(bytes: Vec<u8>) -> (r: Option<String>)
    ensures
        r is Some <==> valid_utf8(bytes@),
        r matches Some(s) ==> encode_utf8(s@) == bytes@,
{
    String::from_utf8(bytes).ok()
}

/// Whether two texts are the same, character by character.
pub fn same_text(a: &str, b: &str) -> (same: bool)
    ensures
        same == (a@ == b@),
{
    let left = a.as_bytes();
    let right = b.as_bytes();
    proof {
        encode_utf8_decode_utf8(a@);
        encode_utf8_decode_utf8(b@);
    }
    if left.len() != right.len() {
        return false;
    }
    let mut i: usize = 0;
    while i < left.len()
        invariant
            i <= left@.len(),
            left@.len() == right@.len(),
            left@ == encode_utf8(a@),
            right@ == encode_utf8(b@),
            left@.take(i as int) == right@.take(i as int),
        decreases left@.len() - i,
    {
        if left[i] != right[i] {
            assert(left@[i as int] != right@[i as int]);
            return false;
        }
        assert(left@.take(i + 1) == left@.take(i as int).push(left@[i as int]));
        assert(right@.take(i + 1) == right@.take(i as int).push(right@[i as int]));
        i = i + 1;
    }
    assert(left@ == left@.take(i as int));
    assert(right@ == right@.take(i as int));
    true
}

/// The wire form of the text `chars`, where its UTF-8 form is short enough.
pub open spec fn string_wire(chars: Seq<char>) -> Seq<u8> {
    seq![encode_utf8(chars).len() as u8] + encode_utf8(chars)
}

/// Whether the text `chars` has a wire form.
pub open spec fn string_fits(chars: Seq<char>) -> Result<(), EncodingError> {
    if encode_utf8(chars).len() > MAX_STRING_BYTES {
        Err(EncodingError::StringTooLong)
    } else {
        Ok(())
    }
}

/// How many bytes are read of a string that cannot be decoded: none where
/// there are none, the length byte where the text is cut short, and the whole
/// field where the text is not UTF-8.
pub open spec fn string_stop(bytes: Seq<u8>) -> nat {
    if bytes.len() == 0 {
        0
    } else if bytes.len() < 1 + bytes[0] {
        1
    } else {
        (1 + bytes[0]) as nat
    }
}

/// What the head of `bytes` decodes to as a string.
pub open spec fn string_parse(bytes: Seq<u8>) -> Result<(Seq<char>, nat), DecodingError> {
    if bytes.len() == 0 {
        Err(DecodingError::UnexpectedEof)
    } else if bytes.len() < 1 + bytes[0] {
        Err(DecodingError::UnexpectedEof)
    } else if !valid_utf8(bytes.subrange(1, 1 + bytes[0])) {
        Err(DecodingError::InvalidEncoding)
    } else {
        Ok((decode_utf8(bytes.subrange(1, 1 + bytes[0])), (1 + bytes[0]) as nat))
    }
}

/// Whether `text` has a wire form.
pub fn check_text(text: &str) -> (r: Result<(), EncodingError>)
    ensures
        r == string_fits(text@),
{
    if text.as_bytes().len() > MAX_STRING_BYTES {
        Err(EncodingError::StringTooLong)
    } else {
        Ok(())
    }
}

impl Encodable for String {
    open spec fn fits(&self) -> Result<(), EncodingError> {
        string_fits(self@)
    }

    open spec fn wire(&self) -> Seq<u8> {
        string_wire(self@)
    }

    fn encode(&self, writer: &mut Vec<u8>) -> (r: Result<(), EncodingError>) {
        let bytes = self.as_str().as_bytes();
        if bytes.len() > MAX_STRING_BYTES {
            return Err(EncodingError::StringTooLong);
        }
        writer.push(bytes.len() as u8);
        append(writer, bytes);
        Ok(())
    }
}

impl Decodable for String {
    open spec fn parse(bytes: Seq<u8>) -> Result<(Seq<char>, nat), DecodingError> {
        string_parse(bytes)
    }

    open spec fn stop(bytes: Seq<u8>) -> nat {
        string_stop(bytes)
    }

    fn decode(reader: &mut ByteReader<'_>) -> (r: Result<Self, DecodingError>) {
        let ghost input = reader.remaining();
        let length = reader.read_u8()?;
        let body = reader.take(length as usize)?;
        assert(body@ == input.subrange(1, 1 + length));
        assert(input.skip(1).skip(length as int) == input.skip(1 + length));
        match string_from_utf8(slice_to_vec(body)) {
            Some(text) => {
                proof {
                    encode_utf8_decode_utf8(text@);
                }
                Ok(text)
            },
            None => Err(DecodingError::InvalidEncoding),
        }
    }
}

/// A text whose UTF-8 form takes at most 255 bytes decodes from its wire form
/// to itself, whatever follows it; the wire form is one byte longer than the
/// UTF-8 form.
pub proof fn lemma_string_round_trip(chars: Seq<char>, rest: Seq<u8>)
    requires
        string_fits(chars) is Ok,
    ensures
        string_parse(string_wire(chars) + rest) == Ok::<(Seq<char>, nat), DecodingError>(
            (chars, string_wire(chars).len()),
        ),
        string_wire(chars).len() == 1 + encode_utf8(chars).len(),
{
    let body = encode_utf8(chars);
    let bytes = string_wire(chars) + rest;
    assert(bytes[0] == body.len());
    assert(bytes.subrange(1, 1 + bytes[0]) == body);
    encode_utf8_valid_utf8(chars);
    encode_utf8_decode_utf8(chars);
}

} // verus!
