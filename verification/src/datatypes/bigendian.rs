//! Fixed-width integers in big-endian byte order, and the two's-complement
//! reading of signed ones.

use byteorder::{BigEndian, ReadBytesExt};
use vstd::prelude::*;

verus! {

/// The unsigned number that `bytes` spell, most significant byte first.
pub open spec fn be_value(bytes: Seq<u8>) -> nat
    decreases bytes.len(),
{
    if bytes.len() == 0 {
        0
    } else {
        256 * be_value(bytes.drop_last()) + bytes.last() as nat
    }
}

/// The `width` bytes that spell `value`, most significant byte first.
pub open spec fn be_bytes(value: nat, width: nat) -> Seq<u8>
    decreases width,
{
    if width == 0 {
        Seq::empty()
    } else {
        be_bytes(value / 256, (width - 1) as nat).push((value % 256) as u8)
    }
}

/// 256 to the power `width`: how many numbers fit in `width` bytes.
pub open spec fn span(width: nat) -> nat
    decreases width,
{
    if width == 0 {
        1
    } else {
        256 * span((width - 1) as nat)
    }
}

/// The two's-complement pattern of `v` among `modulus` patterns.
pub open spec fn pattern(v: int, modulus: nat) -> nat {
    if v >= 0 {
        v as nat
    } else {
        (v + modulus) as nat
    }
}

/// The signed number whose two's-complement pattern among `modulus` is `p`.
pub open spec fn signed(p: nat, modulus: nat) -> int {
    if 2 * p < modulus {
        p as int
    } else {
        p - modulus
    }
}

/// Writing a number that fits in `width` bytes and reading the bytes gives the
/// number back.
pub proof fn lemma_be_value_of_bytes(value: nat, width: nat)
    requires
        value < span(width),
    ensures
        be_bytes(value, width).len() == width,
        be_value(be_bytes(value, width)) == value,
    decreases width,
{
    if width > 0 {
        lemma_be_value_of_bytes(value / 256, (width - 1) as nat);
        assert(be_bytes(value, width).drop_last() == be_bytes(value / 256, (width - 1) as nat));
    }
}

/// Reading bytes and writing the number in as many bytes gives the bytes back.
pub proof fn lemma_be_bytes_of_value(bytes: Seq<u8>)
    ensures
        be_value(bytes) < span(bytes.len()),
        be_bytes(be_value(bytes), bytes.len()) == bytes,
    decreases bytes.len(),
{
    if bytes.len() > 0 {
        lemma_be_bytes_of_value(bytes.drop_last());
        assert(be_bytes(be_value(bytes), bytes.len()) == bytes);
    }
}

/// The signed reading undoes the pattern, for every number of the signed range.
pub proof fn lemma_signed_of_pattern(v: int, modulus: nat)
    requires
        -(modulus as int) <= 2 * v < modulus,
    ensures
        pattern(v, modulus) < modulus,
        signed(pattern(v, modulus), modulus) == v,
{
}

/// How many numbers fit in one, two, four and eight bytes.
pub proof fn lemma_spans()
    ensures
        span(1) == 0x100,
        span(2) == 0x1_0000,
        span(4) == 0x1_0000_0000,
        span(8) == 0x1_0000_0000_0000_0000,
{
    reveal_with_fuel(span, 9);
}

/// Appends `bytes` to `writer`.
pub fn append(writer: &mut Vec<u8>, bytes: &[u8])
    ensures
        final(writer)@ == old(writer)@ + bytes@,
{
    let mut i: usize = 0;
    while i < bytes.len()
        invariant
            i <= bytes@.len(),
            writer@ == old(writer)@ + bytes@.take(i as int),
        decreases bytes@.len() - i,
    {
        writer.push(bytes[i]);
        i = i + 1;
    }
}

/// `ReadBytesExt::read_i16::<BigEndian>` on a byte slice: the signed big-endian
/// reading of its first two bytes, or nothing where it holds fewer.
#[verifier::external_body]
pub(crate) fn read_i16_be(bytes: &[u8]) -> (r: Option<i16>)
    ensures
        r is Some <==> bytes@.len() >= 2,
        r matches Some(v) ==> v == signed(be_value(bytes@.take(2)), 0x1_0000),
{
    let mut source = bytes;
    source.read_i16::<BigEndian>().ok()
}

/// `ReadBytesExt::read_i32::<BigEndian>` on a byte slice: the signed big-endian
/// reading of its first four bytes, or nothing where it holds fewer.
#[verifier::external_body]
pub(crate) fn read_i32_be(bytes: &[u8]) -> (r: Option<i32>)
    ensures
        r is Some <==> bytes@.len() >= 4,
        r matches Some(v) ==> v == signed(be_value(bytes@.take(4)), 0x1_0000_0000),
{
    let mut source = bytes;
    source.read_i32::<BigEndian>().ok()
}

/// `ReadBytesExt::read_i64::<BigEndian>` on a byte slice: the signed big-endian
/// reading of its first eight bytes, or nothing where it holds fewer.
#[verifier::external_body]
pub(crate) fn read_i64_be(bytes: &[u8]) -> (r: Option<i64>)
    ensures
        r is Some <==> bytes@.len() >= 8,
        r matches Some(v) ==> v == signed(be_value(bytes@.take(8)), 0x1_0000_0000_0000_0000),
{
    let mut source = bytes;
    source.read_i64::<BigEndian>().ok()
}

/// `ReadBytesExt::read_u32::<BigEndian>` on a byte slice: the big-endian
/// reading of its first four bytes, or nothing where it holds fewer.
#[verifier::external_body]
pub(crate) fn read_u32_be(bytes: &[u8]) -> (r: Option<u32>)
    ensures
        r is Some <==> bytes@.len() >= 4,
        r matches Some(v) ==> v == be_value(bytes@.take(4)),
{
    let mut source = bytes;
    source.read_u32::<BigEndian>().ok()
}

/// `ReadBytesExt::read_u64::<BigEndian>` on a byte slice: the big-endian
/// reading of its first eight bytes, or nothing where it holds fewer.
#[verifier::external_body]
pub(crate) fn read_u64_be(bytes: &[u8]) -> (r: Option<u64>)
    ensures
        r is Some <==> bytes@.len() >= 8,
        r matches Some(v) ==> v == be_value(bytes@.take(8)),
{
    let mut source = bytes;
    source.read_u64::<BigEndian>().ok()
}

proof fn lemma_low_byte(x: u64, shift: u64)
    by (bit_vector)
    requires
        shift == 0 || shift == 8 || shift == 16 || shift == 24 || shift == 32 || shift == 40
            || shift == 48 || shift == 56,
    ensures
        ((x >> shift) & 0xff) == (x >> shift) % 256,
        (x >> shift) / 256 == x >> ((shift + 8) as u64),
        ((x >> shift) & 0xff) < 256,
{
}

/// Appends the `width` low bytes of `value`, most significant first.
pub(crate) fn put_be(writer: &mut Vec<u8>, value: u64, width: usize)
    requires
        width <= 8,
    ensures
        final(writer)@ == old(writer)@ + be_bytes(value as nat, width as nat),
{
    let mut left = width;
    assert(old(writer)@ + be_bytes((value >> ((8 * left) as u64)) as nat, 0) == old(writer)@);
    while left > 0
        invariant
            left <= width <= 8,
            writer@ == old(writer)@ + be_bytes(
                (value >> ((8 * left) as u64)) as nat,
                (width - left) as nat,
            ),
        decreases left,
    {
        let shift: u64 = 8 * (left as u64 - 1);
        let byte = ((value >> shift) & 0xff) as u8;
        proof {
            lemma_low_byte(value, shift);
            let high = be_bytes((value >> ((8 * left) as u64)) as nat, (width - left) as nat);
            assert(be_bytes((value >> shift) as nat, (width - left + 1) as nat) == high.push(byte));
            assert(old(writer)@ + high.push(byte) == (old(writer)@ + high).push(byte));
        }
        writer.push(byte);
        left = left - 1;
    }
    assert(value >> 0u64 == value) by (bit_vector);
}

/// The patterns of signed numbers are what casts to unsigned types give.
pub proof fn lemma_patterns(a: i16, b: i32, c: i64)
    by (bit_vector)
    ensures
        a >= 0 ==> (a as u16) == a,
        a < 0 ==> (a as u16) == a + 0x1_0000,
        b >= 0 ==> (b as u32) == b,
        b < 0 ==> (b as u32) == b + 0x1_0000_0000,
        c >= 0 ==> (c as u64) == c,
        c < 0 ==> (c as u64) == c + 0x1_0000_0000_0000_0000,
{
}

} // verus!
