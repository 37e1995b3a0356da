//! Variable-length 32-bit integers: seven data bits per byte, low group first,
//! the top bit of a byte saying that another byte follows.

use crate::decoding::{Decodable, DecodingError};
use crate::encoding::{Encodable, EncodingError};
use crate::reader::ByteReader;
use vstd::prelude::*;

verus! {

/// A 32-bit signed integer that travels in one to five bytes.
#[derive(Clone, Copy, Debug, PartialEq, Eq, Hash, Structural)]
pub struct VarInt(pub i32);

/// The 32-bit two's-complement pattern of `v`, read as an unsigned number.
pub open spec fn bit_pattern(v: i32) -> nat {
    if v >= 0 {
        v as nat
    } else {
        (v + 0x1_0000_0000) as nat
    }
}

/// The signed number whose 32-bit two's-complement pattern is `p`.
pub open spec fn from_bit_pattern(p: nat) -> i32
    recommends
        p < 0x1_0000_0000,
{
    if p < 0x8000_0000 {
        p as i32
    } else {
        (p - 0x1_0000_0000) as i32
    }
}

/// The groups of an unsigned number, low group first. Every byte but the last
/// carries the continuation bit.
pub open spec fn groups(p: nat) -> Seq<u8>
    decreases p,
{
    if p < 128 {
        seq![p as u8]
    } else {
        seq![(128 + p % 128) as u8] + groups(p / 128)
    }
}

/// Reads groups from index `k` on. Gives the number that the groups from `k`
/// on spell, and the index behind the last group.
///
/// The fifth group ends the number: it may not ask for a sixth, and of its
/// seven data bits only the low four, which complete the 32, are kept.
pub open spec fn ungroup(bytes: Seq<u8>, k: nat) -> Result<(nat, nat), DecodingError>
    decreases 5 - k,
{
    if k >= bytes.len() {
        Err(DecodingError::UnexpectedEof)
    } else if k >= 4 {
        if bytes[k as int] >= 128 {
            Err(DecodingError::InvalidEncoding)
        } else {
            Ok(((bytes[k as int] % 16) as nat, k + 1))
        }
    } else if bytes[k as int] < 128 {
        Ok((bytes[k as int] as nat, k + 1))
    } else {
        match ungroup(bytes, k + 1) {
            Ok((high, end)) => Ok(((bytes[k as int] - 128 + 128 * high) as nat, end)),
            Err(e) => Err(e),
        }
    }
}

impl VarInt {
    /// The wire form of `v`.
    pub open spec fn wire_of(v: i32) -> Seq<u8> {
        groups(bit_pattern(v))
    }

    /// What the head of `bytes` decodes to.
    pub open spec fn parse_of(bytes: Seq<u8>) -> Result<(VarInt, nat), DecodingError> {
        match ungroup(bytes, 0) {
            Ok((p, end)) => Ok((VarInt(from_bit_pattern(p)), end)),
            Err(e) => Err(e),
        }
    }
}

/// The weight of group number `k`: 128 to the power `k`.
spec fn weight(k: nat) -> nat {
    if k == 0 {
        1
    } else if k == 1 {
        0x80
    } else if k == 2 {
        0x4000
    } else if k == 3 {
        0x20_0000
    } else {
        0x1000_0000
    }
}

proof fn lemma_signed_cast(v: i32)
    by (bit_vector)
    ensures
        v >= 0 ==> (v as u32) == v,
        v < 0 ==> (v as u32) == v + 0x1_0000_0000,
{
}

proof fn lemma_unsigned_cast(p: u32)
    by (bit_vector)
    ensures
        p < 0x8000_0000 ==> (p as i32) == p,
        p >= 0x8000_0000 ==> (p as i32) == p - 0x1_0000_0000,
{
}

proof fn lemma_split_group(p: u32)
    by (bit_vector)
    requires
        p >= 0x80,
    ensures
        (((p & 0x7f) as u8) | 0x80u8) == 128 + p % 128,
        p >> 7 == p / 128,
{
}

proof fn lemma_place_group(acc: u32, byte: u8, shift: u32)
    by (bit_vector)
    requires
        (shift == 0 && acc < 1) || (shift == 7 && acc < 0x80) || (shift == 14 && acc < 0x4000) || (
        shift == 21 && acc < 0x20_0000),
    ensures
        (byte & 0x80 == 0) <==> byte < 128,
        shift == 0 ==> acc | (((byte & 0x7f) as u32) << shift) == acc + (byte % 128),
        shift == 7 ==> acc | (((byte & 0x7f) as u32) << shift) == acc + (byte % 128) * 0x80,
        shift == 14 ==> acc | (((byte & 0x7f) as u32) << shift) == acc + (byte % 128) * 0x4000,
        shift == 21 ==> acc | (((byte & 0x7f) as u32) << shift) == acc + (byte % 128) * 0x20_0000,
{
}

proof fn lemma_place_last_group(acc: u32, byte: u8)
    by (bit_vector)
    requires
        acc < 0x1000_0000,
    ensures
        (byte & 0x80 == 0) <==> byte < 128,
        acc | (((byte & 0x0f) as u32) << 28) == acc + (byte % 16) * 0x1000_0000,
{
}

/// The number spelled by groups below `k` that add up to `acc`, followed by the
/// groups from `k` on as `tail` gives them.
spec fn carried(acc: nat, k: nat, tail: Result<(nat, nat), DecodingError>) -> Result<
    (nat, nat),
    DecodingError,
> {
    match tail {
        Ok((high, end)) => Ok((acc + weight(k) * high, end)),
        Err(e) => Err(e),
    }
}

proof fn lemma_ungroup_step(input: Seq<u8>, k: nat, acc: nat)
    requires
        k < 4,
        k < input.len(),
        input[k as int] >= 128,
    ensures
        carried(acc, k, ungroup(input, k)) == carried(
            (acc + (input[k as int] - 128) * weight(k)) as nat,
            k + 1,
            ungroup(input, k + 1),
        ),
{
    if let Ok((high, end)) = ungroup(input, k + 1) {
        let low = input[k as int] - 128;
        assert(weight(k) * (low + 128 * high) == low * weight(k) + weight(k + 1) * high)
            by (nonlinear_arith)
            requires
                weight(k + 1) == 128 * weight(k),
        ;
    }
}

impl DeepView for VarInt {
    type V = VarInt;

    open spec fn deep_view(&self) -> VarInt {
        *self
    }
}

impl Encodable for VarInt {
    open spec fn fits(&self) -> Result<(), EncodingError> {
        Ok(())
    }

    open spec fn wire(&self) -> Seq<u8> {
        VarInt::wire_of(self.0)
    }

    fn encode(&self, writer: &mut Vec<u8>) -> (r: Result<(), EncodingError>) {
        let mut remaining: u32 = self.0 as u32;
        proof {
            lemma_signed_cast(self.0);
        }
        while remaining >= 0x80
            invariant
                old(writer)@ + groups(bit_pattern(self.0)) == writer@ + groups(remaining as nat),
            decreases remaining,
        {
            let ghost before = writer@;
            let byte: u8 = ((remaining & 0x7f) as u8) | 0x80u8;
            proof {
                lemma_split_group(remaining);
                assert(before + groups(remaining as nat) == before.push(byte) + groups(
                    (remaining / 128) as nat,
                ));
            }
            writer.push(byte);
            remaining = remaining >> 7;
        }
        let ghost before = writer@;
        assert(before + groups(remaining as nat) == before.push(remaining as u8));
        writer.push(remaining as u8);
        Ok(())
    }
}

impl Decodable for VarInt {
    open spec fn parse(bytes: Seq<u8>) -> Result<(VarInt, nat), DecodingError> {
        VarInt::parse_of(bytes)
    }

    /// A number that is cut short is read to the end of the bytes, and one
    /// that asks for a sixth byte to its fifth: never more than five bytes.
    open spec fn stop(bytes: Seq<u8>) -> nat {
        if bytes.len() < 5 {
            bytes.len()
        } else {
            5
        }
    }

    fn decode(reader: &mut ByteReader<'_>) -> (r: Result<Self, DecodingError>) {
        let ghost input = reader.remaining();
        let ghost start = reader.position();
        let mut acc: u32 = 0;
        let mut shift: u32 = 0;
        let mut k: usize = 0;
        while k < 4
            invariant
                k <= 4,
                k <= input.len(),
                shift == 7 * k,
                acc < weight(k as nat),
                reader.data() == old(reader).data(),
                reader.position() == start + k,
                reader.remaining() == input.skip(k as int),
                start == old(reader).position(),
                input == old(reader).remaining(),
                ungroup(input, 0) == carried(acc as nat, k as nat, ungroup(input, k as nat)),
            decreases 4 - k,
        {
            let ghost rest = reader.remaining();
            let byte = match reader.read_u8() {
                Ok(b) => b,
                Err(e) => {
                    return Err(e);
                },
            };
            proof {
                lemma_place_group(acc, byte, shift);
                assert(byte == input[k as int]);
                assert(input.skip(k as int).skip(1) == input.skip(k + 1));
                if byte >= 128 {
                    lemma_ungroup_step(input, k as nat, acc as nat);
                }
            }
            acc = acc | (((byte & 0x7f) as u32) << shift);
            if byte & 0x80 == 0 {
                proof {
                    lemma_unsigned_cast(acc);
                }
                return Ok(VarInt(acc as i32));
            }
            shift = shift + 7;
            k = k + 1;
        }
        let byte = match reader.read_u8() {
            Ok(b) => b,
            Err(e) => {
                return Err(e);
            },
        };
        proof {
            lemma_place_last_group(acc, byte);
            assert(byte == input[4]);
            assert(input.skip(4).skip(1) == input.skip(5));
        }
        if byte & 0x80 != 0 {
            return Err(DecodingError::InvalidEncoding);
        }
        acc = acc | (((byte & 0x0f) as u32) << 28);
        proof {
            lemma_unsigned_cast(acc);
        }
        Ok(VarInt(acc as i32))
    }
}

/// A decoded number takes at least one byte and at most five, all of them
/// among the bytes at hand.
pub proof fn lemma_varint_parse_bounds(bytes: Seq<u8>)
    ensures
        VarInt::parse(bytes) matches Ok((_, taken)) ==> 1 <= taken <= 5 && taken <= bytes.len(),
{
    lemma_ungroup_bounds(bytes, 0);
}

proof fn lemma_ungroup_bounds(bytes: Seq<u8>, k: nat)
    requires
        k <= 4,
    ensures
        ungroup(bytes, k) matches Ok((_, end)) ==> k < end <= 5 && end <= bytes.len(),
    decreases 5 - k,
{
    if k < bytes.len() && k < 4 && bytes[k as int] >= 128 {
        lemma_ungroup_bounds(bytes, k + 1);
    }
}

/// The largest number, plus one, that the groups from number `k` on can spell.
spec fn room(k: nat) -> nat {
    if k == 0 {
        0x1_0000_0000
    } else if k == 1 {
        0x200_0000
    } else if k == 2 {
        0x4_0000
    } else if k == 3 {
        0x800
    } else {
        0x10
    }
}

proof fn lemma_ungroup_groups(before: Seq<u8>, p: nat, rest: Seq<u8>)
    requires
        before.len() <= 4,
        p < room(before.len()),
    ensures
        ungroup(before + groups(p) + rest, before.len()) == Ok::<(nat, nat), DecodingError>(
            (p, before.len() + groups(p).len()),
        ),
        before.len() + groups(p).len() <= 5,
    decreases p,
{
    let k = before.len();
    let bytes = before + groups(p) + rest;
    if p < 128 {
        assert(bytes[k as int] == p);
    } else {
        let head = (128 + p % 128) as u8;
        assert(bytes[k as int] == head);
        assert(p / 128 < room(k + 1));
        lemma_ungroup_groups(before.push(head), p / 128, rest);
        assert(before.push(head) + groups(p / 128) + rest == bytes);
    }
}

/// A number that was encoded decodes to itself, whatever follows it, and the
/// decoder takes exactly the bytes that the encoder wrote: between one and five.
pub proof fn lemma_varint_round_trip(v: VarInt, rest: Seq<u8>)
    ensures
        VarInt::parse(v.wire() + rest) == Ok::<(VarInt, nat), DecodingError>((v, v.wire().len())),
        1 <= v.wire().len() <= 5,
{
    lemma_ungroup_groups(Seq::empty(), bit_pattern(v.0), rest);
    assert(Seq::<u8>::empty() + groups(bit_pattern(v.0)) + rest == v.wire() + rest);
}

/// How many bytes a number takes: one for each started group of seven bits of
/// its 32-bit pattern, so five for every negative number.
pub proof fn lemma_varint_wire_len(v: VarInt)
    ensures
        v.wire().len() == if bit_pattern(v.0) < 0x80 {
            1nat
        } else if bit_pattern(v.0) < 0x4000 {
            2nat
        } else if bit_pattern(v.0) < 0x20_0000 {
            3nat
        } else if bit_pattern(v.0) < 0x1000_0000 {
            4nat
        } else {
            5nat
        },
        v.0 < 0 ==> v.wire().len() == 5,
{
    let p = bit_pattern(v.0);
    reveal_with_fuel(groups, 6);
    assert(groups(p).len() == 1 + if p < 128 {
        0
    } else {
        groups(p / 128).len()
    });
}

} // verus!
