//! Statistics that the server awards to a player.

use crate::datatypes::varint::{
    lemma_varint_parse_bounds, lemma_varint_round_trip, lemma_varint_wire_len, VarInt,
};
use crate::decoding::{after, used, Decodable, DecodingError};
use crate::encoding::{Encodable, EncodingError};
use crate::reader::ByteReader;
use vstd::prelude::*;

verus! {

/// The kind of thing that a statistic counts. It travels as its number, in
/// the variable-length form.
#[derive(Clone, Copy, Debug, PartialEq, Eq, Hash, Structural)]
pub enum CategoryType {
    Mined,
    Crafted,
    Used,
    Broken,
    PickedUp,
    Dropped,
    Killed,
    KilledBy,
    Custom,
}

/// One statistic: what is counted, of which kind, and the count.
#[derive(Clone, Copy, Debug, PartialEq, Eq, Hash, Structural)]
pub struct Statistic {
    pub category: CategoryType,
    pub statistic_id: VarInt,
    pub value: VarInt,
}

impl CategoryType {
    /// The number of the category.
    pub open spec fn number(self) -> i32 {
        match self {
            CategoryType::Mined => 0,
            CategoryType::Crafted => 1,
            CategoryType::Used => 2,
            CategoryType::Broken => 3,
            CategoryType::PickedUp => 4,
            CategoryType::Dropped => 5,
            CategoryType::Killed => 6,
            CategoryType::KilledBy => 7,
            CategoryType::Custom => 8,
        }
    }

    /// The category with the given number, where there is one.
    pub open spec fn with_number(number: i32) -> Option<CategoryType> {
        if number == 0 {
            Some(CategoryType::Mined)
        } else if number == 1 {
            Some(CategoryType::Crafted)
        } else if number == 2 {
            Some(CategoryType::Used)
        } else if number == 3 {
            Some(CategoryType::Broken)
        } else if number == 4 {
            Some(CategoryType::PickedUp)
        } else if number == 5 {
            Some(CategoryType::Dropped)
        } else if number == 6 {
            Some(CategoryType::Killed)
        } else if number == 7 {
            Some(CategoryType::KilledBy)
        } else if number == 8 {
            Some(CategoryType::Custom)
        } else {
            None
        }
    }

    /// The number of the category.
    pub fn id(&self) -> (number: i32)
        ensures
            number == self.number(),
    {
        match self {
            CategoryType::Mined => 0,
            CategoryType::Crafted => 1,
            CategoryType::Used => 2,
            CategoryType::Broken => 3,
            CategoryType::PickedUp => 4,
            CategoryType::Dropped => 5,
            CategoryType::Killed => 6,
            CategoryType::KilledBy => 7,
            CategoryType::Custom => 8,
        }
    }

    /// The category with the given number. A number that names no category is
    /// refused.
    pub fn from_id(number: i32) -> (r: Result<CategoryType, DecodingError>)
        ensures
            r == match CategoryType::with_number(number) {
                Some(category) => Ok::<CategoryType, DecodingError>(category),
                None => Err(DecodingError::UnsupportedDiscriminant),
            },
    {
        match number {
            0 => Ok(CategoryType::Mined),
            1 => Ok(CategoryType::Crafted),
            2 => Ok(CategoryType::Used),
            3 => Ok(CategoryType::Broken),
            4 => Ok(CategoryType::PickedUp),
            5 => Ok(CategoryType::Dropped),
            6 => Ok(CategoryType::Killed),
            7 => Ok(CategoryType::KilledBy),
            8 => Ok(CategoryType::Custom),
            _ => Err(DecodingError::UnsupportedDiscriminant),
        }
    }
}

impl DeepView for CategoryType {
    type V = CategoryType;

    open spec fn deep_view(&self) -> CategoryType {
        *self
    }
}

impl DeepView for Statistic {
    type V = Statistic;

    open spec fn deep_view(&self) -> Statistic {
        *self
    }
}

impl Encodable for CategoryType {
    open spec fn fits(&self) -> Result<(), EncodingError> {
        Ok(())
    }

    open spec fn wire(&self) -> Seq<u8> {
        VarInt(self.number()).wire()
    }

    fn encode(&self, writer: &mut Vec<u8>) -> (r: Result<(), EncodingError>) {
        VarInt(self.id()).encode(writer)
    }
}

impl Decodable for CategoryType {
    open spec fn parse(bytes: Seq<u8>) -> Result<(CategoryType, nat), DecodingError> {
        match VarInt::parse(bytes) {
            Ok((number, used)) => match CategoryType::with_number(number.0) {
                Some(category) => Ok((category, used)),
                None => Err(DecodingError::UnsupportedDiscriminant),
            },
            Err(e) => Err(e),
        }
    }

    /// The number is read, whatever it holds, as far as it can be.
    open spec fn stop(bytes: Seq<u8>) -> nat {
        match VarInt::parse(bytes) {
            Ok((_, used)) => used,
            Err(_) => VarInt::stop(bytes),
        }
    }

    fn decode(reader: &mut ByteReader<'_>) -> (r: Result<Self, DecodingError>) {
        let number = VarInt::decode(reader)?;
        CategoryType::from_id(number.0)
    }
}

impl Encodable for Statistic {
    open spec fn fits(&self) -> Result<(), EncodingError> {
        Ok(())
    }

    open spec fn wire(&self) -> Seq<u8> {
        self.category.wire() + self.statistic_id.wire() + self.value.wire()
    }

    fn encode(&self, writer: &mut Vec<u8>) -> (r: Result<(), EncodingError>) {
        self.category.encode(writer)?;
        self.statistic_id.encode(writer)?;
        self.value.encode(writer)?;
        assert(writer@ == old(writer)@ + self.wire());
        Ok(())
    }
}

impl Decodable for Statistic {
    open spec fn parse(bytes: Seq<u8>) -> Result<(Statistic, nat), DecodingError> {
        let category = CategoryType::parse(bytes);
        let bytes1 = after(bytes, category);
        let statistic_id = VarInt::parse(bytes1);
        let bytes2 = after(bytes1, statistic_id);
        let value = VarInt::parse(bytes2);
        if category is Err {
            Err(category->Err_0)
        } else if statistic_id is Err {
            Err(statistic_id->Err_0)
        } else if value is Err {
            Err(value->Err_0)
        } else {
            Ok(
                (
                    Statistic {
                        category: category->Ok_0.0,
                        statistic_id: statistic_id->Ok_0.0,
                        value: value->Ok_0.0,
                    },
                    used(category) + used(statistic_id) + used(value),
                ),
            )
        }
    }

    /// The fields before the one that fails are read, and of that one what
    /// its own decoder reads.
    open spec fn stop(bytes: Seq<u8>) -> nat {
        let category = CategoryType::parse(bytes);
        let bytes1 = after(bytes, category);
        let statistic_id = VarInt::parse(bytes1);
        let bytes2 = after(bytes1, statistic_id);
        if category is Err {
            CategoryType::stop(bytes)
        } else if statistic_id is Err {
            used(category) + VarInt::stop(bytes1)
        } else {
            used(category) + used(statistic_id) + VarInt::stop(bytes2)
        }
    }

    fn decode(reader: &mut ByteReader<'_>) -> (r: Result<Self, DecodingError>) {
        proof {
            reveal(used);
            reveal(after);
        }
        let ghost bytes = reader.remaining();
        let category = CategoryType::decode(reader)?;
        let statistic_id = VarInt::decode(reader)?;
        let value = VarInt::decode(reader)?;
        proof {
            let n1 = used(CategoryType::parse(bytes));
            let bytes1 = bytes.skip(n1 as int);
            let n2 = used(VarInt::parse(bytes1));
            let bytes2 = bytes1.skip(n2 as int);
            let n3 = used(VarInt::parse(bytes2));
            assert(bytes2.skip(n3 as int) == bytes.skip((n1 + n2 + n3) as int));
        }
        Ok(Statistic { category, statistic_id, value })
    }
}

/// A statistic decodes from its wire form to itself, whatever follows it.
pub proof fn lemma_statistic_round_trip(statistic: Statistic, rest: Seq<u8>)
    ensures
        Statistic::parse(statistic.wire() + rest) == Ok::<(Statistic, nat), DecodingError>(
            (statistic, statistic.wire().len()),
        ),
        3 <= statistic.wire().len() <= 11,
{
    reveal(used);
    reveal(after);
    let c = statistic.category.wire();
    let s = statistic.statistic_id.wire();
    let v = statistic.value.wire();
    let bytes = statistic.wire() + rest;
    lemma_varint_round_trip(VarInt(statistic.category.number()), s + v + rest);
    assert(bytes == c + (s + v + rest));
    assert(bytes.skip(c.len() as int) == s + (v + rest));
    lemma_varint_round_trip(statistic.statistic_id, v + rest);
    assert((s + (v + rest)).skip(s.len() as int) == v + rest);
    lemma_varint_round_trip(statistic.value, rest);
    lemma_varint_wire_len(VarInt(statistic.category.number()));
}

/// A decoded statistic takes at least three bytes, all of them among the
/// bytes at hand.
pub proof fn lemma_statistic_parse_bounds(bytes: Seq<u8>)
    ensures
        Statistic::parse(bytes) matches Ok((_, taken)) ==> 3 <= taken <= bytes.len(),
{
    reveal(used);
    reveal(after);
    lemma_varint_parse_bounds(bytes);
    let category = CategoryType::parse(bytes);
    let bytes1 = after(bytes, category);
    lemma_varint_parse_bounds(bytes1);
    let statistic_id = VarInt::parse(bytes1);
    let bytes2 = after(bytes1, statistic_id);
    lemma_varint_parse_bounds(bytes2);
}

/// The wire form of statistics that stand one after another.
pub open spec fn statistics_wire(list: Seq<Statistic>) -> Seq<u8>
    decreases list.len(),
{
    if list.len() == 0 {
        Seq::empty()
    } else {
        list[0].wire() + statistics_wire(list.drop_first())
    }
}

/// What `bytes` decode to as statistics that stand one after another and
/// fill the bytes to their end.
///
/// A statistic takes at least three bytes and never more than there are
/// ([`lemma_statistic_parse_bounds`]), so the refusal of a statistic that
/// takes none is never met: it is written down for the definition to end.
pub open spec fn statistics_parse(bytes: Seq<u8>) -> Result<(Seq<Statistic>, nat), DecodingError>
    decreases bytes.len(),
{
    if bytes.len() == 0 {
        Ok((Seq::empty(), 0))
    } else {
        match Statistic::parse(bytes) {
            Ok((first, taken)) => {
                if 0 < taken <= bytes.len() {
                    match statistics_parse(bytes.skip(taken as int)) {
                        Ok((others, more)) => Ok((seq![first] + others, taken + more)),
                        Err(e) => Err(e),
                    }
                } else {
                    Err(DecodingError::MalformedComposite)
                }
            },
            Err(e) => Err(e),
        }
    }
}

/// How many bytes are read of statistics of which one cannot be decoded: the
/// statistics before it, and of it what its own decoder reads.
pub open spec fn statistics_stop(bytes: Seq<u8>) -> nat
    decreases bytes.len(),
{
    if bytes.len() == 0 {
        0
    } else {
        match Statistic::parse(bytes) {
            Ok((_, taken)) => {
                if 0 < taken <= bytes.len() {
                    taken + statistics_stop(bytes.skip(taken as int))
                } else {
                    taken
                }
            },
            Err(_) => Statistic::stop(bytes),
        }
    }
}

/// What was read, followed by what the bytes still to read decode to.
spec fn statistics_so_far(
    done: Seq<Statistic>,
    taken: nat,
    tail: Result<(Seq<Statistic>, nat), DecodingError>,
) -> Result<(Seq<Statistic>, nat), DecodingError> {
    match tail {
        Ok((others, more)) => Ok((done + others, taken + more)),
        Err(e) => Err(e),
    }
}

proof fn lemma_statistics_wire_push(list: Seq<Statistic>, last: Statistic)
    ensures
        statistics_wire(list.push(last)) == statistics_wire(list) + last.wire(),
    decreases list.len(),
{
    if list.len() == 0 {
        let one = list.push(last);
        assert(one.drop_first() == Seq::<Statistic>::empty());
        assert(statistics_wire(one) == one[0].wire() + statistics_wire(one.drop_first()));
        assert(last.wire() + Seq::<u8>::empty() == last.wire());
    } else {
        lemma_statistics_wire_push(list.drop_first(), last);
        assert(list.push(last).drop_first() == list.drop_first().push(last));
    }
}

impl Encodable for Vec<Statistic> {
    open spec fn fits(&self) -> Result<(), EncodingError> {
        Ok(())
    }

    open spec fn wire(&self) -> Seq<u8> {
        statistics_wire(self@)
    }

    /// The statistics are written one after another, with no count before them.
    fn encode(&self, writer: &mut Vec<u8>) -> (r: Result<(), EncodingError>) {
        let mut i: usize = 0;
        while i < self.len()
            invariant
                i <= self@.len(),
                writer@ == old(writer)@ + statistics_wire(self@.take(i as int)),
            decreases self@.len() - i,
        {
            proof {
                lemma_statistics_wire_push(self@.take(i as int), self@[i as int]);
                assert(self@.take(i as int).push(self@[i as int]) == self@.take(i + 1));
            }
            self[i].encode(writer)?;
            i = i + 1;
        }
        assert(self@.take(i as int) == self@);
        Ok(())
    }
}

impl Decodable for Vec<Statistic> {
    open spec fn parse(bytes: Seq<u8>) -> Result<(Seq<Statistic>, nat), DecodingError> {
        statistics_parse(bytes)
    }

    open spec fn stop(bytes: Seq<u8>) -> nat {
        statistics_stop(bytes)
    }

    /// Statistics are read until the bytes are used up: the list is the last
    /// field of what holds it.
    fn decode(reader: &mut ByteReader<'_>) -> (r: Result<Self, DecodingError>) {
        let ghost bytes = reader.remaining();
        let ghost start = reader.position();
        let ghost mut taken: nat = 0;
        let mut list: Vec<Statistic> = Vec::new();
        assert(bytes.skip(0) == bytes);
        assert(Seq::<Statistic>::empty() + statistics_parse(bytes)->Ok_0.0 == statistics_parse(
            bytes,
        )->Ok_0.0);
        while reader.remaining_len() > 0
            invariant
                reader.data() == old(reader).data(),
                reader.position() == start + taken,
                reader.remaining() == bytes.skip(taken as int),
                taken <= bytes.len(),
                start == old(reader).position(),
                bytes == old(reader).remaining(),
                statistics_parse(bytes) == statistics_so_far(
                    list@,
                    taken,
                    statistics_parse(reader.remaining()),
                ),
                statistics_parse(bytes) is Err ==> statistics_stop(bytes) == taken
                    + statistics_stop(reader.remaining()),
            decreases reader.remaining().len(),
        {
            let ghost before = reader.remaining();
            proof {
                lemma_statistic_parse_bounds(before);
            }
            let next = Statistic::decode(reader)?;
            proof {
                let step = Statistic::parse(before)->Ok_0.1;
                let tail = statistics_parse(before.skip(step as int));
                if tail is Ok {
                    assert(list@ + (seq![next] + tail->Ok_0.0) == list@.push(next) + tail->Ok_0.0);
                }
                taken = taken + step;
            }
            list.push(next);
        }
        proof {
            assert(list@ + Seq::<Statistic>::empty() == list@);
            assert(list.deep_view() == list@);
            assert(bytes.skip(taken as int).len() == 0);
        }
        Ok(list)
    }
}

/// Statistics that stand one after another decode from their wire form to
/// themselves, where nothing follows them.
pub proof fn lemma_statistics_round_trip(list: Seq<Statistic>)
    ensures
        statistics_parse(statistics_wire(list)) == Ok::<(Seq<Statistic>, nat), DecodingError>(
            (list, statistics_wire(list).len()),
        ),
    decreases list.len(),
{
    if list.len() > 0 {
        let others = list.drop_first();
        lemma_statistic_round_trip(list[0], statistics_wire(others));
        lemma_statistics_round_trip(others);
        let bytes = statistics_wire(list);
        assert(bytes == list[0].wire() + statistics_wire(others));
        assert(bytes.skip(list[0].wire().len() as int) == statistics_wire(others));
        assert(seq![list[0]] + others == list);
    } else {
        assert(list == Seq::<Statistic>::empty());
    }
}

} // verus!
