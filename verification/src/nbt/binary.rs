//! The binary form of structured data.
//!
//! A value is written as one byte that tells its kind, then its payload.
//! Arrays, lists and compounds start their payload with the number of their
//! elements, as a variable-length integer. An entry of a compound is its name,
//! then its value.

use crate::datatypes::strings::{
    check_text, same_text, string_fits, string_parse, string_stop, string_wire,
};
use crate::datatypes::varint::VarInt;
use crate::decoding::{Decodable, DecodingError};
use crate::encoding::{Encodable, EncodingError};
use crate::nbt::{entries_of, tags_of, Tag, Value};
use crate::reader::ByteReader;
use vstd::prelude::*;

verus! {

/// The most elements that a count can announce.
pub const MAX_COUNT: usize = 0x7FFF_FFFF;

/// The byte that tells the kind of a value.
pub open spec fn kind_of(tag: Tag) -> u8 {
    match tag {
        Tag::Byte(_) => 1,
        Tag::Short(_) => 2,
        Tag::Int(_) => 3,
        Tag::Long(_) => 4,
        Tag::Float(_) => 5,
        Tag::Double(_) => 6,
        Tag::ByteArray(_) => 7,
        Tag::String(_) => 8,
        Tag::List(_) => 9,
        Tag::Compound(_) => 10,
        Tag::IntArray(_) => 11,
        Tag::LongArray(_) => 12,
    }
}

/// The bytes that are left of `bytes` behind the first `used`.
pub open spec fn left(bytes: Seq<u8>, used: nat) -> Seq<u8> {
    if used <= bytes.len() {
        bytes.skip(used as int)
    } else {
        Seq::empty()
    }
}

/// Whether no name occurs twice among the entries.
pub open spec fn distinct_names(named: Seq<(Seq<char>, Tag)>) -> bool {
    forall|i: int, j: int| 0 <= i < j < named.len() ==> named[i].0 != named[j].0
}

/// Whether every compound of the tree is a mapping: none holds a name twice.
/// Every value that is read is such a tree, and only such trees are written.
pub open spec fn names_unique(tag: Tag) -> bool
    decreases tag,
{
    match tag {
        Tag::List(items) => forall|i: int|
            0 <= i < items.len() ==> names_unique(#[trigger] items[i]),
        Tag::Compound(entries) => distinct_names(entries) && forall|i: int|
            0 <= i < entries.len() ==> names_unique(#[trigger] entries[i].1),
        _ => true,
    }
}

/// Whether `n` elements can be announced.
pub open spec fn count_fits(n: nat) -> Result<(), EncodingError> {
    if n > MAX_COUNT {
        Err(EncodingError::LengthOverflow)
    } else {
        Ok(())
    }
}

/// The wire form of the count `n`.
pub open spec fn count_wire(n: nat) -> Seq<u8> {
    VarInt(n as i32).wire()
}

/// What the head of `bytes` decodes to as a count. A negative number is no
/// count.
pub open spec fn count_parse(bytes: Seq<u8>) -> Result<(nat, nat), DecodingError> {
    match VarInt::parse(bytes) {
        Ok((n, used)) => if n.0 < 0 {
            Err(DecodingError::MalformedComposite)
        } else {
            Ok((n.0 as nat, used))
        },
        Err(e) => Err(e),
    }
}

/// The wire forms of `items`, one after another.
pub open spec fn many_wire<T: Encodable>(items: Seq<T>) -> Seq<u8>
    decreases items.len(),
{
    if items.len() == 0 {
        Seq::empty()
    } else {
        items[0].wire() + many_wire(items.drop_first())
    }
}

/// What the head of `bytes` decodes to as `n` values of `T`, one after
/// another.
pub open spec fn many_parse<T: Decodable>(bytes: Seq<u8>, n: nat) -> Result<
    (Seq<T::V>, nat),
    DecodingError,
>
    decreases n,
{
    if n == 0 {
        Ok((Seq::empty(), 0))
    } else {
        match T::parse(bytes) {
            Ok((first, used)) => joined(
                seq![first],
                used,
                many_parse::<T>(left(bytes, used), (n - 1) as nat),
            ),
            Err(e) => Err(e),
        }
    }
}

/// What was read so far, followed by what the bytes still to read decode to.
pub open spec fn joined<T>(
    done: Seq<T>,
    taken: nat,
    tail: Result<(Seq<T>, nat), DecodingError>,
) -> Result<(Seq<T>, nat), DecodingError> {
    match tail {
        Ok((others, more)) => Ok((done + others, taken + more)),
        Err(e) => Err(e),
    }
}

/// What a parse gives once the kind byte before it and `lead` more bytes are
/// counted in, and the parsed value is made a tag.
pub open spec fn tagged<T>(
    parsed: Result<(T, nat), DecodingError>,
    lead: nat,
    make: spec_fn(T) -> Tag,
) -> Result<(Tag, nat), DecodingError> {
    match parsed {
        Ok((value, used)) => Ok((make(value), 1 + lead + used)),
        Err(e) => Err(e),
    }
}

/// Whether the value has a wire form, and if not, why: the first text that
/// is too long, the first count that is too large or the first compound that
/// holds a name twice, in the order of writing.
pub open spec fn tag_fits(tag: Tag) -> Result<(), EncodingError>
    decreases tag,
{
    match tag {
        Tag::ByteArray(items) => count_fits(items.len()),
        Tag::String(chars) => string_fits(chars),
        Tag::List(items) => if count_fits(items.len()) is Err {
            count_fits(items.len())
        } else {
            tags_fit(items)
        },
        Tag::Compound(entries) => if count_fits(entries.len()) is Err {
            count_fits(entries.len())
        } else if !distinct_names(entries) {
            Err(EncodingError::RepeatedName)
        } else {
            entries_fit(entries)
        },
        Tag::IntArray(items) => count_fits(items.len()),
        Tag::LongArray(items) => count_fits(items.len()),
        _ => Ok(()),
    }
}

/// Whether every value of the list has a wire form, and if not, why the first
/// that has none has none.
pub open spec fn tags_fit(items: Seq<Tag>) -> Result<(), EncodingError>
    decreases items,
{
    if items.len() == 0 {
        Ok(())
    } else if tag_fits(items[0]) is Err {
        tag_fits(items[0])
    } else {
        tags_fit(items.drop_first())
    }
}

/// Whether every entry has a wire form, and if not, why the first that has
/// none has none.
pub open spec fn entries_fit(entries: Seq<(Seq<char>, Tag)>) -> Result<(), EncodingError>
    decreases entries,
{
    if entries.len() == 0 {
        Ok(())
    } else if string_fits(entries[0].0) is Err {
        string_fits(entries[0].0)
    } else if tag_fits(entries[0].1) is Err {
        tag_fits(entries[0].1)
    } else {
        entries_fit(entries.drop_first())
    }
}

/// The wire form of a value: the kind byte, then the payload.
pub open spec fn tag_wire(tag: Tag) -> Seq<u8>
    decreases tag,
{
    seq![kind_of(tag)] + match tag {
        Tag::Byte(v) => v.wire(),
        Tag::Short(v) => v.wire(),
        Tag::Int(v) => v.wire(),
        Tag::Long(v) => v.wire(),
        Tag::Float(v) => v.wire(),
        Tag::Double(v) => v.wire(),
        Tag::ByteArray(items) => count_wire(items.len()) + many_wire(items),
        Tag::String(chars) => string_wire(chars),
        Tag::List(items) => count_wire(items.len()) + tags_wire(items),
        Tag::Compound(entries) => count_wire(entries.len()) + entries_wire(entries),
        Tag::IntArray(items) => count_wire(items.len()) + many_wire(items),
        Tag::LongArray(items) => count_wire(items.len()) + many_wire(items),
    }
}

/// The wire forms of the values of a list, one after another.
pub open spec fn tags_wire(items: Seq<Tag>) -> Seq<u8>
    decreases items,
{
    if items.len() == 0 {
        Seq::empty()
    } else {
        tag_wire(items[0]) + tags_wire(items.drop_first())
    }
}

/// The wire forms of the entries of a compound, one after another: of each
/// the name, then the value.
pub open spec fn entries_wire(entries: Seq<(Seq<char>, Tag)>) -> Seq<u8>
    decreases entries,
{
    if entries.len() == 0 {
        Seq::empty()
    } else {
        string_wire(entries[0].0) + tag_wire(entries[0].1) + entries_wire(entries.drop_first())
    }
}

/// What the head of `bytes` decodes to as a value. A compound that holds a
/// name twice is no value: a mapping has one value for a name.
pub open spec fn tag_parse(bytes: Seq<u8>) -> Result<(Tag, nat), DecodingError>
    decreases bytes.len(), 0nat,
{
    if bytes.len() == 0 {
        Err(DecodingError::UnexpectedEof)
    } else {
        let kind = bytes[0];
        let body = bytes.skip(1);
        let count = count_parse(body);
        let n = count->Ok_0.0;
        let lead = count->Ok_0.1;
        let items = left(body, lead);
        if kind == 1 {
            tagged(i8::parse(body), 0, |v: i8| Tag::Byte(v))
        } else if kind == 2 {
            tagged(i16::parse(body), 0, |v: i16| Tag::Short(v))
        } else if kind == 3 {
            tagged(i32::parse(body), 0, |v: i32| Tag::Int(v))
        } else if kind == 4 {
            tagged(i64::parse(body), 0, |v: i64| Tag::Long(v))
        } else if kind == 5 {
            tagged(crate::datatypes::floats::Float::parse(body), 0, |v| Tag::Float(v))
        } else if kind == 6 {
            tagged(crate::datatypes::floats::Double::parse(body), 0, |v| Tag::Double(v))
        } else if kind == 8 {
            tagged(string_parse(body), 0, |v: Seq<char>| Tag::String(v))
        } else if kind == 7 || kind == 9 || kind == 10 || kind == 11 || kind == 12 {
            if count is Err {
                Err(count->Err_0)
            } else if kind == 7 {
                tagged(many_parse::<i8>(items, n), lead, |v: Seq<i8>| Tag::ByteArray(v))
            } else if kind == 9 {
                tagged(tags_parse(items, n), lead, |v: Seq<Tag>| Tag::List(v))
            } else if kind == 10 {
                match entries_parse(items, n) {
                    Ok((named, used)) => if distinct_names(named) {
                        Ok((Tag::Compound(named), 1 + lead + used))
                    } else {
                        Err(DecodingError::InvalidEncoding)
                    },
                    Err(e) => Err(e),
                }
            } else if kind == 11 {
                tagged(many_parse::<i32>(items, n), lead, |v: Seq<i32>| Tag::IntArray(v))
            } else {
                tagged(many_parse::<i64>(items, n), lead, |v: Seq<i64>| Tag::LongArray(v))
            }
        } else {
            Err(DecodingError::UnsupportedDiscriminant)
        }
    }
}

/// How many bytes are read of a count that cannot be decoded: what the
/// decoder of the number reads, and all of a number that is negative.
pub open spec fn count_stop(bytes: Seq<u8>) -> nat {
    match VarInt::parse(bytes) {
        Ok((_, used)) => used,
        Err(_) => VarInt::stop(bytes),
    }
}

/// How many bytes are read of `n` values of `T` of which one cannot be
/// decoded: the values before it, and of it what its own decoder reads.
pub open spec fn many_stop<T: Decodable>(bytes: Seq<u8>, n: nat) -> nat
    decreases n,
{
    if n == 0 {
        0
    } else {
        match T::parse(bytes) {
            Ok((_, used)) => used + many_stop::<T>(left(bytes, used), (n - 1) as nat),
            Err(_) => T::stop(bytes),
        }
    }
}

/// How many bytes are read of a value that cannot be decoded: the kind byte,
/// and of the payload what is read of it until the failure shows.
pub open spec fn tag_stop(bytes: Seq<u8>) -> nat
    decreases bytes.len(), 0nat,
{
    if bytes.len() == 0 {
        0
    } else {
        let kind = bytes[0];
        let body = bytes.skip(1);
        let count = count_parse(body);
        let n = count->Ok_0.0;
        let lead = count->Ok_0.1;
        let items = left(body, lead);
        if kind == 8 {
            1 + string_stop(body)
        } else if kind == 7 || kind == 9 || kind == 10 || kind == 11 || kind == 12 {
            if count is Err {
                1 + count_stop(body)
            } else if kind == 7 {
                1 + lead + many_stop::<i8>(items, n)
            } else if kind == 9 {
                1 + lead + tags_stop(items, n)
            } else if kind == 10 {
                match entries_parse(items, n) {
                    Ok((_, used)) => 1 + lead + used,
                    Err(_) => 1 + lead + entries_stop(items, n),
                }
            } else if kind == 11 {
                1 + lead + many_stop::<i32>(items, n)
            } else {
                1 + lead + many_stop::<i64>(items, n)
            }
        } else {
            1
        }
    }
}

/// How many bytes are read of `n` values of which one cannot be decoded.
pub open spec fn tags_stop(bytes: Seq<u8>, n: nat) -> nat
    decreases bytes.len(), n + 1,
{
    if n == 0 {
        0
    } else {
        match tag_parse(bytes) {
            Ok((_, used)) => used + tags_stop(left(bytes, used), (n - 1) as nat),
            Err(_) => tag_stop(bytes),
        }
    }
}

/// How many bytes are read of `n` entries of which one cannot be decoded.
pub open spec fn entries_stop(bytes: Seq<u8>, n: nat) -> nat
    decreases bytes.len(), n + 1,
{
    if n == 0 {
        0
    } else {
        match string_parse(bytes) {
            Ok((_, lead)) => match tag_parse(left(bytes, lead)) {
                Ok((_, used)) => lead + used + entries_stop(
                    left(left(bytes, lead), used),
                    (n - 1) as nat,
                ),
                Err(_) => lead + tag_stop(left(bytes, lead)),
            },
            Err(_) => string_stop(bytes),
        }
    }
}

/// What the head of `bytes` decodes to as `n` values, one after another.
pub open spec fn tags_parse(bytes: Seq<u8>, n: nat) -> Result<(Seq<Tag>, nat), DecodingError>
    decreases bytes.len(), n + 1,
{
    if n == 0 {
        Ok((Seq::empty(), 0))
    } else {
        match tag_parse(bytes) {
            Ok((first, used)) => joined(
                seq![first],
                used,
                tags_parse(left(bytes, used), (n - 1) as nat),
            ),
            Err(e) => Err(e),
        }
    }
}

/// What the head of `bytes` decodes to as `n` entries, one after another.
pub open spec fn entries_parse(bytes: Seq<u8>, n: nat) -> Result<
    (Seq<(Seq<char>, Tag)>, nat),
    DecodingError,
>
    decreases bytes.len(), n + 1,
{
    if n == 0 {
        Ok((Seq::empty(), 0))
    } else {
        match string_parse(bytes) {
            Ok((name, lead)) => match tag_parse(left(bytes, lead)) {
                Ok((value, used)) => joined(
                    seq![(name, value)],
                    lead + used,
                    entries_parse(left(left(bytes, lead), used), (n - 1) as nat),
                ),
                Err(e) => Err(e),
            },
            Err(e) => Err(e),
        }
    }
}

/// Whether a collection of `len` elements can announce its length.
pub(crate) fn check_count(len: usize) -> (r: Result<(), EncodingError>)
    ensures
        r == count_fits(len as nat),
{
    if len > MAX_COUNT {
        Err(EncodingError::LengthOverflow)
    } else {
        Ok(())
    }
}

/// Whether no name occurs twice among the entries.
pub fn names_distinct(entries: &Vec<(String, Value)>) -> (r: bool)
    ensures
        r == distinct_names(entries_of(entries@)),
{
    let ghost named = entries_of(entries@);
    let mut j: usize = 0;
    while j < entries.len()
        invariant
            j <= entries@.len(),
            named == entries_of(entries@),
            forall|a: int, b: int| 0 <= a < b < j ==> named[a].0 != named[b].0,
        decreases entries@.len() - j,
    {
        let mut i: usize = 0;
        while i < j
            invariant
                i <= j < entries@.len(),
                named == entries_of(entries@),
                forall|a: int| 0 <= a < i ==> named[a].0 != named[j as int].0,
            decreases j - i,
        {
            if same_text(entries[i].0.as_str(), entries[j].0.as_str()) {
                assert(named[i as int].0 == named[j as int].0);
                return false;
            }
            i = i + 1;
        }
        j = j + 1;
    }
    true
}

/// Whether the value has a wire form, and if not, why.
pub fn check_value(value: &Value) -> (r: Result<(), EncodingError>)
    ensures
        r == tag_fits(value.deep_view()),
    decreases value, 0nat,
{
    match value {
        Value::ByteArray(items) => check_count(items.len()),
        Value::String(text) => check_text(text.as_str()),
        Value::List(items) => {
            assert(tags_of(items@).len() == items@.len());
            check_count(items.len())?;
            check_list(items)
        },
        Value::Compound(entries) => {
            assert(entries_of(entries@).len() == entries@.len());
            check_count(entries.len())?;
            if !names_distinct(entries) {
                return Err(EncodingError::RepeatedName);
            }
            check_entries(entries)
        },
        Value::IntArray(items) => check_count(items.len()),
        Value::LongArray(items) => check_count(items.len()),
        _ => Ok(()),
    }
}

fn check_list(items: &Vec<Value>) -> (r: Result<(), EncodingError>)
    ensures
        r == tags_fit(tags_of(items@)),
    decreases items, 1nat,
{
    let ghost tags = tags_of(items@);
    let mut i: usize = 0;
    assert(tags.skip(0) == tags);
    while i < items.len()
        invariant
            i <= items@.len(),
            tags == tags_of(items@),
            tags_fit(tags) == tags_fit(tags.skip(i as int)),
        decreases items@.len() - i,
    {
        proof {
            assert(tags.skip(i as int).drop_first() == tags.skip(i + 1));
        }
        check_value(&items[i])?;
        i = i + 1;
    }
    Ok(())
}

pub(crate) fn check_entries(entries: &Vec<(String, Value)>) -> (r: Result<(), EncodingError>)
    ensures
        r == entries_fit(entries_of(entries@)),
    decreases entries, 1nat,
{
    let ghost named = entries_of(entries@);
    let mut i: usize = 0;
    assert(named.skip(0) == named);
    while i < entries.len()
        invariant
            i <= entries@.len(),
            named == entries_of(entries@),
            entries_fit(named) == entries_fit(named.skip(i as int)),
        decreases entries@.len() - i,
    {
        proof {
            assert(named.skip(i as int).drop_first() == named.skip(i + 1));
        }
        check_text(entries[i].0.as_str())?;
        check_value(&entries[i].1)?;
        i = i + 1;
    }
    Ok(())
}

pub(crate) fn write_count(len: usize, writer: &mut Vec<u8>)
    requires
        len <= MAX_COUNT,
    ensures
        final(writer)@ == old(writer)@ + count_wire(len as nat),
{
    let _ = VarInt(len as i32).encode(writer);
}

fn write_many<T: Encodable>(items: &Vec<T>, writer: &mut Vec<u8>)
    requires
        forall|i: int| 0 <= i < items@.len() ==> (#[trigger] items@[i]).fits() is Ok,
    ensures
        final(writer)@ == old(writer)@ + many_wire(items@),
{
    let mut i: usize = 0;
    assert(items@.skip(0) == items@);
    while i < items.len()
        invariant
            i <= items@.len(),
            forall|i: int| 0 <= i < items@.len() ==> (#[trigger] items@[i]).fits() is Ok,
            old(writer)@ + many_wire(items@) == writer@ + many_wire(items@.skip(i as int)),
        decreases items@.len() - i,
    {
        let ghost before = writer@;
        let ghost rest = items@.skip(i as int);
        proof {
            assert(rest.drop_first() == items@.skip(i + 1));
            assert(before + (rest[0].wire() + many_wire(rest.drop_first())) == before
                + rest[0].wire() + many_wire(rest.drop_first()));
        }
        let _ = items[i].encode(writer);
        i = i + 1;
    }
    assert(many_wire(items@.skip(i as int)) == Seq::<u8>::empty());
}

/// Appends the wire form of a value that has one.
pub(crate) fn write_value(value: &Value, writer: &mut Vec<u8>)
    requires
        tag_fits(value.deep_view()) is Ok,
    ensures
        final(writer)@ == old(writer)@ + tag_wire(value.deep_view()),
    decreases value, 0nat,
{
    let ghost start = writer@;
    let ghost tag = value.deep_view();
    match value {
        Value::Byte(v) => {
            writer.push(1);
            let _ = v.encode(writer);
        },
        Value::Short(v) => {
            writer.push(2);
            let _ = v.encode(writer);
        },
        Value::Int(v) => {
            writer.push(3);
            let _ = v.encode(writer);
        },
        Value::Long(v) => {
            writer.push(4);
            let _ = v.encode(writer);
        },
        Value::Float(v) => {
            writer.push(5);
            let _ = v.encode(writer);
        },
        Value::Double(v) => {
            writer.push(6);
            let _ = v.encode(writer);
        },
        Value::ByteArray(items) => {
            writer.push(7);
            write_count(items.len(), writer);
            write_many(items, writer);
        },
        Value::String(text) => {
            writer.push(8);
            let _ = text.encode(writer);
        },
        Value::List(items) => {
            assert(tags_of(items@).len() == items@.len());
            writer.push(9);
            write_count(items.len(), writer);
            write_list(items, writer);
        },
        Value::Compound(entries) => {
            assert(entries_of(entries@).len() == entries@.len());
            writer.push(10);
            write_count(entries.len(), writer);
            write_entries(entries, writer);
        },
        Value::IntArray(items) => {
            writer.push(11);
            write_count(items.len(), writer);
            write_many(items, writer);
        },
        Value::LongArray(items) => {
            writer.push(12);
            write_count(items.len(), writer);
            write_many(items, writer);
        },
    }
    assert(writer@ == start + tag_wire(tag));
}

fn write_list(items: &Vec<Value>, writer: &mut Vec<u8>)
    requires
        tags_fit(tags_of(items@)) is Ok,
    ensures
        final(writer)@ == old(writer)@ + tags_wire(tags_of(items@)),
    decreases items, 1nat,
{
    let ghost tags = tags_of(items@);
    let mut i: usize = 0;
    assert(tags.skip(0) == tags);
    while i < items.len()
        invariant
            i <= items@.len(),
            tags == tags_of(items@),
            tags_fit(tags.skip(i as int)) is Ok,
            old(writer)@ + tags_wire(tags) == writer@ + tags_wire(tags.skip(i as int)),
        decreases items@.len() - i,
    {
        let ghost before = writer@;
        let ghost rest = tags.skip(i as int);
        proof {
            assert(rest.drop_first() == tags.skip(i + 1));
            assert(before + (tag_wire(rest[0]) + tags_wire(rest.drop_first())) == before
                + tag_wire(rest[0]) + tags_wire(rest.drop_first()));
        }
        write_value(&items[i], writer);
        i = i + 1;
    }
    assert(tags_wire(tags.skip(i as int)) == Seq::<u8>::empty());
}

pub(crate) fn write_entries(entries: &Vec<(String, Value)>, writer: &mut Vec<u8>)
    requires
        entries_fit(entries_of(entries@)) is Ok,
    ensures
        final(writer)@ == old(writer)@ + entries_wire(entries_of(entries@)),
    decreases entries, 1nat,
{
    let ghost named = entries_of(entries@);
    let mut i: usize = 0;
    assert(named.skip(0) == named);
    while i < entries.len()
        invariant
            i <= entries@.len(),
            named == entries_of(entries@),
            entries_fit(named.skip(i as int)) is Ok,
            old(writer)@ + entries_wire(named) == writer@ + entries_wire(named.skip(i as int)),
        decreases entries@.len() - i,
    {
        let ghost before = writer@;
        let ghost rest = named.skip(i as int);
        proof {
            assert(rest.drop_first() == named.skip(i + 1));
            assert(before + (string_wire(rest[0].0) + tag_wire(rest[0].1) + entries_wire(
                rest.drop_first(),
            )) == before + string_wire(rest[0].0) + tag_wire(rest[0].1) + entries_wire(
                rest.drop_first(),
            ));
        }
        let _ = entries[i].0.encode(writer);
        write_value(&entries[i].1, writer);
        i = i + 1;
    }
    assert(entries_wire(named.skip(i as int)) == Seq::<u8>::empty());
}

impl Encodable for Value {
    open spec fn fits(&self) -> Result<(), EncodingError> {
        tag_fits(self.deep_view())
    }

    open spec fn wire(&self) -> Seq<u8> {
        tag_wire(self.deep_view())
    }

    fn encode(&self, writer: &mut Vec<u8>) -> (r: Result<(), EncodingError>) {
        check_value(self)?;
        write_value(self, writer);
        Ok(())
    }
}

proof fn lemma_behind(bytes: Seq<u8>, first: nat, second: nat)
    requires
        first <= bytes.len(),
        second <= bytes.len() - first,
    ensures
        bytes.skip(first as int).skip(second as int) == bytes.skip((first + second) as int),
        left(bytes.skip(first as int), second) == bytes.skip((first + second) as int),
{
}

proof fn lemma_joined_step<T>(
    done: Seq<T>,
    taken: nat,
    first: T,
    used: nat,
    tail: Result<(Seq<T>, nat), DecodingError>,
)
    ensures
        joined(done, taken, joined(seq![first], used, tail)) == joined(
            done.push(first),
            taken + used,
            tail,
        ),
{
    if let Ok((others, more)) = tail {
        assert(done + (seq![first] + others) == done.push(first) + others);
    }
}

pub(crate) fn read_count(reader: &mut ByteReader<'_>) -> (r: Result<usize, DecodingError>)
    ensures
        final(reader).data() == old(reader).data(),
        match count_parse(old(reader).remaining()) {
            Ok((n, used)) => r is Ok && r->Ok_0 == n && n <= MAX_COUNT && final(reader).moved_by(
                *old(reader),
                used,
            ),
            Err(e) => r is Err && r->Err_0 == e && final(reader).position() == old(
                reader,
            ).position() + count_stop(old(reader).remaining()),
        },
{
    let n = VarInt::decode(reader)?;
    if n.0 < 0 {
        Err(DecodingError::MalformedComposite)
    } else {
        Ok(n.0 as usize)
    }
}

fn read_many<T: Decodable>(reader: &mut ByteReader<'_>, n: usize) -> (r: Result<
    Vec<T>,
    DecodingError,
>)
    ensures
        final(reader).data() == old(reader).data(),
        match many_parse::<T>(old(reader).remaining(), n as nat) {
            Ok((items, used)) => r is Ok && r->Ok_0.deep_view() == items && final(reader).moved_by(
                *old(reader),
                used,
            ),
            Err(e) => r is Err && r->Err_0 == e && final(reader).position() == old(
                reader,
            ).position() + many_stop::<T>(old(reader).remaining(), n as nat),
        },
{
    let ghost bytes = reader.remaining();
    let ghost start = reader.position();
    let ghost mut taken: nat = 0;
    let mut list: Vec<T> = Vec::new();
    let mut i: usize = 0;
    proof {
        assert(bytes.skip(0) == bytes);
        assert(list.deep_view() == Seq::<T::V>::empty());
        let whole = many_parse::<T>(bytes, n as nat);
        if whole is Ok {
            assert(Seq::<T::V>::empty() + whole->Ok_0.0 == whole->Ok_0.0);
        }
    }
    while i < n
        invariant
            i <= n,
            reader.data() == old(reader).data(),
            reader.position() == start + taken,
            reader.remaining() == bytes.skip(taken as int),
            taken <= bytes.len(),
            start == old(reader).position(),
            bytes == old(reader).remaining(),
            list@.len() == i,
            many_parse::<T>(bytes, n as nat) == joined(
                list.deep_view(),
                taken,
                many_parse::<T>(reader.remaining(), (n - i) as nat),
            ),
            many_parse::<T>(bytes, n as nat) is Err ==> many_stop::<T>(bytes, n as nat) == taken
                + many_stop::<T>(reader.remaining(), (n - i) as nat),
        decreases n - i,
    {
        let ghost before = reader.remaining();
        let ghost done = list.deep_view();
        let next = T::decode(reader)?;
        proof {
            let step = T::parse(before)->Ok_0.1;
            lemma_joined_step(
                done,
                taken,
                next.deep_view(),
                step,
                many_parse::<T>(left(before, step), (n - i - 1) as nat),
            );
            taken = taken + step;
        }
        list.push(next);
        i = i + 1;
        assert(list.deep_view() == done.push(next.deep_view()));
    }
    proof {
        assert(list.deep_view() + Seq::<T::V>::empty() == list.deep_view());
    }
    Ok(list)
}

/// Reads one value from the reader's position.
pub fn read_value(reader: &mut ByteReader<'_>) -> (r: Result<Value, DecodingError>)
    ensures
        final(reader).data() == old(reader).data(),
        match tag_parse(old(reader).remaining()) {
            Ok((tag, used)) => r is Ok && r->Ok_0.deep_view() == tag && final(reader).moved_by(
                *old(reader),
                used,
            ),
            Err(e) => r is Err && r->Err_0 == e && final(reader).position() == old(
                reader,
            ).position() + tag_stop(old(reader).remaining()),
        },
    decreases old(reader).remaining().len(), 0nat,
{
    let ghost bytes = reader.remaining();
    let kind = reader.read_u8()?;
    let ghost body = reader.remaining();
    assert(body == bytes.skip(1));
    match kind {
        1 => {
            let v = i8::decode(reader)?;
            proof {
                lemma_behind(bytes, 1, i8::parse(body)->Ok_0.1);
            }
            Ok(Value::Byte(v))
        },
        2 => {
            let v = i16::decode(reader)?;
            proof {
                lemma_behind(bytes, 1, i16::parse(body)->Ok_0.1);
            }
            Ok(Value::Short(v))
        },
        3 => {
            let v = i32::decode(reader)?;
            proof {
                lemma_behind(bytes, 1, i32::parse(body)->Ok_0.1);
            }
            Ok(Value::Int(v))
        },
        4 => {
            let v = i64::decode(reader)?;
            proof {
                lemma_behind(bytes, 1, i64::parse(body)->Ok_0.1);
            }
            Ok(Value::Long(v))
        },
        5 => {
            let v = crate::datatypes::floats::Float::decode(reader)?;
            proof {
                lemma_behind(bytes, 1, crate::datatypes::floats::Float::parse(body)->Ok_0.1);
            }
            Ok(Value::Float(v))
        },
        6 => {
            let v = crate::datatypes::floats::Double::decode(reader)?;
            proof {
                lemma_behind(bytes, 1, crate::datatypes::floats::Double::parse(body)->Ok_0.1);
            }
            Ok(Value::Double(v))
        },
        7 => {
            let n = read_count(reader)?;
            let ghost lead = count_parse(body)->Ok_0.1;
            proof {
                lemma_behind(bytes, 1, lead);
            }
            let items = read_many::<i8>(reader, n)?;
            proof {
                lemma_behind(
                    bytes,
                    1 + lead,
                    many_parse::<i8>(left(body, lead), n as nat)->Ok_0.1,
                );
                assert(items.deep_view() == items@);
            }
            Ok(Value::ByteArray(items))
        },
        8 => {
            let text = String::decode(reader)?;
            proof {
                lemma_behind(bytes, 1, String::parse(body)->Ok_0.1);
            }
            Ok(Value::String(text))
        },
        9 => {
            let n = read_count(reader)?;
            let ghost lead = count_parse(body)->Ok_0.1;
            proof {
                lemma_behind(bytes, 1, lead);
            }
            let items = read_list(reader, n)?;
            proof {
                lemma_behind(bytes, 1 + lead, tags_parse(left(body, lead), n as nat)->Ok_0.1);
            }
            Ok(Value::List(items))
        },
        10 => {
            let n = read_count(reader)?;
            let ghost lead = count_parse(body)->Ok_0.1;
            proof {
                lemma_behind(bytes, 1, lead);
            }
            let entries = read_entries(reader, n)?;
            proof {
                lemma_behind(bytes, 1 + lead, entries_parse(left(body, lead), n as nat)->Ok_0.1);
            }
            if !names_distinct(&entries) {
                return Err(DecodingError::InvalidEncoding);
            }
            Ok(Value::Compound(entries))
        },
        11 => {
            let n = read_count(reader)?;
            let ghost lead = count_parse(body)->Ok_0.1;
            proof {
                lemma_behind(bytes, 1, lead);
            }
            let items = read_many::<i32>(reader, n)?;
            proof {
                lemma_behind(
                    bytes,
                    1 + lead,
                    many_parse::<i32>(left(body, lead), n as nat)->Ok_0.1,
                );
                assert(items.deep_view() == items@);
            }
            Ok(Value::IntArray(items))
        },
        12 => {
            let n = read_count(reader)?;
            let ghost lead = count_parse(body)->Ok_0.1;
            proof {
                lemma_behind(bytes, 1, lead);
            }
            let items = read_many::<i64>(reader, n)?;
            proof {
                lemma_behind(
                    bytes,
                    1 + lead,
                    many_parse::<i64>(left(body, lead), n as nat)->Ok_0.1,
                );
                assert(items.deep_view() == items@);
            }
            Ok(Value::LongArray(items))
        },
        _ => Err(DecodingError::UnsupportedDiscriminant),
    }
}

fn read_list(reader: &mut ByteReader<'_>, n: usize) -> (r: Result<Vec<Value>, DecodingError>)
    ensures
        final(reader).data() == old(reader).data(),
        match tags_parse(old(reader).remaining(), n as nat) {
            Ok((tags, used)) => r is Ok && tags_of(r->Ok_0@) == tags && final(reader).moved_by(
                *old(reader),
                used,
            ),
            Err(e) => r is Err && r->Err_0 == e && final(reader).position() == old(
                reader,
            ).position() + tags_stop(old(reader).remaining(), n as nat),
        },
    decreases old(reader).remaining().len(), n + 1,
{
    let ghost bytes = reader.remaining();
    let ghost start = reader.position();
    let ghost mut taken: nat = 0;
    let mut list: Vec<Value> = Vec::new();
    let mut i: usize = 0;
    proof {
        assert(bytes.skip(0) == bytes);
        assert(tags_of(list@) == Seq::<Tag>::empty());
        let whole = tags_parse(bytes, n as nat);
        if whole is Ok {
            assert(Seq::<Tag>::empty() + whole->Ok_0.0 == whole->Ok_0.0);
        }
    }
    while i < n
        invariant
            i <= n,
            reader.data() == old(reader).data(),
            reader.position() == start + taken,
            reader.remaining() == bytes.skip(taken as int),
            taken <= bytes.len(),
            start == old(reader).position(),
            bytes == old(reader).remaining(),
            list@.len() == i,
            tags_parse(bytes, n as nat) == joined(
                tags_of(list@),
                taken,
                tags_parse(reader.remaining(), (n - i) as nat),
            ),
            tags_parse(bytes, n as nat) is Err ==> tags_stop(bytes, n as nat) == taken + tags_stop(
                reader.remaining(),
                (n - i) as nat,
            ),
        decreases n - i,
    {
        let ghost before = reader.remaining();
        let ghost done = tags_of(list@);
        let next = read_value(reader)?;
        proof {
            let step = tag_parse(before)->Ok_0.1;
            lemma_joined_step(
                done,
                taken,
                next.deep_view(),
                step,
                tags_parse(left(before, step), (n - i - 1) as nat),
            );
            taken = taken + step;
        }
        let ghost tag = next.deep_view();
        list.push(next);
        i = i + 1;
        assert(tags_of(list@) == done.push(tag));
    }
    proof {
        assert(tags_of(list@) + Seq::<Tag>::empty() == tags_of(list@));
    }
    Ok(list)
}

fn read_entries(reader: &mut ByteReader<'_>, n: usize) -> (r: Result<
    Vec<(String, Value)>,
    DecodingError,
>)
    ensures
        final(reader).data() == old(reader).data(),
        match entries_parse(old(reader).remaining(), n as nat) {
            Ok((named, used)) => {
                &&& r is Ok
                &&& entries_of(r->Ok_0@) == named
                &&& final(reader).moved_by(*old(reader), used)
            },
            Err(e) => {
                &&& r is Err
                &&& r->Err_0 == e
                &&& final(reader).position() == old(reader).position() + entries_stop(
                    old(reader).remaining(),
                    n as nat,
                )
            },
        },
    decreases old(reader).remaining().len(), n + 1,
{
    let ghost bytes = reader.remaining();
    let ghost start = reader.position();
    let ghost mut taken: nat = 0;
    let mut list: Vec<(String, Value)> = Vec::new();
    let mut i: usize = 0;
    proof {
        assert(bytes.skip(0) == bytes);
        assert(entries_of(list@) == Seq::<(Seq<char>, Tag)>::empty());
        let whole = entries_parse(bytes, n as nat);
        if whole is Ok {
            assert(Seq::<(Seq<char>, Tag)>::empty() + whole->Ok_0.0 == whole->Ok_0.0);
        }
    }
    while i < n
        invariant
            i <= n,
            reader.data() == old(reader).data(),
            reader.position() == start + taken,
            reader.remaining() == bytes.skip(taken as int),
            taken <= bytes.len(),
            start == old(reader).position(),
            bytes == old(reader).remaining(),
            list@.len() == i,
            entries_parse(bytes, n as nat) == joined(
                entries_of(list@),
                taken,
                entries_parse(reader.remaining(), (n - i) as nat),
            ),
            entries_parse(bytes, n as nat) is Err ==> entries_stop(bytes, n as nat) == taken
                + entries_stop(reader.remaining(), (n - i) as nat),
        decreases n - i,
    {
        let ghost before = reader.remaining();
        let ghost done = entries_of(list@);
        let name = String::decode(reader)?;
        let ghost lead = string_parse(before)->Ok_0.1;
        let ghost middle = reader.remaining();
        let value = read_value(reader)?;
        proof {
            let step = tag_parse(middle)->Ok_0.1;
            assert(left(left(before, lead), step) == before.skip((lead + step) as int));
            lemma_joined_step(
                done,
                taken,
                (name@, value.deep_view()),
                lead + step,
                entries_parse(left(left(before, lead), step), (n - i - 1) as nat),
            );
            taken = taken + lead + step;
        }
        let ghost entry = (name@, value.deep_view());
        list.push((name, value));
        i = i + 1;
        assert(entries_of(list@) == done.push(entry));
    }
    proof {
        assert(entries_of(list@) + Seq::<(Seq<char>, Tag)>::empty() == entries_of(list@));
    }
    Ok(list)
}

impl Decodable for Value {
    open spec fn parse(bytes: Seq<u8>) -> Result<(Tag, nat), DecodingError> {
        tag_parse(bytes)
    }

    open spec fn stop(bytes: Seq<u8>) -> nat {
        tag_stop(bytes)
    }

    fn decode(reader: &mut ByteReader<'_>) -> (r: Result<Self, DecodingError>) {
        read_value(reader)
    }
}

} // verus!
