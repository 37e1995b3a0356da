//! Structured data survives the way to bytes and back.

use crate::datatypes::floats::{lemma_double_round_trip, lemma_float_round_trip, Double, Float};
use crate::datatypes::integers::{
    lemma_i16_round_trip, lemma_i32_round_trip, lemma_i64_round_trip, lemma_i8_round_trip,
};
use crate::datatypes::strings::{lemma_string_round_trip, string_parse, string_wire};
use crate::datatypes::varint::{lemma_varint_round_trip, VarInt};
use crate::decoding::{Decodable, DecodingError};
use crate::encoding::Encodable;
use crate::nbt::binary::{
    count_fits, count_parse, count_wire, entries_fit, entries_parse, entries_wire, kind_of, left,
    many_parse, many_wire, names_unique, tag_fits, tag_parse, tag_wire, tags_fit, tags_parse,
    tags_wire,
};
use crate::nbt::Tag;
use vstd::prelude::*;

verus! {

/// A count that can be announced decodes from its wire form to itself,
/// whatever follows it.
pub proof fn lemma_count_round_trip(n: nat, rest: Seq<u8>)
    requires
        count_fits(n) is Ok,
    ensures
        count_parse(count_wire(n) + rest) == Ok::<(nat, nat), DecodingError>(
            (n, count_wire(n).len()),
        ),
{
    lemma_varint_round_trip(VarInt(n as i32), rest);
}

/// Where every value of a type decodes from its wire form to itself, so do
/// values of the type that stand one after another.
pub proof fn lemma_many_round_trip<T: Encodable + Decodable>(items: Seq<T>, rest: Seq<u8>)
    requires
        forall|x: T, tail: Seq<u8>| #[trigger]
            T::parse(x.wire() + tail) == Ok::<(T::V, nat), DecodingError>(
                (x.deep_view(), x.wire().len()),
            ),
    ensures
        many_parse::<T>(many_wire(items) + rest, items.len()) matches Ok((views, used)) && {
            &&& used == many_wire(items).len()
            &&& views.len() == items.len()
            &&& forall|i: int| 0 <= i < items.len() ==> #[trigger] views[i] == items[i].deep_view()
        },
    decreases items.len(),
{
    if items.len() > 0 {
        let others = items.drop_first();
        let tail = many_wire(others) + rest;
        let bytes = many_wire(items) + rest;
        assert(bytes == items[0].wire() + tail);
        assert(left(bytes, items[0].wire().len()) == tail);
        lemma_many_round_trip(others, rest);
        let views = many_parse::<T>(bytes, items.len())->Ok_0.0;
        assert forall|i: int| 0 <= i < items.len() implies #[trigger] views[i] == items[
            i
        ].deep_view() by {
            if i > 0 {
                assert(items[i] == others[i - 1]);
            }
        }
    }
}

proof fn lemma_scalar_round_trip(tag: Tag, rest: Seq<u8>)
    requires
        tag_fits(tag) is Ok,
        tag is Byte || tag is Short || tag is Int || tag is Long || tag is Float || tag is Double
            || tag is String,
    ensures
        tag_parse(tag_wire(tag) + rest) == Ok::<(Tag, nat), DecodingError>(
            (tag, tag_wire(tag).len()),
        ),
{
    let bytes = tag_wire(tag) + rest;
    let body = bytes.skip(1);
    assert(bytes[0] == kind_of(tag));
    match tag {
        Tag::Byte(v) => {
            assert(body == v.wire() + rest);
            lemma_i8_round_trip(v, rest);
        },
        Tag::Short(v) => {
            assert(body == v.wire() + rest);
            lemma_i16_round_trip(v, rest);
        },
        Tag::Int(v) => {
            assert(body == v.wire() + rest);
            lemma_i32_round_trip(v, rest);
        },
        Tag::Long(v) => {
            assert(body == v.wire() + rest);
            lemma_i64_round_trip(v, rest);
        },
        Tag::Float(v) => {
            assert(body == v.wire() + rest);
            lemma_float_round_trip(v, rest);
        },
        Tag::Double(v) => {
            assert(body == v.wire() + rest);
            lemma_double_round_trip(v, rest);
        },
        Tag::String(chars) => {
            assert(body == string_wire(chars) + rest);
            lemma_string_round_trip(chars, rest);
        },
        _ => {},
    }
}

/// The bytes behind the kind byte of a collection: the count decodes to the
/// number of elements, and behind it stand the elements and what follows.
proof fn lemma_collection_head(tag: Tag, n: nat, elements: Seq<u8>, rest: Seq<u8>)
    requires
        count_fits(n) is Ok,
        tag_wire(tag) == seq![kind_of(tag)] + (count_wire(n) + elements),
    ensures
        (tag_wire(tag) + rest)[0] == kind_of(tag),
        count_parse((tag_wire(tag) + rest).skip(1)) == Ok::<(nat, nat), DecodingError>(
            (n, count_wire(n).len()),
        ),
        left((tag_wire(tag) + rest).skip(1), count_wire(n).len()) == elements + rest,
        tag_wire(tag).len() == 1 + count_wire(n).len() + elements.len(),
{
    let bytes = tag_wire(tag) + rest;
    let body = bytes.skip(1);
    let payload = elements + rest;
    assert(body == count_wire(n) + payload);
    lemma_count_round_trip(n, payload);
    assert(left(body, count_wire(n).len()) == payload);
}

proof fn lemma_array_round_trip(tag: Tag, rest: Seq<u8>)
    requires
        tag_fits(tag) is Ok,
        tag is ByteArray || tag is IntArray || tag is LongArray,
    ensures
        tag_parse(tag_wire(tag) + rest) == Ok::<(Tag, nat), DecodingError>(
            (tag, tag_wire(tag).len()),
        ),
{
    match tag {
        Tag::ByteArray(items) => {
            lemma_collection_head(tag, items.len(), many_wire(items), rest);
            assert forall|x: i8, tail: Seq<u8>| #[trigger]
                i8::parse(x.wire() + tail) == Ok::<(i8, nat), DecodingError>(
                    (x.deep_view(), x.wire().len()),
                ) by {
                lemma_i8_round_trip(x, tail);
            }
            lemma_many_round_trip::<i8>(items, rest);
            let views = many_parse::<i8>(many_wire(items) + rest, items.len())->Ok_0.0;
            assert forall|i: int| 0 <= i < items.len() implies views[i] == items[i] by {
                assert(items[i].deep_view() == items[i]);
            }
            assert(views == items);
        },
        Tag::IntArray(items) => {
            lemma_collection_head(tag, items.len(), many_wire(items), rest);
            assert forall|x: i32, tail: Seq<u8>| #[trigger]
                i32::parse(x.wire() + tail) == Ok::<(i32, nat), DecodingError>(
                    (x.deep_view(), x.wire().len()),
                ) by {
                lemma_i32_round_trip(x, tail);
            }
            lemma_many_round_trip::<i32>(items, rest);
            let views = many_parse::<i32>(many_wire(items) + rest, items.len())->Ok_0.0;
            assert forall|i: int| 0 <= i < items.len() implies views[i] == items[i] by {
                assert(items[i].deep_view() == items[i]);
            }
            assert(views == items);
        },
        Tag::LongArray(items) => {
            lemma_collection_head(tag, items.len(), many_wire(items), rest);
            assert forall|x: i64, tail: Seq<u8>| #[trigger]
                i64::parse(x.wire() + tail) == Ok::<(i64, nat), DecodingError>(
                    (x.deep_view(), x.wire().len()),
                ) by {
                lemma_i64_round_trip(x, tail);
            }
            lemma_many_round_trip::<i64>(items, rest);
            let views = many_parse::<i64>(many_wire(items) + rest, items.len())->Ok_0.0;
            assert forall|i: int| 0 <= i < items.len() implies views[i] == items[i] by {
                assert(items[i].deep_view() == items[i]);
            }
            assert(views == items);
        },
        _ => {},
    }
}

/// A value that has a wire form decodes from it to itself, whatever follows
/// it, and the decoder takes exactly the bytes of the wire form.
pub proof fn lemma_tag_round_trip(tag: Tag, rest: Seq<u8>)
    requires
        tag_fits(tag) is Ok,
    ensures
        tag_parse(tag_wire(tag) + rest) == Ok::<(Tag, nat), DecodingError>(
            (tag, tag_wire(tag).len()),
        ),
    decreases tag,
{
    match tag {
        Tag::List(items) => {
            lemma_collection_head(tag, items.len(), tags_wire(items), rest);
            lemma_tags_round_trip(items, rest);
        },
        Tag::Compound(entries) => {
            lemma_collection_head(tag, entries.len(), entries_wire(entries), rest);
            lemma_entries_round_trip(entries, rest);
        },
        Tag::ByteArray(_) | Tag::IntArray(_) | Tag::LongArray(_) => {
            lemma_array_round_trip(tag, rest);
        },
        _ => {
            lemma_scalar_round_trip(tag, rest);
        },
    }
}

/// Values that have wire forms and stand one after another decode to
/// themselves, whatever follows them.
pub proof fn lemma_tags_round_trip(items: Seq<Tag>, rest: Seq<u8>)
    requires
        tags_fit(items) is Ok,
    ensures
        tags_parse(tags_wire(items) + rest, items.len()) == Ok::<(Seq<Tag>, nat), DecodingError>(
            (items, tags_wire(items).len()),
        ),
    decreases items,
{
    if items.len() == 0 {
        assert(items == Seq::<Tag>::empty());
    } else {
        let others = items.drop_first();
        let tail = tags_wire(others) + rest;
        let bytes = tags_wire(items) + rest;
        assert(bytes == tag_wire(items[0]) + tail);
        lemma_tag_round_trip(items[0], tail);
        assert(left(bytes, tag_wire(items[0]).len()) == tail);
        lemma_tags_round_trip(others, rest);
        assert(seq![items[0]] + others == items);
    }
}

/// Entries that have wire forms and stand one after another decode to
/// themselves, whatever follows them.
pub proof fn lemma_entries_round_trip(entries: Seq<(Seq<char>, Tag)>, rest: Seq<u8>)
    requires
        entries_fit(entries) is Ok,
    ensures
        entries_parse(entries_wire(entries) + rest, entries.len()) == Ok::<
            (Seq<(Seq<char>, Tag)>, nat),
            DecodingError,
        >((entries, entries_wire(entries).len())),
    decreases entries,
{
    if entries.len() == 0 {
        assert(entries == Seq::<(Seq<char>, Tag)>::empty());
    } else {
        let others = entries.drop_first();
        let tail = entries_wire(others) + rest;
        let middle = tag_wire(entries[0].1) + tail;
        let bytes = entries_wire(entries) + rest;
        assert(bytes == string_wire(entries[0].0) + middle);
        lemma_string_round_trip(entries[0].0, middle);
        assert(left(bytes, string_wire(entries[0].0).len()) == middle);
        lemma_tag_round_trip(entries[0].1, tail);
        assert(left(middle, tag_wire(entries[0].1).len()) == tail);
        lemma_entries_round_trip(others, rest);
        assert(seq![entries[0]] + others == entries);
    }
}

/// A tree that has a wire form holds no name twice in any of its compounds.
pub proof fn lemma_written_names_unique(tag: Tag)
    requires
        tag_fits(tag) is Ok,
    ensures
        names_unique(tag),
    decreases tag,
{
    match tag {
        Tag::List(items) => {
            lemma_written_list_names_unique(items);
        },
        Tag::Compound(entries) => {
            lemma_written_entries_names_unique(entries);
        },
        _ => {},
    }
}

proof fn lemma_written_list_names_unique(items: Seq<Tag>)
    requires
        tags_fit(items) is Ok,
    ensures
        forall|i: int| 0 <= i < items.len() ==> names_unique(#[trigger] items[i]),
    decreases items,
{
    if items.len() > 0 {
        lemma_written_names_unique(items[0]);
        lemma_written_list_names_unique(items.drop_first());
        assert forall|i: int| 0 <= i < items.len() implies names_unique(#[trigger] items[i]) by {
            if i > 0 {
                assert(items[i] == items.drop_first()[i - 1]);
            }
        }
    }
}

proof fn lemma_written_entries_names_unique(entries: Seq<(Seq<char>, Tag)>)
    requires
        entries_fit(entries) is Ok,
    ensures
        forall|i: int| 0 <= i < entries.len() ==> names_unique(#[trigger] entries[i].1),
    decreases entries,
{
    if entries.len() > 0 {
        lemma_written_names_unique(entries[0].1);
        lemma_written_entries_names_unique(entries.drop_first());
        assert forall|i: int| 0 <= i < entries.len() implies names_unique(
            #[trigger] entries[i].1,
        ) by {
            if i > 0 {
                assert(entries[i] == entries.drop_first()[i - 1]);
            }
        }
    }
}

/// A tree that was read holds no name twice in any of its compounds.
pub proof fn lemma_read_names_unique(bytes: Seq<u8>)
    ensures
        tag_parse(bytes) matches Ok((tag, _)) ==> names_unique(tag),
    decreases bytes.len(), 0nat,
{
    if bytes.len() > 0 {
        let body = bytes.skip(1);
        let count = count_parse(body);
        if count is Ok {
            let items = left(body, count->Ok_0.1);
            if bytes[0] == 9 {
                lemma_read_list_names_unique(items, count->Ok_0.0);
            } else if bytes[0] == 10 {
                lemma_read_entries_names_unique(items, count->Ok_0.0);
            }
        }
    }
}

proof fn lemma_read_list_names_unique(bytes: Seq<u8>, n: nat)
    ensures
        tags_parse(bytes, n) matches Ok((items, _)) ==> forall|i: int|
            0 <= i < items.len() ==> names_unique(#[trigger] items[i]),
    decreases bytes.len(), n + 1,
{
    if n > 0 {
        lemma_read_names_unique(bytes);
        if let Ok((_, used)) = tag_parse(bytes) {
            lemma_read_list_names_unique(left(bytes, used), (n - 1) as nat);
        }
    }
}

proof fn lemma_read_entries_names_unique(bytes: Seq<u8>, n: nat)
    ensures
        entries_parse(bytes, n) matches Ok((entries, _)) ==> forall|i: int|
            0 <= i < entries.len() ==> names_unique(#[trigger] entries[i].1),
    decreases bytes.len(), n + 1,
{
    if n > 0 {
        if let Ok((_, lead)) = string_parse(bytes) {
            let middle = left(bytes, lead);
            lemma_read_names_unique(middle);
            if let Ok((_, used)) = tag_parse(middle) {
                lemma_read_entries_names_unique(left(middle, used), (n - 1) as nat);
            }
        }
    }
}

} // verus!
