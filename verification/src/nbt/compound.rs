//! The compound at the top of a tree, and the form in which it travels inside
//! a packet: its length in bytes, then its binary form.

use crate::datatypes::bigendian::append;
use crate::datatypes::strings::same_text;
use crate::decoding::{Decodable, DecodingError};
use crate::encoding::{Encodable, EncodingError};
use crate::nbt::binary::{
    check_count, check_entries, count_fits, count_parse, count_stop, count_wire,
    distinct_names, entries_wire, left, names_distinct,
    read_count, read_value, tag_fits, tag_parse, tag_wire, write_count, write_entries,
};
use crate::nbt::round_trip::{lemma_count_round_trip, lemma_tag_round_trip};
use crate::nbt::{entries_of, Tag, Value};
use crate::reader::ByteReader;
use vstd::prelude::*;

verus! {

/// The compound at the top of a tree: a mapping from names to values.
///
/// The entries are kept in the order in which their names were first put in
/// or read, which is the order in which they are written. No name occurs
/// twice.
#[derive(Debug)]
pub struct CompoundTag {
    entries: Vec<(String, Value)>,
}

/// The mapping that a list of entries stands for: every name with the value
/// of the last entry of that name. Among entries of distinct names that is
/// the one entry of the name.
pub open spec fn mapping(named: Seq<(Seq<char>, Tag)>) -> Map<Seq<char>, Tag>
    decreases named.len(),
{
    if named.len() == 0 {
        Map::empty()
    } else {
        mapping(named.drop_last()).insert(named.last().0, named.last().1)
    }
}

/// The binary form of a compound with the given entries.
pub open spec fn blob(named: Seq<(Seq<char>, Tag)>) -> Seq<u8> {
    tag_wire(Tag::Compound(named))
}

/// Whether a compound with the given entries can travel, and if not, why:
/// its tree has no binary form, or the binary form is too long to announce.
pub open spec fn compound_fits(named: Seq<(Seq<char>, Tag)>) -> Result<(), EncodingError> {
    if tag_fits(Tag::Compound(named)) is Err {
        tag_fits(Tag::Compound(named))
    } else {
        count_fits(blob(named).len())
    }
}

/// What the head of `bytes` decodes to as a compound that travels.
///
/// The announced length must lie within the bytes at hand, and the bytes of
/// that length must be one compound, no more and no less.
pub open spec fn compound_parse(bytes: Seq<u8>) -> Result<
    (Seq<(Seq<char>, Tag)>, nat),
    DecodingError,
> {
    match count_parse(bytes) {
        Ok((n, lead)) => {
            let body = left(bytes, lead);
            if n > body.len() {
                Err(DecodingError::MalformedComposite)
            } else {
                match tag_parse(body.take(n as int)) {
                    Ok((tag, used)) => if used != n {
                        Err(DecodingError::MalformedComposite)
                    } else {
                        match tag {
                            Tag::Compound(named) => Ok((named, lead + n)),
                            _ => Err(DecodingError::InvalidEncoding),
                        }
                    },
                    Err(DecodingError::UnexpectedEof) => Err(DecodingError::MalformedComposite),
                    Err(e) => Err(e),
                }
            }
        },
        Err(e) => Err(e),
    }
}

/// How many bytes are read of a compound that travels and cannot be decoded:
/// of a length that cannot be decoded what its decoder reads, the length
/// alone where it reaches behind the bytes at hand, and else the length and
/// the bytes that it announces, none behind them.
pub open spec fn compound_stop(bytes: Seq<u8>) -> nat {
    match count_parse(bytes) {
        Ok((n, lead)) => if n > left(bytes, lead).len() {
            lead
        } else {
            lead + n
        },
        Err(_) => count_stop(bytes),
    }
}

/// The entries with `value` under `name`: in the place of the entry of that
/// name where there is one, and behind the others where there is none.
pub open spec fn put(named: Seq<(Seq<char>, Tag)>, name: Seq<char>, value: Tag) -> Seq<
    (Seq<char>, Tag),
>
    decreases named.len(),
{
    if named.len() == 0 {
        seq![(name, value)]
    } else if named[0].0 == name {
        named.update(0, (name, value))
    } else {
        seq![named[0]] + put(named.drop_first(), name, value)
    }
}

impl DeepView for CompoundTag {
    type V = Seq<(Seq<char>, Tag)>;

    closed spec fn deep_view(&self) -> Seq<(Seq<char>, Tag)> {
        entries_of(self.entries@)
    }
}

proof fn lemma_put_at(named: Seq<(Seq<char>, Tag)>, name: Seq<char>, value: Tag, at: int)
    requires
        0 <= at <= named.len(),
        forall|j: int| 0 <= j < at ==> named[j].0 != name,
        at < named.len() ==> named[at].0 == name,
    ensures
        put(named, name, value) == if at < named.len() {
            named.update(at, (name, value))
        } else {
            named.push((name, value))
        },
    decreases named.len(),
{
    if named.len() > 0 && at > 0 {
        let others = named.drop_first();
        lemma_put_at(others, name, value, at - 1);
        if at < named.len() {
            assert(seq![named[0]] + others.update(at - 1, (name, value)) == named.update(
                at,
                (name, value),
            ));
        } else {
            assert(seq![named[0]] + others.push((name, value)) == named.push((name, value)));
        }
    } else if named.len() == 0 {
        assert(named.push((name, value)) == seq![(name, value)]);
    }
}

/// Putting a value under a name keeps the names distinct, and changes the
/// mapping at that name and nowhere else.
pub proof fn lemma_put_is_insert(named: Seq<(Seq<char>, Tag)>, name: Seq<char>, value: Tag)
    requires
        distinct_names(named),
    ensures
        distinct_names(put(named, name, value)),
        mapping(put(named, name, value)) == mapping(named).insert(name, value),
        put(named, name, value).len() == named.len() + if mapping(named).contains_key(name) {
            0int
        } else {
            1int
        },
    decreases named.len(),
{
    if exists|at: int| 0 <= at < named.len() && named[at].0 == name {
        let at = choose|at: int| 0 <= at < named.len() && named[at].0 == name;
        lemma_put_at(named, name, value, at);
        lemma_mapping_of_last(named, name, at);
        lemma_mapping_update(named, at, value);
    } else {
        lemma_put_at(named, name, value, named.len() as int);
        lemma_mapping_without(named, name);
        assert(named.push((name, value)).drop_last() == named);
    }
}

proof fn lemma_mapping_update(named: Seq<(Seq<char>, Tag)>, at: int, value: Tag)
    requires
        distinct_names(named),
        0 <= at < named.len(),
    ensures
        mapping(named.update(at, (named[at].0, value))) == mapping(named).insert(
            named[at].0,
            value,
        ),
    decreases named.len(),
{
    let name = named[at].0;
    let changed = named.update(at, (name, value));
    let before = named.drop_last();
    if at == named.len() - 1 {
        assert(changed.drop_last() == before);
        assert(mapping(before).insert(name, named[at].1).insert(name, value) == mapping(
            before,
        ).insert(name, value));
    } else {
        lemma_mapping_update(before, at, value);
        assert(changed.drop_last() == before.update(at, (name, value)));
        let last = named.last();
        assert(last.0 != name);
        assert(mapping(before).insert(name, value).insert(last.0, last.1) == mapping(
            before,
        ).insert(last.0, last.1).insert(name, value));
    }
}

proof fn lemma_mapping_of_last(named: Seq<(Seq<char>, Tag)>, name: Seq<char>, at: int)
    requires
        0 <= at < named.len(),
        named[at].0 == name,
        forall|j: int| at < j < named.len() ==> named[j].0 != name,
    ensures
        mapping(named).contains_key(name),
        mapping(named)[name] == named[at].1,
    decreases named.len(),
{
    if at < named.len() - 1 {
        lemma_mapping_of_last(named.drop_last(), name, at);
    }
}

proof fn lemma_mapping_without(named: Seq<(Seq<char>, Tag)>, name: Seq<char>)
    requires
        forall|j: int| 0 <= j < named.len() ==> named[j].0 != name,
    ensures
        !mapping(named).contains_key(name),
    decreases named.len(),
{
    if named.len() > 0 {
        lemma_mapping_without(named.drop_last(), name);
    }
}

impl CompoundTag {
    #[verifier::type_invariant]
    spec fn names_are_distinct(self) -> bool {
        distinct_names(entries_of(self.entries@))
    }

    /// A compound without entries.
    pub fn new() -> (tag: CompoundTag)
        ensures
            tag.deep_view() == Seq::<(Seq<char>, Tag)>::empty(),
    {
        let entries: Vec<(String, Value)> = Vec::new();
        assert(entries_of(entries@) == Seq::<(Seq<char>, Tag)>::empty());
        CompoundTag { entries }
    }

    /// The compound that holds the given entries, in their order, where no
    /// name occurs twice among them.
    pub fn from_entries(entries: Vec<(String, Value)>) -> (r: Option<CompoundTag>)
        ensures
            r is Some <==> distinct_names(entries_of(entries@)),
            r matches Some(tag) ==> tag.deep_view() == entries_of(entries@),
    {
        if names_distinct(&entries) {
            Some(CompoundTag { entries })
        } else {
            None
        }
    }

    /// The entries of the compound, in their order. No name occurs twice.
    pub fn entries(&self) -> (entries: &Vec<(String, Value)>)
        ensures
            entries_of(entries@) == self.deep_view(),
            distinct_names(self.deep_view()),
    {
        proof {
            use_type_invariant(self);
        }
        &self.entries
    }

    /// The entries of the compound, in their order. No name occurs twice.
    pub fn into_entries(self) -> (entries: Vec<(String, Value)>)
        ensures
            entries_of(entries@) == self.deep_view(),
            distinct_names(self.deep_view()),
    {
        proof {
            use_type_invariant(&self);
        }
        self.entries
    }

    /// How many names the compound holds.
    pub fn len(&self) -> (n: usize)
        ensures
            n == self.deep_view().len(),
            distinct_names(self.deep_view()),
    {
        proof {
            use_type_invariant(self);
        }
        self.entries.len()
    }

    /// Puts `value` under `name`: in the place of the value that was there,
    /// or, where the name is new, behind the other entries.
    pub fn insert(&mut self, name: String, value: Value)
        ensures
            final(self).deep_view() == put(old(self).deep_view(), name@, value.deep_view()),
            mapping(final(self).deep_view()) == mapping(old(self).deep_view()).insert(
                name@,
                value.deep_view(),
            ),
    {
        proof {
            use_type_invariant(&*self);
        }
        let ghost before = self.deep_view();
        let ghost entry = (name@, value.deep_view());
        let mut at: usize = 0;
        while at < self.entries.len() && !same_text(self.entries[at].0.as_str(), name.as_str())
            invariant
                at <= self.entries@.len(),
                before == entries_of(self.entries@),
                forall|j: int| 0 <= j < at ==> before[j].0 != name@,
            decreases self.entries@.len() - at,
        {
            at = at + 1;
        }
        proof {
            lemma_put_at(before, name@, value.deep_view(), at as int);
            lemma_put_is_insert(before, name@, value.deep_view());
        }
        let mut entries: Vec<(String, Value)> = Vec::new();
        assert(entries_of(entries@) == Seq::<(Seq<char>, Tag)>::empty());
        std::mem::swap(&mut self.entries, &mut entries);
        if at < entries.len() {
            entries[at] = (name, value);
            assert(entries_of(entries@) == before.update(at as int, entry));
        } else {
            entries.push((name, value));
            assert(entries_of(entries@) == before.push(entry));
        }
        std::mem::swap(&mut self.entries, &mut entries);
    }

    /// The value that the compound gives for `name`.
    pub fn get(&self, name: &str) -> (r: Option<&Value>)
        ensures
            match r {
                Some(value) => mapping(self.deep_view()).contains_key(name@) && mapping(
                    self.deep_view(),
                )[name@] == value.deep_view(),
                None => !mapping(self.deep_view()).contains_key(name@),
            },
    {
        let ghost named = self.deep_view();
        let mut i: usize = self.entries.len();
        while i > 0
            invariant
                i <= self.entries@.len(),
                named == entries_of(self.entries@),
                forall|j: int| i <= j < named.len() ==> named[j].0 != name@,
            decreases i,
        {
            i = i - 1;
            if same_text(self.entries[i].0.as_str(), name) {
                proof {
                    lemma_mapping_of_last(named, name@, i as int);
                }
                return Some(&self.entries[i].1);
            }
        }
        proof {
            lemma_mapping_without(named, name@);
        }
        None
    }
}

impl Encodable for CompoundTag {
    open spec fn fits(&self) -> Result<(), EncodingError> {
        compound_fits(self.deep_view())
    }

    open spec fn wire(&self) -> Seq<u8> {
        count_wire(blob(self.deep_view()).len()) + blob(self.deep_view())
    }

    fn encode(&self, writer: &mut Vec<u8>) -> (r: Result<(), EncodingError>) {
        let ghost named = self.deep_view();
        check_count(self.entries.len())?;
        if !names_distinct(&self.entries) {
            return Err(EncodingError::RepeatedName);
        }
        check_entries(&self.entries)?;
        let mut inner: Vec<u8> = Vec::new();
        inner.push(10);
        write_count(self.entries.len(), &mut inner);
        write_entries(&self.entries, &mut inner);
        assert(inner@ == blob(named)) by {
            assert(inner@ == seq![10u8] + (count_wire(named.len()) + entries_wire(named)));
        }
        check_count(inner.len())?;
        write_count(inner.len(), writer);
        append(writer, inner.as_slice());
        Ok(())
    }
}

impl Decodable for CompoundTag {
    open spec fn parse(bytes: Seq<u8>) -> Result<(Seq<(Seq<char>, Tag)>, nat), DecodingError> {
        compound_parse(bytes)
    }

    open spec fn stop(bytes: Seq<u8>) -> nat {
        compound_stop(bytes)
    }

    fn decode(reader: &mut ByteReader<'_>) -> (r: Result<Self, DecodingError>) {
        let ghost bytes = reader.remaining();
        let n = read_count(reader)?;
        let ghost lead = count_parse(bytes)->Ok_0.1;
        let ghost body = reader.remaining();
        assert(body == left(bytes, lead));
        if n > reader.remaining_len() {
            return Err(DecodingError::MalformedComposite);
        }
        let taken = match reader.take(n) {
            Ok(taken) => taken,
            Err(e) => {
                return Err(e);
            },
        };
        assert(reader.remaining() == bytes.skip((lead + n) as int));
        let mut inner = ByteReader::new(taken);
        assert(inner.remaining() == body.take(n as int));
        match read_value(&mut inner) {
            Ok(value) => {
                if inner.remaining_len() != 0 {
                    return Err(DecodingError::MalformedComposite);
                }
                match value {
                    Value::Compound(entries) => Ok(CompoundTag { entries }),
                    _ => Err(DecodingError::InvalidEncoding),
                }
            },
            Err(DecodingError::UnexpectedEof) => Err(DecodingError::MalformedComposite),
            Err(e) => Err(e),
        }
    }
}

/// A compound that can travel decodes from its wire form to itself, whatever
/// follows it.
pub proof fn lemma_compound_round_trip(named: Seq<(Seq<char>, Tag)>, rest: Seq<u8>)
    requires
        compound_fits(named) is Ok,
    ensures
        compound_parse(count_wire(blob(named).len()) + blob(named) + rest) == Ok::<
            (Seq<(Seq<char>, Tag)>, nat),
            DecodingError,
        >((named, count_wire(blob(named).len()).len() + blob(named).len())),
{
    let inner = blob(named);
    let lead = count_wire(inner.len());
    let bytes = lead + inner + rest;
    assert(bytes == lead + (inner + rest));
    lemma_count_round_trip(inner.len(), inner + rest);
    assert(left(bytes, lead.len()) == inner + rest);
    assert((inner + rest).take(inner.len() as int) == inner);
    lemma_tag_round_trip(Tag::Compound(named), Seq::empty());
    assert(inner + Seq::<u8>::empty() == inner);
}

} // verus!
