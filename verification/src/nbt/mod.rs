//! Structured data: a tree of tagged values, its binary form, and a plain
//! text form for small trees.

pub mod binary;
pub mod compound;
pub mod round_trip;
pub mod text;

use crate::datatypes::floats::{Double, Float};
use vstd::prelude::*;

verus! {

/// A tagged value.
///
/// A compound holds its entries in the order in which they are written. It
/// is a mapping from names to values: a compound that holds a name twice is
/// neither written nor read. Two values are equal where they are the same
/// tree, entry for entry.
#[derive(Debug, PartialEq, Eq)]
pub enum Value {
    Byte(i8),
    Short(i16),
    Int(i32),
    Long(i64),
    Float(Float),
    Double(Double),
    ByteArray(Vec<i8>),
    String(String),
    List(Vec<Value>),
    Compound(Vec<(String, Value)>),
    IntArray(Vec<i32>),
    LongArray(Vec<i64>),
}

/// A tagged value as a mathematical tree.
pub enum Tag {
    Byte(i8),
    Short(i16),
    Int(i32),
    Long(i64),
    Float(Float),
    Double(Double),
    ByteArray(Seq<i8>),
    String(Seq<char>),
    List(Seq<Tag>),
    Compound(Seq<(Seq<char>, Tag)>),
    IntArray(Seq<i32>),
    LongArray(Seq<i64>),
}

/// The trees of the values of a list, in their order.
pub open spec fn tags_of(items: Seq<Value>) -> Seq<Tag>
    decreases items,
{
    Seq::new(
        items.len(),
        |i: int|
            if 0 <= i < items.len() {
                items[i].deep_view()
            } else {
                Tag::Byte(0)
            },
    )
}

/// The entries of a compound as names and trees, in their order.
pub open spec fn entries_of(entries: Seq<(String, Value)>) -> Seq<(Seq<char>, Tag)>
    decreases entries,
{
    Seq::new(
        entries.len(),
        |i: int|
            if 0 <= i < entries.len() {
                (entries[i].0@, entries[i].1.deep_view())
            } else {
                (Seq::empty(), Tag::Byte(0))
            },
    )
}

impl DeepView for Value {
    type V = Tag;

    open spec fn deep_view(&self) -> Tag
        decreases self,
    {
        match self {
            Value::Byte(v) => Tag::Byte(*v),
            Value::Short(v) => Tag::Short(*v),
            Value::Int(v) => Tag::Int(*v),
            Value::Long(v) => Tag::Long(*v),
            Value::Float(v) => Tag::Float(*v),
            Value::Double(v) => Tag::Double(*v),
            Value::ByteArray(items) => Tag::ByteArray(items@),
            Value::String(text) => Tag::String(text@),
            Value::List(items) => Tag::List(tags_of(items@)),
            Value::Compound(entries) => Tag::Compound(entries_of(entries@)),
            Value::IntArray(items) => Tag::IntArray(items@),
            Value::LongArray(items) => Tag::LongArray(items@),
        }
    }
}

} // verus!
