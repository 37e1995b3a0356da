//! A plain text form for small trees.
//!
//! ```text
//! {
//! name: "Steve"
//! level: 12
//! slots: [1, 2, 3]
//! }
//! ```
//!
//! A compound is an opening brace on a line of its own, one entry on each
//! line that follows, and a closing brace on a line of its own. Lines of
//! blanks between them do not count. An entry is a
//! name, a colon and a value. A value is a text between double quotes, whole
//! numbers between square brackets, or a number. Compounds inside compounds
//! and lists of values of different kinds have no text form.
//!
//! The text is read as bytes. All that the rules look at are ASCII characters;
//! names and quoted texts may hold any UTF-8.

use crate::datatypes::floats::{Double, Float};
use crate::datatypes::strings::string_from_utf8;
use crate::decoding::DecodingError;
use crate::nbt::{Tag, Value};
use vstd::prelude::*;
use vstd::slice::{slice_subrange, slice_to_vec};
use vstd::utf8::{decode_utf8, encode_utf8, encode_utf8_decode_utf8, valid_utf8};

verus! {

/// What the value of an entry spells.
#[derive(Debug, PartialEq, Eq)]
pub enum Literal {
    /// A text, an array of whole numbers, or a whole number.
    Tag(Value),
    /// Something else: a number with a fraction or an exponent, if anything.
    /// The library does not read such numbers; it hands the text out, and
    /// [`Literal::resolve`] takes what a reader of real numbers made of it.
    Real(String),
}

/// What the value of an entry spells, as a mathematical value.
pub enum Spelled {
    Tag(Tag),
    Real(Seq<u8>),
}

impl DeepView for Literal {
    type V = Spelled;

    open spec fn deep_view(&self) -> Spelled {
        match self {
            Literal::Tag(value) => Spelled::Tag(value.deep_view()),
            Literal::Real(text) => Spelled::Real(encode_utf8(text@)),
        }
    }
}

/// The entries of a text as names and what their values spell, in order.
pub open spec fn spelled_of(entries: Seq<(String, Literal)>) -> Seq<(Seq<char>, Spelled)> {
    Seq::new(entries.len(), |i: int| (entries[i].0@, entries[i].1.deep_view()))
}

/// Whether the byte is a blank inside a line: a space, a tab or a carriage
/// return.
pub open spec fn is_blank(b: u8) -> bool {
    b == 0x20 || b == 0x09 || b == 0x0D
}

/// Whether the byte is a decimal digit.
pub open spec fn is_digit(b: u8) -> bool {
    0x30 <= b <= 0x39
}

/// The first place from `lo` on and before `hi` where `bytes` hold `mark`, or
/// `hi` where they hold it nowhere there.
pub open spec fn find(bytes: Seq<u8>, lo: int, hi: int, mark: u8) -> int
    decreases hi - lo,
{
    if lo >= hi {
        hi
    } else if bytes[lo] == mark {
        lo
    } else {
        find(bytes, lo + 1, hi, mark)
    }
}

/// The first place from `lo` on and before `hi` where `bytes` hold no blank,
/// or `hi` where they hold blanks only.
pub open spec fn skip_blanks(bytes: Seq<u8>, lo: int, hi: int) -> int
    decreases hi - lo,
{
    if lo >= hi {
        hi
    } else if is_blank(bytes[lo]) {
        skip_blanks(bytes, lo + 1, hi)
    } else {
        lo
    }
}

/// The place behind the last byte before `hi` and from `lo` on that is no
/// blank, or `lo` where there are blanks only.
pub open spec fn drop_blanks(bytes: Seq<u8>, lo: int, hi: int) -> int
    decreases hi - lo,
{
    if hi <= lo {
        lo
    } else if is_blank(bytes[hi - 1]) {
        drop_blanks(bytes, lo, hi - 1)
    } else {
        hi
    }
}

/// The number that the digits from `lo` to `hi` spell, where digits are all
/// there is. No digits spell zero.
pub open spec fn digits(bytes: Seq<u8>, lo: int, hi: int) -> Option<nat>
    decreases hi - lo,
{
    if hi <= lo {
        Some(0)
    } else {
        match digits(bytes, lo, hi - 1) {
            Some(high) => if is_digit(bytes[hi - 1]) {
                Some(10 * high + (bytes[hi - 1] - 0x30) as nat)
            } else {
                None
            },
            None => None,
        }
    }
}

/// The whole number that the bytes from `lo` to `hi` spell: a sign or none,
/// then at least one digit, and nothing else.
pub open spec fn whole_number(bytes: Seq<u8>, lo: int, hi: int) -> Option<int> {
    if lo < hi && bytes[lo] == 0x2D {
        if lo + 1 < hi && digits(bytes, lo + 1, hi) is Some {
            Some(-(digits(bytes, lo + 1, hi)->0 as int))
        } else {
            None
        }
    } else if lo < hi && bytes[lo] == 0x2B {
        if lo + 1 < hi && digits(bytes, lo + 1, hi) is Some {
            Some(digits(bytes, lo + 1, hi)->0 as int)
        } else {
            None
        }
    } else if lo < hi && digits(bytes, lo, hi) is Some {
        Some(digits(bytes, lo, hi)->0 as int)
    } else {
        None
    }
}

/// The whole number that the bytes spell, where it fits in 64 bits.
pub open spec fn long_number(bytes: Seq<u8>, lo: int, hi: int) -> Option<i64> {
    match whole_number(bytes, lo, hi) {
        Some(v) => if i64::MIN <= v <= i64::MAX {
            Some(v as i64)
        } else {
            None
        },
        None => None,
    }
}

/// The first place from `lo` on and before `hi` where `bytes` hold `mark`.
pub(crate) fn find_byte(bytes: &[u8], lo: usize, hi: usize, mark: u8) -> (at: usize)
    requires
        lo <= hi <= bytes@.len(),
    ensures
        at == find(bytes@, lo as int, hi as int, mark),
        lo <= at <= hi,
        at < hi ==> bytes@[at as int] == mark,
{
    let mut i = lo;
    while i < hi && bytes[i] != mark
        invariant
            lo <= i <= hi <= bytes@.len(),
            find(bytes@, lo as int, hi as int, mark) == find(bytes@, i as int, hi as int, mark),
        decreases hi - i,
    {
        i = i + 1;
    }
    i
}

/// Whether the byte is a blank inside a line.
pub(crate) fn blank(b: u8) -> (r: bool)
    ensures
        r == is_blank(b),
{
    b == 0x20 || b == 0x09 || b == 0x0D
}

/// The range from `lo` to `hi` without the blanks at its ends.
pub(crate) fn trim(bytes: &[u8], lo: usize, hi: usize) -> (r: (usize, usize))
    requires
        lo <= hi <= bytes@.len(),
    ensures
        r.0 == skip_blanks(bytes@, lo as int, hi as int),
        r.1 == drop_blanks(bytes@, r.0 as int, hi as int),
        lo <= r.0 <= r.1 <= hi,
{
    let mut first = lo;
    while first < hi && blank(bytes[first])
        invariant
            lo <= first <= hi <= bytes@.len(),
            skip_blanks(bytes@, lo as int, hi as int) == skip_blanks(
                bytes@,
                first as int,
                hi as int,
            ),
        decreases hi - first,
    {
        first = first + 1;
    }
    let mut last = hi;
    while last > first && blank(bytes[last - 1])
        invariant
            first <= last <= hi <= bytes@.len(),
            drop_blanks(bytes@, first as int, hi as int) == drop_blanks(
                bytes@,
                first as int,
                last as int,
            ),
        decreases last - first,
    {
        last = last - 1;
    }
    (first, last)
}

proof fn lemma_digits_grow(bytes: Seq<u8>, lo: int, mid: int, hi: int)
    requires
        lo <= mid <= hi,
    ensures
        digits(bytes, lo, mid) is None ==> digits(bytes, lo, hi) is None,
        digits(bytes, lo, hi) is Some ==> digits(bytes, lo, mid) is Some && digits(bytes, lo, mid)->0
            <= digits(bytes, lo, hi)->0,
    decreases hi - mid,
{
    if mid < hi {
        lemma_digits_grow(bytes, lo, mid, hi - 1);
    }
}

/// The number that the digits from `lo` to `hi` spell, where it is at most
/// two to the power 63.
fn read_digits(bytes: &[u8], lo: usize, hi: usize) -> (r: Option<u64>)
    requires
        lo <= hi <= bytes@.len(),
    ensures
        r == match digits(bytes@, lo as int, hi as int) {
            Some(v) => if v <= 0x8000_0000_0000_0000 {
                Some(v as u64)
            } else {
                None
            },
            None => None,
        },
{
    let mut acc: u64 = 0;
    let mut i = lo;
    while i < hi
        invariant
            lo <= i <= hi <= bytes@.len(),
            digits(bytes@, lo as int, i as int) == Some(acc as nat),
            acc <= 0x8000_0000_0000_0000,
        decreases hi - i,
    {
        let b = bytes[i];
        proof {
            lemma_digits_grow(bytes@, lo as int, i + 1, hi as int);
        }
        if b < 0x30 || b > 0x39 {
            return None;
        }
        let digit = (b - 0x30) as u64;
        if acc > 922_337_203_685_477_580 || 10 * acc + digit > 0x8000_0000_0000_0000 {
            return None;
        }
        acc = 10 * acc + digit;
        i = i + 1;
    }
    Some(acc)
}

/// The whole number that the bytes from `lo` to `hi` spell, where it fits in
/// 64 bits.
pub(crate) fn read_long(bytes: &[u8], lo: usize, hi: usize) -> (r: Option<i64>)
    requires
        lo <= hi <= bytes@.len(),
    ensures
        r == long_number(bytes@, lo as int, hi as int),
{
    if lo == hi {
        return None;
    }
    let sign = bytes[lo];
    if sign == 0x2D {
        if lo + 1 == hi {
            return None;
        }
        match read_digits(bytes, lo + 1, hi) {
            Some(size) => {
                if size == 0x8000_0000_0000_0000 {
                    Some(i64::MIN)
                } else {
                    Some(-(size as i64))
                }
            },
            None => None,
        }
    } else if sign == 0x2B {
        if lo + 1 == hi {
            return None;
        }
        match read_digits(bytes, lo + 1, hi) {
            Some(size) => {
                if size == 0x8000_0000_0000_0000 {
                    None
                } else {
                    Some(size as i64)
                }
            },
            None => None,
        }
    } else {
        match read_digits(bytes, lo, hi) {
            Some(size) => {
                if size == 0x8000_0000_0000_0000 {
                    None
                } else {
                    Some(size as i64)
                }
            },
            None => None,
        }
    }
}

/// The value that a whole number stands for: of the widths of 8, 16, 32 and
/// 64 bits, the narrowest that holds it.
pub open spec fn number_tag(v: i64) -> Tag {
    if i8::MIN <= v <= i8::MAX {
        Tag::Byte(v as i8)
    } else if i16::MIN <= v <= i16::MAX {
        Tag::Short(v as i16)
    } else if i32::MIN <= v <= i32::MAX {
        Tag::Int(v as i32)
    } else {
        Tag::Long(v)
    }
}

/// The array that whole numbers stand for: of the widths of 8, 32 and 64
/// bits, the narrowest that holds them all.
pub open spec fn array_tag(items: Seq<i64>) -> Tag {
    if forall|i: int| 0 <= i < items.len() ==> i8::MIN <= #[trigger] items[i] <= i8::MAX {
        Tag::ByteArray(Seq::new(items.len(), |i: int| items[i] as i8))
    } else if forall|i: int| 0 <= i < items.len() ==> i32::MIN <= #[trigger] items[i] <= i32::MAX {
        Tag::IntArray(Seq::new(items.len(), |i: int| items[i] as i32))
    } else {
        Tag::LongArray(items)
    }
}

/// A search stays within the range that it looks through.
pub proof fn lemma_find_bounds(bytes: Seq<u8>, lo: int, hi: int, mark: u8)
    requires
        lo <= hi,
    ensures
        lo <= find(bytes, lo, hi, mark) <= hi,
    decreases hi - lo,
{
    if lo < hi && bytes[lo] != mark {
        lemma_find_bounds(bytes, lo + 1, hi, mark);
    }
}

/// The whole numbers between `lo` and `hi`, where commas part them and each
/// of them, blanks aside, is a whole number of at most 64 bits.
pub open spec fn elements(bytes: Seq<u8>, lo: int, hi: int) -> Option<Seq<i64>>
    decreases hi - lo,
{
    let comma = find(bytes, lo, hi, 0x2C);
    let first = skip_blanks(bytes, lo, comma);
    let number = long_number(bytes, first, drop_blanks(bytes, first, comma));
    if lo > hi || number is None {
        None
    } else if comma >= hi {
        Some(seq![number->0])
    } else {
        proof {
            lemma_find_bounds(bytes, lo, hi, 0x2C);
        }
        match elements(bytes, comma + 1, hi) {
            Some(others) => Some(seq![number->0] + others),
            None => None,
        }
    }
}

/// What the bytes from `lo` to `hi`, the value of an entry without the
/// blanks around it, spell.
pub open spec fn literal(bytes: Seq<u8>, lo: int, hi: int) -> Result<Spelled, DecodingError> {
    if hi - lo >= 2 && bytes[lo] == 0x22 && bytes[hi - 1] == 0x22 {
        if valid_utf8(bytes.subrange(lo + 1, hi - 1)) {
            Ok(Spelled::Tag(Tag::String(decode_utf8(bytes.subrange(lo + 1, hi - 1)))))
        } else {
            Err(DecodingError::InvalidEncoding)
        }
    } else if hi - lo >= 2 && bytes[lo] == 0x5B && bytes[hi - 1] == 0x5D {
        match elements(bytes, lo + 1, hi - 1) {
            Some(items) => Ok(Spelled::Tag(array_tag(items))),
            None => Err(DecodingError::Unsupported),
        }
    } else if lo < hi && bytes[lo] == 0x7B {
        Err(DecodingError::Unsupported)
    } else {
        match long_number(bytes, lo, hi) {
            Some(v) => Ok(Spelled::Tag(number_tag(v))),
            None => if valid_utf8(bytes.subrange(lo, hi)) {
                Ok(Spelled::Real(bytes.subrange(lo, hi)))
            } else {
                Err(DecodingError::InvalidEncoding)
            },
        }
    }
}

/// What the bytes from `lo` to `hi`, a line, spell as an entry: the name
/// before the first colon, the value behind it, each without the blanks
/// around it.
pub open spec fn entry(bytes: Seq<u8>, lo: int, hi: int) -> Result<
    (Seq<char>, Spelled),
    DecodingError,
> {
    let colon = find(bytes, lo, hi, 0x3A);
    let start = skip_blanks(bytes, lo, colon);
    let name = bytes.subrange(start, drop_blanks(bytes, start, colon));
    let first = skip_blanks(bytes, colon + 1, hi);
    if colon >= hi || !valid_utf8(name) {
        Err(DecodingError::InvalidEncoding)
    } else {
        match literal(bytes, first, drop_blanks(bytes, first, hi)) {
            Ok(value) => Ok((decode_utf8(name), value)),
            Err(e) => Err(e),
        }
    }
}

/// Whether the bytes from `lo` on are blanks and line ends only.
pub open spec fn only_blanks(bytes: Seq<u8>, lo: int) -> bool {
    forall|i: int| lo <= i < bytes.len() ==> is_blank(#[trigger] bytes[i]) || bytes[i] == 0x0A
}

/// What the lines that start at `from` spell as the entries of a compound, up
/// to the line that closes it. Lines of blanks are passed over. Nothing but
/// blanks may follow the closing line, and the text may not end before it.
pub open spec fn entries_from(bytes: Seq<u8>, from: int) -> Result<
    Seq<(Seq<char>, Spelled)>,
    DecodingError,
>
    decreases bytes.len() + 1 - from,
{
    let end = find(bytes, from, bytes.len() as int, 0x0A);
    let lo = skip_blanks(bytes, from, end);
    let hi = drop_blanks(bytes, lo, end);
    if from > bytes.len() {
        Err(DecodingError::UnexpectedEof)
    } else if hi - lo == 1 && bytes[lo] == 0x7D {
        if only_blanks(bytes, end) {
            Ok(Seq::empty())
        } else {
            Err(DecodingError::Unsupported)
        }
    } else {
        proof {
            lemma_find_bounds(bytes, from, bytes.len() as int, 0x0A);
        }
        if lo == hi {
            entries_from(bytes, end + 1)
        } else {
            match entry(bytes, lo, hi) {
                Ok(first) => match entries_from(bytes, end + 1) {
                    Ok(others) => Ok(seq![first] + others),
                    Err(e) => Err(e),
                },
                Err(e) => Err(e),
            }
        }
    }
}

/// What a text spells as a compound: an opening brace on the first line, then
/// the entries and the closing brace.
pub open spec fn compound_text(bytes: Seq<u8>) -> Result<
    Seq<(Seq<char>, Spelled)>,
    DecodingError,
> {
    let end = find(bytes, 0, bytes.len() as int, 0x0A);
    let lo = skip_blanks(bytes, 0, end);
    let hi = drop_blanks(bytes, lo, end);
    if hi - lo == 1 && bytes[lo] == 0x7B {
        entries_from(bytes, end + 1)
    } else {
        Err(DecodingError::InvalidEncoding)
    }
}

/// What was read so far, followed by what is still to read.
spec fn extended<T>(done: Seq<T>, tail: Option<Seq<T>>) -> Option<Seq<T>> {
    match tail {
        Some(others) => Some(done + others),
        None => None,
    }
}

/// What was read so far, followed by what the lines still to read spell.
spec fn continued<T>(done: Seq<T>, tail: Result<Seq<T>, DecodingError>) -> Result<
    Seq<T>,
    DecodingError,
> {
    match tail {
        Ok(others) => Ok(done + others),
        Err(e) => Err(e),
    }
}

fn read_elements(bytes: &[u8], lo: usize, hi: usize) -> (r: Option<Vec<i64>>)
    requires
        lo <= hi <= bytes@.len(),
    ensures
        match elements(bytes@, lo as int, hi as int) {
            Some(items) => r is Some && r->0@ == items,
            None => r is None,
        },
{
    let mut list: Vec<i64> = Vec::new();
    let mut at = lo;
    proof {
        let whole = elements(bytes@, lo as int, hi as int);
        if whole is Some {
            assert(Seq::<i64>::empty() + whole->0 == whole->0);
        }
    }
    loop
        invariant
            lo <= at <= hi <= bytes@.len(),
            elements(bytes@, lo as int, hi as int) == extended(
                list@,
                elements(bytes@, at as int, hi as int),
            ),
        decreases hi - at,
    {
        let comma = find_byte(bytes, at, hi, 0x2C);
        let (first, last) = trim(bytes, at, comma);
        let ghost done = list@;
        match read_long(bytes, first, last) {
            Some(number) => {
                list.push(number);
                proof {
                    if comma < hi {
                        let tail = elements(bytes@, comma + 1, hi as int);
                        if tail is Some {
                            assert(done + (seq![number] + tail->0) == done.push(number) + tail->0);
                        }
                    } else {
                        assert(done + seq![number] == done.push(number));
                    }
                }
            },
            None => {
                return None;
            },
        }
        if comma >= hi {
            return Some(list);
        }
        at = comma + 1;
    }
}

fn make_number(v: i64) -> (value: Value)
    ensures
        value.deep_view() == number_tag(v),
{
    if -128 <= v && v <= 127 {
        Value::Byte(v as i8)
    } else if -32768 <= v && v <= 32767 {
        Value::Short(v as i16)
    } else if -2147483648 <= v && v <= 2147483647 {
        Value::Int(v as i32)
    } else {
        Value::Long(v)
    }
}

fn narrow_bytes(items: &Vec<i64>) -> (r: Option<Vec<i8>>)
    ensures
        r is Some <==> forall|i: int|
            0 <= i < items@.len() ==> i8::MIN <= #[trigger] items@[i] <= i8::MAX,
        r matches Some(narrow) ==> narrow@ == Seq::new(items@.len(), |i: int| items@[i] as i8),
{
    let mut narrow: Vec<i8> = Vec::new();
    let mut i: usize = 0;
    while i < items.len()
        invariant
            i <= items@.len(),
            narrow@.len() == i,
            forall|j: int| 0 <= j < i ==> i8::MIN <= #[trigger] items@[j] <= i8::MAX,
            forall|j: int| 0 <= j < i ==> narrow@[j] == items@[j] as i8,
        decreases items@.len() - i,
    {
        let v = items[i];
        if v < -128 || v > 127 {
            return None;
        }
        narrow.push(v as i8);
        i = i + 1;
    }
    assert(narrow@ == Seq::new(items@.len(), |i: int| items@[i] as i8));
    Some(narrow)
}

fn narrow_ints(items: &Vec<i64>) -> (r: Option<Vec<i32>>)
    ensures
        r is Some <==> forall|i: int|
            0 <= i < items@.len() ==> i32::MIN <= #[trigger] items@[i] <= i32::MAX,
        r matches Some(narrow) ==> narrow@ == Seq::new(items@.len(), |i: int| items@[i] as i32),
{
    let mut narrow: Vec<i32> = Vec::new();
    let mut i: usize = 0;
    while i < items.len()
        invariant
            i <= items@.len(),
            narrow@.len() == i,
            forall|j: int| 0 <= j < i ==> i32::MIN <= #[trigger] items@[j] <= i32::MAX,
            forall|j: int| 0 <= j < i ==> narrow@[j] == items@[j] as i32,
        decreases items@.len() - i,
    {
        let v = items[i];
        if v < -2147483648 || v > 2147483647 {
            return None;
        }
        narrow.push(v as i32);
        i = i + 1;
    }
    assert(narrow@ == Seq::new(items@.len(), |i: int| items@[i] as i32));
    Some(narrow)
}

fn make_array(items: Vec<i64>) -> (value: Value)
    ensures
        value.deep_view() == array_tag(items@),
{
    match narrow_bytes(&items) {
        Some(narrow) => Value::ByteArray(narrow),
        None => match narrow_ints(&items) {
            Some(narrow) => Value::IntArray(narrow),
            None => Value::LongArray(items),
        },
    }
}

/// The text that the bytes from `lo` to `hi` are the UTF-8 form of.
fn text_of(bytes: &[u8], lo: usize, hi: usize) -> (r: Option<String>)
    requires
        lo <= hi <= bytes@.len(),
    ensures
        r is Some <==> valid_utf8(bytes@.subrange(lo as int, hi as int)),
        r matches Some(text) ==> {
            &&& encode_utf8(text@) == bytes@.subrange(lo as int, hi as int)
            &&& text@ == decode_utf8(bytes@.subrange(lo as int, hi as int))
        },
{
    let r = string_from_utf8(slice_to_vec(slice_subrange(bytes, lo, hi)));
    proof {
        if r is Some {
            encode_utf8_decode_utf8(r->0@);
        }
    }
    r
}

/// What the bytes from `lo` to `hi`, the value of an entry without the
/// blanks around it, spell.
pub(crate) fn read_literal(bytes: &[u8], lo: usize, hi: usize) -> (r: Result<Literal, DecodingError>)
    requires
        lo <= hi <= bytes@.len(),
    ensures
        match literal(bytes@, lo as int, hi as int) {
            Ok(spelled) => r is Ok && r->Ok_0.deep_view() == spelled,
            Err(e) => r is Err && r->Err_0 == e,
        },
{
    if hi - lo >= 2 && bytes[lo] == 0x22 && bytes[hi - 1] == 0x22 {
        match text_of(bytes, lo + 1, hi - 1) {
            Some(text) => Ok(Literal::Tag(Value::String(text))),
            None => Err(DecodingError::InvalidEncoding),
        }
    } else if hi - lo >= 2 && bytes[lo] == 0x5B && bytes[hi - 1] == 0x5D {
        match read_elements(bytes, lo + 1, hi - 1) {
            Some(items) => Ok(Literal::Tag(make_array(items))),
            None => Err(DecodingError::Unsupported),
        }
    } else if lo < hi && bytes[lo] == 0x7B {
        Err(DecodingError::Unsupported)
    } else {
        match read_long(bytes, lo, hi) {
            Some(v) => Ok(Literal::Tag(make_number(v))),
            None => match text_of(bytes, lo, hi) {
                Some(text) => Ok(Literal::Real(text)),
                None => Err(DecodingError::InvalidEncoding),
            },
        }
    }
}

/// What the bytes from `lo` to `hi`, a line, spell as an entry.
pub(crate) fn read_entry(bytes: &[u8], lo: usize, hi: usize) -> (r: Result<
    (String, Literal),
    DecodingError,
>)
    requires
        lo <= hi <= bytes@.len(),
    ensures
        match entry(bytes@, lo as int, hi as int) {
            Ok((name, spelled)) => r is Ok && r->Ok_0.0@ == name && r->Ok_0.1.deep_view()
                == spelled,
            Err(e) => r is Err && r->Err_0 == e,
        },
{
    let colon = find_byte(bytes, lo, hi, 0x3A);
    if colon >= hi {
        return Err(DecodingError::InvalidEncoding);
    }
    let (name_start, name_end) = trim(bytes, lo, colon);
    let (first, last) = trim(bytes, colon + 1, hi);
    let name = match text_of(bytes, name_start, name_end) {
        Some(name) => name,
        None => {
            return Err(DecodingError::InvalidEncoding);
        },
    };
    let value = read_literal(bytes, first, last)?;
    Ok((name, value))
}

/// What `text`, without the blanks around it, spells as the value of an
/// entry.
pub fn parse_literal(text: &[u8]) -> (r: Result<Literal, DecodingError>)
    ensures
        match literal(
            text@,
            skip_blanks(text@, 0, text@.len() as int),
            drop_blanks(text@, skip_blanks(text@, 0, text@.len() as int), text@.len() as int),
        ) {
            Ok(spelled) => r is Ok && r->Ok_0.deep_view() == spelled,
            Err(e) => r is Err && r->Err_0 == e,
        },
{
    let (lo, hi) = trim(text, 0, text.len());
    read_literal(text, lo, hi)
}

/// What `line` spells as an entry: the name before the first colon and the
/// value behind it, each without the blanks around it.
pub fn parse_entry(line: &[u8]) -> (r: Result<(String, Literal), DecodingError>)
    ensures
        match entry(line@, 0, line@.len() as int) {
            Ok((name, spelled)) => r is Ok && r->Ok_0.0@ == name && r->Ok_0.1.deep_view()
                == spelled,
            Err(e) => r is Err && r->Err_0 == e,
        },
{
    read_entry(line, 0, line.len())
}

fn blanks_only(bytes: &[u8], lo: usize) -> (r: bool)
    requires
        lo <= bytes@.len(),
    ensures
        r == only_blanks(bytes@, lo as int),
{
    let mut i = lo;
    while i < bytes.len()
        invariant
            lo <= i <= bytes@.len(),
            forall|j: int| lo <= j < i ==> is_blank(#[trigger] bytes@[j]) || bytes@[j] == 0x0A,
        decreases bytes@.len() - i,
    {
        if !blank(bytes[i]) && bytes[i] != 0x0A {
            return false;
        }
        i = i + 1;
    }
    true
}

/// Reads a compound from its text form.
///
/// Values that are neither texts nor arrays nor whole numbers come back as
/// [`Literal::Real`], with their text, for a reader of real numbers to look at.
pub fn parse_compound(text: &[u8]) -> (r: Result<Vec<(String, Literal)>, DecodingError>)
    ensures
        match compound_text(text@) {
            Ok(entries) => r is Ok && spelled_of(r->Ok_0@) == entries,
            Err(e) => r is Err && r->Err_0 == e,
        },
{
    let len = text.len();
    let end = find_byte(text, 0, len, 0x0A);
    let (lo, hi) = trim(text, 0, end);
    if !(hi - lo == 1 && text[lo] == 0x7B) {
        return Err(DecodingError::InvalidEncoding);
    }
    let mut list: Vec<(String, Literal)> = Vec::new();
    let mut end = end;
    proof {
        let whole = entries_from(text@, end + 1);
        if whole is Ok {
            assert(spelled_of(list@) + whole->Ok_0 == whole->Ok_0);
        }
    }
    let ghost first = end + 1;
    loop
        invariant
            end <= len == text@.len(),
            first <= end + 1,
            entries_from(text@, first) == continued(spelled_of(list@), entries_from(text@, end + 1)),
            compound_text(text@) == entries_from(text@, first),
        decreases len - end,
    {
        if end >= len {
            return Err(DecodingError::UnexpectedEof);
        }
        let from = end + 1;
        let stop = find_byte(text, from, len, 0x0A);
        let (lo, hi) = trim(text, from, stop);
        if hi - lo == 1 && text[lo] == 0x7D {
            if blanks_only(text, stop) {
                proof {
                    assert(spelled_of(list@) + Seq::<(Seq<char>, Spelled)>::empty() == spelled_of(
                        list@,
                    ));
                }
                return Ok(list);
            } else {
                return Err(DecodingError::Unsupported);
            }
        }
        if lo == hi {
            end = stop;
            continue;
        }
        let ghost done = spelled_of(list@);
        let next = read_entry(text, lo, hi)?;
        let ghost spelled = (next.0@, next.1.deep_view());
        list.push(next);
        proof {
            assert(spelled_of(list@) == done.push(spelled));
            let tail = entries_from(text@, stop + 1);
            if tail is Ok {
                assert(done + (seq![spelled] + tail->Ok_0) == done.push(spelled) + tail->Ok_0);
            }
        }
        end = stop;
    }
}

impl Literal {
    /// The value that the literal stands for.
    ///
    /// For a [`Literal::Real`], `single` and `double` are what a reader of
    /// real numbers made of its text, as a single-precision and as a
    /// double-precision number: the first of the two that there is becomes
    /// the value, and a text that is neither is refused. For any other
    /// literal the two are not looked at.
    pub fn resolve(self, single: Option<Float>, double: Option<Double>) -> (r: Result<
        Value,
        DecodingError,
    >)
        ensures
            match self {
                Literal::Tag(value) => r == Ok::<Value, DecodingError>(value),
                Literal::Real(_) => r == match (single, double) {
                    (Some(x), _) => Ok::<Value, DecodingError>(Value::Float(x)),
                    (None, Some(x)) => Ok(Value::Double(x)),
                    (None, None) => Err(DecodingError::Unsupported),
                },
            },
    {
        match self {
            Literal::Tag(value) => Ok(value),
            Literal::Real(_) => match single {
                Some(x) => Ok(Value::Float(x)),
                None => match double {
                    Some(x) => Ok(Value::Double(x)),
                    None => Err(DecodingError::Unsupported),
                },
            },
        }
    }
}

} // verus!
