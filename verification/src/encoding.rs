//! Turning values into bytes.

use vstd::prelude::*;

verus! {

/// Why a value has no wire form.
#[derive(Clone, Copy, Debug, PartialEq, Eq)]
pub enum EncodingError {
    /// A string needs more than the 255 bytes that its one-byte length can announce.
    StringTooLong,
    /// A list, an array or a blob is longer than a 32-bit count can announce.
    LengthOverflow,
    /// A compound holds two entries of one name.
    RepeatedName,
}

/// A type with a wire form.
pub trait Encodable {
    /// Whether the value has a wire form, and if not, why.
    spec fn fits(&self) -> Result<(), EncodingError>;

    /// The wire form of the value, where it has one.
    spec fn wire(&self) -> Seq<u8>;

    /// Appends the wire form of the value to `writer`.
    ///
    /// A value without a wire form is refused, and `writer` is left as it was.
    fn encode(&self, writer: &mut Vec<u8>) -> (r: Result<(), EncodingError>)
        ensures
            r == self.fits(),
            r is Ok ==> final(writer)@ == old(writer)@ + self.wire(),
            r is Err ==> final(writer)@ == old(writer)@,
    ;
}

} // verus!
