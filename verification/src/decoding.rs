//! Reading values back from bytes.

use crate::reader::ByteReader;
use crate::types::{ClientState, PacketDirection};
use vstd::prelude::*;

verus! {

/// Why a decode failed.
#[derive(Clone, Copy, Debug, PartialEq, Eq)]
pub enum DecodingError {
    /// The bytes ended in the middle of a field.
    UnexpectedEof,
    /// The bytes cannot stand for a value of the target type.
    InvalidEncoding,
    /// A tag byte or enum number outside the known set.
    UnsupportedDiscriminant,
    /// No packet is registered under this id for this state and direction.
    UnknownPacketId { id: u8, state: ClientState, direction: PacketDirection },
    /// A composite whose declared length disagrees with the bytes at hand.
    MalformedComposite,
    /// A text form that the reader of text does not take.
    Unsupported,
}

/// How many bytes a parse took; none where it failed.
#[verifier::opaque]
pub open spec fn used<T>(parsed: Result<(T, nat), DecodingError>) -> nat {
    match parsed {
        Ok((_, n)) => n,
        Err(_) => 0,
    }
}

/// The bytes that follow what a parse of the head of `bytes` took.
#[verifier::opaque]
pub open spec fn after<T>(bytes: Seq<u8>, parsed: Result<(T, nat), DecodingError>) -> Seq<u8> {
    bytes.skip(used(parsed) as int)
}

/// One step of reading fields one after another: where `taken` bytes of
/// `bytes` were read and `before` was left, and a parse of `before` succeeded
/// and left `now`, the parse and the bytes read stand as the sequence rules say.
pub(crate) proof fn lemma_field_read<T>(
    bytes: Seq<u8>,
    taken: nat,
    before: Seq<u8>,
    parsed: Result<(T, nat), DecodingError>,
    now: Seq<u8>,
)
    requires
        taken <= bytes.len(),
        before =~= bytes.skip(taken as int),
        parsed is Ok,
        parsed->Ok_0.1 <= before.len(),
        now == before.skip(parsed->Ok_0.1 as int),
    ensures
        used(parsed) == parsed->Ok_0.1,
        now == after(before, parsed),
        now == bytes.skip((taken + used(parsed)) as int),
        taken + used(parsed) <= bytes.len(),
{
    reveal(used);
    reveal(after);
}

/// One step of a round trip: where `bytes` are what was written for a field,
/// followed by `rest`, and a parse of `bytes` took exactly what was written,
/// `rest` is what follows the parse.
pub(crate) proof fn lemma_field_written<T>(
    bytes: Seq<u8>,
    parsed: Result<(T, nat), DecodingError>,
    written: Seq<u8>,
    rest: Seq<u8>,
)
    requires
        bytes == written + rest,
        parsed is Ok,
        parsed->Ok_0.1 == written.len(),
    ensures
        used(parsed) == written.len(),
        after(bytes, parsed) == rest,
{
    reveal(used);
    reveal(after);
    assert(bytes.skip(written.len() as int) == rest);
}

/// A type with a wire form that can be read back.
pub trait Decodable: Sized + DeepView {
    /// What the bytes at the head of a stream stand for: the value and the
    /// number of bytes it takes up, or the reason why they stand for none.
    spec fn parse(bytes: Seq<u8>) -> Result<(Self::V, nat), DecodingError>;

    /// How many of the bytes a decode has read when it finds that they stand
    /// for no value. It means nothing where they stand for one.
    spec fn stop(bytes: Seq<u8>) -> nat;

    /// Reads one value from the reader's position.
    ///
    /// On success the reader has moved past exactly the bytes of that value.
    /// On failure it has moved past the bytes that were read to notice the
    /// failure, and no further.
    fn decode(reader: &mut ByteReader<'_>) -> (r: Result<Self, DecodingError>)
        ensures
            final(reader).data() == old(reader).data(),
            match Self::parse(old(reader).remaining()) {
                Ok((value, used)) => {
                    &&& r is Ok
                    &&& r->Ok_0.deep_view() == value
                    &&& final(reader).moved_by(*old(reader), used)
                },
                Err(e) => {
                    &&& r is Err
                    &&& r->Err_0 == e
                    &&& final(reader).position() == old(reader).position() + Self::stop(
                        old(reader).remaining(),
                    )
                },
            },
    ;
}

} // verus!
