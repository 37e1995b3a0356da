//! A forward-only cursor over a byte slice.

use crate::decoding::DecodingError;
use vstd::prelude::*;
use vstd::slice::slice_subrange;

verus! {

/// A byte slice together with a read position inside it.
pub struct ByteReader<'a> {
    bytes: &'a [u8],
    at: usize,
}

impl<'a> ByteReader<'a> {
    #[verifier::type_invariant]
    spec fn in_bounds(self) -> bool {
        self.at <= self.bytes@.len()
    }

    /// All the bytes the reader was made over.
    pub closed spec fn data(self) -> Seq<u8> {
        self.bytes@
    }

    /// How many bytes have been read.
    pub closed spec fn position(self) -> nat {
        self.at as nat
    }

    /// The bytes not read yet.
    pub open spec fn remaining(self) -> Seq<u8> {
        self.data().skip(self.position() as int)
    }

    /// Whether the reader is `before` moved forward by `used` bytes.
    pub open spec fn moved_by(self, before: Self, used: nat) -> bool {
        &&& self.data() == before.data()
        &&& used <= before.remaining().len()
        &&& self.position() == before.position() + used
        &&& self.remaining() == before.remaining().skip(used as int)
    }

    /// A reader at the start of `bytes`.
    pub fn new(bytes: &'a [u8]) -> (reader: Self)
        ensures
            reader.data() == bytes@,
            reader.position() == 0,
    {
        ByteReader { bytes, at: 0 }
    }

    /// Number of bytes not read yet.
    pub fn remaining_len(&self) -> (n: usize)
        ensures
            n == self.remaining().len(),
            self.position() + n == self.data().len(),
    {
        proof {
            use_type_invariant(self);
        }
        self.bytes.len() - self.at
    }

    /// The bytes not read yet, without moving.
    pub fn rest(&self) -> (rest: &'a [u8])
        ensures
            rest@ == self.remaining(),
    {
        proof {
            use_type_invariant(self);
        }
        slice_subrange(self.bytes, self.at, self.bytes.len())
    }

    /// Moves the position forward by `n` bytes that are known to be there.
    pub(crate) fn advance(&mut self, n: usize)
        requires
            n <= old(self).remaining().len(),
        ensures
            final(self).data() == old(self).data(),
            final(self).position() == old(self).position() + n,
            final(self).remaining() == old(self).remaining().skip(n as int),
    {
        proof {
            use_type_invariant(&*self);
        }
        let end = self.bytes.len();
        assert(self.at + n <= end);
        self.at = self.at + n;
    }

    /// Reads the next `n` bytes.
    pub fn take(&mut self, n: usize) -> (r: Result<&'a [u8], DecodingError>)
        ensures
            final(self).data() == old(self).data(),
            match r {
                Ok(taken) => {
                    &&& n <= old(self).remaining().len()
                    &&& taken@ == old(self).remaining().take(n as int)
                    &&& final(self).position() == old(self).position() + n
                    &&& final(self).remaining() == old(self).remaining().skip(n as int)
                },
                Err(e) => {
                    &&& n > old(self).remaining().len()
                    &&& e == DecodingError::UnexpectedEof
                    &&& final(self).position() == old(self).position()
                },
            },
    {
        proof {
            use_type_invariant(&*self);
        }
        let end = self.bytes.len();
        if n <= end - self.at {
            let taken = slice_subrange(self.bytes, self.at, self.at + n);
            self.at = self.at + n;
            Ok(taken)
        } else {
            Err(DecodingError::UnexpectedEof)
        }
    }

    /// Reads the next byte.
    pub fn read_u8(&mut self) -> (r: Result<u8, DecodingError>)
        ensures
            final(self).data() == old(self).data(),
            match r {
                Ok(b) => {
                    &&& old(self).remaining().len() > 0
                    &&& b == old(self).remaining()[0]
                    &&& final(self).position() == old(self).position() + 1
                    &&& final(self).remaining() == old(self).remaining().skip(1)
                },
                Err(e) => {
                    &&& old(self).remaining().len() == 0
                    &&& e == DecodingError::UnexpectedEof
                    &&& final(self).position() == old(self).position()
                },
            },
    {
        proof {
            use_type_invariant(&*self);
        }
        if self.at < self.bytes.len() {
            let b = self.bytes[self.at];
            self.at = self.at + 1;
            Ok(b)
        } else {
            Err(DecodingError::UnexpectedEof)
        }
    }
}

} // verus!
