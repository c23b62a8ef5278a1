//! Read heads over an in-memory byte buffer.

use crate::err::Error;
use vstd::prelude::*;

pub mod read;

verus! {

/// A read head over a byte buffer that it never changes: the one place
/// that touches raw bytes one at a time.
pub struct BinaryStream<'s> {
    data: &'s [u8],
    p: usize,
}

impl<'s> BinaryStream<'s> {
    #[verifier::type_invariant]
    spec fn in_bounds(self) -> bool {
        self.p <= self.data@.len()
    }

    /// The whole buffer, read or not.
    pub closed spec fn data(&self) -> Seq<u8> {
        self.data@
    }

    /// How many bytes have been read.
    pub closed spec fn position(&self) -> nat {
        self.p as nat
    }

    /// A read head at the start of `data`.
    pub fn new(data: &'s [u8]) -> (stream: Self)
        ensures
            stream.data() == data@,
            stream.position() == 0,
    {
        Self { data, p: 0 }
    }

    /// The byte under the read head, which stays where it is.
    /// Fails with `Eof` when every byte has been read.
    pub fn try_peek(&self) -> (r: Result<u8, Error>)
        ensures
            self.position() <= self.data().len() <= usize::MAX,
            self.position() < self.data().len() ==> r == Ok::<u8, Error>(
                self.data()[self.position() as int],
            ),
            self.position() >= self.data().len() ==> r == Err::<u8, Error>(Error::Eof),
    {
        proof {
            use_type_invariant(self);
        }
        if self.p >= self.data.len() {
            return Err(Error::Eof);
        }
        Ok(self.data[self.p])
    }

    /// The byte under the read head, which moves one byte on.
    /// Fails with `Eof`, and stays, when every byte has been read.
    pub fn try_next(&mut self) -> (r: Result<u8, Error>)
        ensures
            final(self).data() == old(self).data(),
            final(self).position() <= final(self).data().len() <= usize::MAX,
            old(self).position() < old(self).data().len() ==> r == Ok::<u8, Error>(
                old(self).data()[old(self).position() as int],
            ) && final(self).position() == old(self).position() + 1,
            old(self).position() >= old(self).data().len() ==> r == Err::<u8, Error>(Error::Eof)
                && final(self).position() == old(self).position(),
    {
        proof {
            use_type_invariant(&*self);
        }
        if self.p >= self.data.len() {
            return Err(Error::Eof);
        }
        let v = self.data[self.p];
        self.p = self.p + 1;
        Ok(v)
    }

    /// The byte under the read head, which moves one byte on; `None`, and
    /// the read head stays, when every byte has been read.
    pub fn next(&mut self) -> (r: Option<u8>)
        ensures
            final(self).data() == old(self).data(),
            final(self).position() <= final(self).data().len() <= usize::MAX,
            old(self).position() < old(self).data().len() ==> r == Some(
                old(self).data()[old(self).position() as int],
            ) && final(self).position() == old(self).position() + 1,
            old(self).position() >= old(self).data().len() ==> r.is_none()
                && final(self).position() == old(self).position(),
    {
        match self.try_next() {
            Ok(v) => Some(v),
            Err(_) => None,
        }
    }
}

} // verus!
