//! A read head that can also hand out a run of bytes at once.

use crate::err::Error;
use vstd::prelude::*;
use vstd::slice::slice_subrange;

verus! {

/// A read head over a byte buffer that it never changes. Besides single
/// bytes it hands out whole runs of the buffer, borrowed, not copied.
pub struct ReadBinaryStream<'s> {
    data: &'s [u8],
    p: usize,
}

impl<'s> ReadBinaryStream<'s> {
    #[verifier::type_invariant]
    spec fn in_bounds(self) -> bool {
        self.p <= self.data@.len()
    }

    /// The whole buffer, read or not.
    pub closed spec fn data(&self) -> Seq<u8> {
        self.data@
    }

    /// How many bytes have been read.
    pub closed spec fn position(&self) -> nat {
        self.p as nat
    }

    /// A read head at the start of `data`.
    pub fn new(data: &'s [u8]) -> (stream: Self)
        ensures
            stream.data() == data@,
            stream.position() == 0,
    {
        Self { data, p: 0 }
    }

    /// The byte under the read head, which stays where it is.
    /// Fails with `Eof` when every byte has been read.
    pub fn try_peek(&self) -> (r: Result<u8, Error>)
        ensures
            self.position() <= self.data().len() <= usize::MAX,
            self.position() < self.data().len() ==> r == Ok::<u8, Error>(
                self.data()[self.position() as int],
            ),
            self.position() >= self.data().len() ==> r == Err::<u8, Error>(Error::Eof),
    {
        proof {
            use_type_invariant(self);
        }
        if self.p >= self.data.len() {
            return Err(Error::Eof);
        }
        Ok(self.data[self.p])
    }

    /// The byte under the read head, which moves one byte on.
    /// Fails with `Eof`, and stays, when every byte has been read.
    pub fn try_next(&mut self) -> (r: Result<u8, Error>)
        ensures
            final(self).data() == old(self).data(),
            final(self).position() <= final(self).data().len() <= usize::MAX,
            old(self).position() < old(self).data().len() ==> r == Ok::<u8, Error>(
                old(self).data()[old(self).position() as int],
            ) && final(self).position() == old(self).position() + 1,
            old(self).position() >= old(self).data().len() ==> r == Err::<u8, Error>(Error::Eof)
                && final(self).position() == old(self).position(),
    {
        proof {
            use_type_invariant(&*self);
        }
        if self.p >= self.data.len() {
            return Err(Error::Eof);
        }
        let v = self.data[self.p];
        self.p = self.p + 1;
        Ok(v)
    }

    /// The next `n` bytes, as a slice of the buffer itself; the read head
    /// moves past them. Fails with `Eof`, and stays, when fewer than `n`
    /// bytes are left.
    pub fn try_take(&mut self, n: usize) -> (r: Result<&'s [u8], Error>)
        ensures
            final(self).data() == old(self).data(),
            final(self).position() <= final(self).data().len() <= usize::MAX,
            match r {
                Ok(run) => old(self).position() + n <= old(self).data().len()
                    && run@ == old(self).data().subrange(
                    old(self).position() as int,
                    old(self).position() + n,
                ) && final(self).position() == old(self).position() + n,
                Err(e) => old(self).position() + n > old(self).data().len() && e == Error::Eof
                    && final(self).position() == old(self).position(),
            },
    {
        proof {
            use_type_invariant(&*self);
        }
        if n > self.data.len() - self.p {
            return Err(Error::Eof);
        }
        let new_p = self.p + n;
        let run = slice_subrange(self.data, self.p, new_p);
        self.p = new_p;
        Ok(run)
    }

    /// The byte under the read head, which moves one byte on; `None`, and
    /// the read head stays, when every byte has been read.
    pub fn next(&mut self) -> (r: Option<u8>)
        ensures
            final(self).data() == old(self).data(),
            final(self).position() <= final(self).data().len() <= usize::MAX,
            old(self).position() < old(self).data().len() ==> r == Some(
                old(self).data()[old(self).position() as int],
            ) && final(self).position() == old(self).position() + 1,
            old(self).position() >= old(self).data().len() ==> r.is_none()
                && final(self).position() == old(self).position(),
    {
        match self.try_next() {
            Ok(v) => Some(v),
            Err(_) => None,
        }
    }
}

} // verus!
