//! A cursor over an immutable byte slice.
//!
//! All offsets are absolute, counted from the start of the slice. A read
//! past the end of the slice fails with a `Truncated` error and leaves the
//! cursor unchanged.
use vstd::prelude::*;

use crate::error::{ArchiveError, ErrorKind};

verus! {

pub struct Buffer<'a> {
    data: &'a [u8],
    position: usize,
}

impl<'a> Buffer<'a> {
    /// The bytes the cursor ranges over.
    pub closed spec fn bytes(&self) -> Seq<u8> {
        self.data@
    }

    /// The current absolute position.
    pub closed spec fn pos(&self) -> nat {
        self.position as nat
    }

    pub fn new(data: &'a [u8]) -> (b: Buffer<'a>)
        ensures
            b.bytes() == data@,
            b.pos() == 0,
    {
        Buffer { data, position: 0 }
    }

    pub fn len(&self) -> (n: usize)
        ensures
            n == self.bytes().len(),
    {
        self.data.len()
    }

    pub fn seek(&mut self, pos: usize)
        ensures
            final(self).bytes() == old(self).bytes(),
            final(self).pos() == pos,
    {
        self.position = pos;
    }

    pub fn skip(&mut self, length: usize) -> (r: Result<(), ArchiveError>)
        ensures
            final(self).bytes() == old(self).bytes(),
            match r {
                Ok(()) => final(self).pos() == old(self).pos() + length,
                Err(e) => {
                    &&& old(self).pos() + length > usize::MAX
                    &&& final(self).pos() == old(self).pos()
                    &&& e.kind == ErrorKind::Truncated
                },
            },
    {
        match self.position.checked_add(length) {
            Some(p) => {
                self.position = p;
                Ok(())
            },
            None => Err(ArchiveError::new(ErrorKind::Truncated)),
        }
    }

    pub fn read(&mut self) -> (r: Result<u8, ArchiveError>)
        ensures
            final(self).bytes() == old(self).bytes(),
            match r {
                Ok(b) => {
                    &&& old(self).pos() < old(self).bytes().len()
                    &&& b == old(self).bytes()[old(self).pos() as int]
                    &&& final(self).pos() == old(self).pos() + 1
                },
                Err(e) => {
                    &&& old(self).pos() >= old(self).bytes().len()
                    &&& final(self).pos() == old(self).pos()
                    &&& e.kind == ErrorKind::Truncated
                },
            },
    {
        if self.position < self.data.len() {
            let byte: u8 = self.data[self.position];
            self.position = self.position + 1;
            Ok(byte)
        } else {
            Err(ArchiveError::new(ErrorKind::Truncated))
        }
    }

    pub fn read_multi(&mut self, length: usize) -> (r: Result<Vec<u8>, ArchiveError>)
        ensures
            final(self).bytes() == old(self).bytes(),
            match r {
                Ok(v) => {
                    &&& old(self).pos() + length <= old(self).bytes().len()
                    &&& v@ == old(self).bytes().subrange(
                        old(self).pos() as int,
                        old(self).pos() + length,
                    )
                    &&& final(self).pos() == old(self).pos() + length
                },
                Err(e) => {
                    &&& old(self).pos() + length > old(self).bytes().len()
                    &&& final(self).pos() == old(self).pos()
                    &&& e.kind == ErrorKind::Truncated
                },
            },
    {
        if self.position > self.data.len() || length > self.data.len() - self.position {
            return Err(ArchiveError::new(ErrorKind::Truncated));
        }
        let mut result: Vec<u8> = Vec::new();
        let start: usize = self.position;
        let dlen: usize = self.data.len();
        for i in 0..length
            invariant
                start + length <= dlen,
                dlen == self.data@.len(),
                self.position == start,
                result@ == self.data@.subrange(start as int, start + i),
        {
            result.push(self.data[start + i]);
            proof {
                assert(result@ =~= self.data@.subrange(start as int, start + i + 1));
            }
        }
        self.position = start + length;
        Ok(result)
    }

    pub fn debug_get_pos(&self) -> (p: usize)
        ensures
            p == self.pos(),
    {
        self.position
    }
}

} // verus!
