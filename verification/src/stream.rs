//! An in-memory byte stream with a read position.

use crate::error::{BufrError, ErrorKind};
use vstd::prelude::*;

verus! {

/// The bytes of an input and the position of the next byte to read.
pub struct ByteStream {
    data: Vec<u8>,
    position: usize,
}

impl ByteStream {
    #[verifier::type_invariant]
    spec fn inv(&self) -> bool {
        self.position <= self.data.len()
    }

    /// All the bytes of the input.
    pub closed spec fn bytes(&self) -> Seq<u8> {
        self.data@
    }

    /// The index of the next byte to read.
    pub closed spec fn pos(&self) -> int {
        self.position as int
    }

    /// A stream over `data`, positioned at its first byte.
    pub fn new(data: Vec<u8>) -> (s: ByteStream)
        ensures
            s.bytes() == data@,
            s.pos() == 0,
    {
        ByteStream { data, position: 0 }
    }

    pub fn position(&self) -> (p: usize)
        ensures
            p == self.pos(),
            0 <= self.pos() <= self.bytes().len() <= usize::MAX,
    {
        proof {
            use_type_invariant(self);
        }
        self.position
    }

    /// The number of bytes in the input.
    pub fn len(&self) -> (n: usize)
        ensures
            n == self.bytes().len(),
    {
        self.data.len()
    }

    /// The number of bytes from the position to the end of the input.
    pub fn remaining(&self) -> (n: usize)
        ensures
            n == self.bytes().len() - self.pos(),
            0 <= self.pos() <= self.bytes().len() <= usize::MAX,
    {
        proof {
            use_type_invariant(self);
        }
        self.data.len() - self.position
    }

    /// The byte at index `i` of the input.
    pub fn byte_at(&self, i: usize) -> (b: u8)
        requires
            i < self.bytes().len(),
        ensures
            b == self.bytes()[i as int],
    {
        self.data[i]
    }

    /// Moves the position to `to`, or to the end of the input if `to` lies
    /// beyond it.
    pub fn seek(&mut self, to: usize)
        ensures
            final(self).bytes() == old(self).bytes(),
            final(self).pos() == if to <= old(self).bytes().len() {
                to as int
            } else {
                old(self).bytes().len() as int
            },
    {
        if to <= self.data.len() {
            self.position = to;
        } else {
            self.position = self.data.len();
        }
    }

    /// Reads the next `n` bytes. When fewer are left the read fails and the
    /// position stays where it was.
    pub fn read_exact(&mut self, n: usize) -> (r: Result<Vec<u8>, BufrError>)
        ensures
            final(self).bytes() == old(self).bytes(),
            match r {
                Ok(v) => {
                    &&& 0 <= old(self).pos()
                    &&& old(self).pos() + n <= old(self).bytes().len()
                    &&& v@ == old(self).bytes().subrange(old(self).pos(), old(self).pos() + n)
                    &&& v@.len() == n
                    &&& final(self).pos() == old(self).pos() + n
                },
                Err(e) => {
                    &&& 0 <= old(self).pos()
                    &&& old(self).pos() + n > old(self).bytes().len()
                    &&& e == BufrError::bare(ErrorKind::InvalidLayout)
                    &&& final(self).pos() == old(self).pos()
                },
            },
    {
        proof {
            use_type_invariant(&*self);
        }
        if n > self.data.len() - self.position {
            return Err(BufrError::new(ErrorKind::InvalidLayout));
        }
        let start = self.position;
        let mut out: Vec<u8> = Vec::with_capacity(n);
        let mut i: usize = 0;
        while i < n
            invariant
                i <= n,
                start + n <= self.data.len(),
                out@ == self.data@.subrange(start as int, start + i),
            decreases n - i,
        {
            out.push(self.data[start + i]);
            i = i + 1;
        }
        self.position = start + n;
        Ok(out)
    }
}

} // verus!
