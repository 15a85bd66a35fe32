//! The byte source capability: something a decoder can drain exactly, one
//! byte at a time, plus an in-memory cursor implementation.
use vstd::prelude::*;

use crate::RwError;

verus! {

/// A source of bytes. The abstract state is the sequence of bytes that are
/// still to be read; reading yields exactly those bytes in order and fails
/// exactly when they are exhausted.
pub trait ByteSource {
    /// The bytes this source will still yield, in order.
    spec fn remaining(&self) -> Seq<u8>;

    /// Read the next byte, or fail if the source is drained.
    fn read_byte(&mut self) -> (r: Option<u8>)
        ensures
            old(self).remaining().len() == 0 ==> r is None && final(self).remaining()
                == old(self).remaining(),
            old(self).remaining().len() > 0 ==> r == Some(old(self).remaining()[0])
                && final(self).remaining() == old(self).remaining().skip(1),
    ;
}

/// An in-memory byte source: a buffer and a position, the stand-in for a
/// cursor over owned data.
pub struct ByteCursor {
    data: Vec<u8>,
    pos: usize,
}

impl ByteCursor {
    /// Wrap a buffer so that all of it is still to be read.
    pub fn new(data: Vec<u8>) -> (r: ByteCursor)
        ensures
            r.remaining() == data@,
    {
        ByteCursor { data, pos: 0 }
    }

    /// How many bytes are still to be read.
    pub fn remaining_len(&self) -> (r: usize)
        ensures
            r == self.remaining().len(),
    {
        if self.pos <= self.data.len() {
            self.data.len() - self.pos
        } else {
            0
        }
    }
}

impl ByteSource for ByteCursor {
    closed spec fn remaining(&self) -> Seq<u8> {
        if self.pos <= self.data@.len() {
            self.data@.skip(self.pos as int)
        } else {
            Seq::empty()
        }
    }

    fn read_byte(&mut self) -> (r: Option<u8>) {
        if self.pos < self.data.len() {
            let b = self.data[self.pos];
            self.pos = self.pos + 1;
            assert(old(self).remaining().skip(1) =~= final(self).remaining());
            Some(b)
        } else {
            assert(self.remaining().len() == 0);
            None
        }
    }
}

/// Read one byte from a source, turning exhaustion into `IoFailure`.
pub fn next<S: ByteSource>(s: &mut S) -> (r: Result<u8, RwError>)
    ensures
        old(s).remaining().len() == 0 ==> r == Err::<u8, RwError>(RwError::IoFailure)
            && final(s).remaining() == old(s).remaining(),
        old(s).remaining().len() > 0 ==> r == Ok::<u8, RwError>(old(s).remaining()[0])
            && final(s).remaining() == old(s).remaining().skip(1),
{
    match s.read_byte() {
        Some(b) => Ok(b),
        None => Err(RwError::IoFailure),
    }
}

} // verus!
