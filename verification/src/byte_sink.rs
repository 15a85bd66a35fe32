//! The byte sink capability: something an encoder can hand exact byte
//! sequences to, implemented for plain byte vectors.
use vstd::prelude::*;

use crate::RwError;

verus! {

/// A sink of bytes. The abstract state is the sequence of bytes accepted so
/// far. A sink may refuse a byte (a full device, a closed peer); a refusal
/// leaves the accepted bytes unchanged. A sink that is `infallible` never
/// refuses.
pub trait ByteSink {
    /// The bytes this sink has accepted, in order.
    spec fn accepted(&self) -> Seq<u8>;

    /// Whether this sink is known never to refuse a byte.
    spec fn infallible(&self) -> bool;

    /// Hand one byte to the sink.
    fn write_byte(&mut self, b: u8) -> (r: Result<(), RwError>)
        ensures
            r is Ok ==> final(self).accepted() == old(self).accepted().push(b),
            r is Err ==> r == Err::<(), RwError>(RwError::IoFailure) && final(self).accepted()
                == old(self).accepted(),
            final(self).infallible() == old(self).infallible(),
            old(self).infallible() ==> r is Ok,
    ;
}

impl ByteSink for Vec<u8> {
    open spec fn accepted(&self) -> Seq<u8> {
        self@
    }

    open spec fn infallible(&self) -> bool {
        true
    }

    fn write_byte(&mut self, b: u8) -> (r: Result<(), RwError>) {
        self.push(b);
        Ok(())
    }
}

} // verus!
