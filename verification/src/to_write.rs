//! Writing whole structured values to a byte sink.
use vstd::prelude::*;

use crate::byte_sink::ByteSink;
use crate::RwError;

verus! {

/// A value that can write itself to a byte sink. What a value writes is
/// its own affair; this crate only carries the bytes.
pub trait ToWrite {
    /// Write this value's bytes to the sink.
    fn copy_to_write<S: ByteSink>(&self, writer: &mut S) -> Result<(), RwError>;
}

/// Marker bound for the blanket implementation below.
pub trait Sealed {

}

impl<T: ToWrite> Sealed for T {

}

/// Every `ToWrite` value can also be rendered into a fresh buffer.
pub trait ToVec: Sealed {
    /// Collect this value's bytes into a buffer.
    fn copy_to_vec(&self) -> Result<Vec<u8>, RwError>;
}

impl<T: ToWrite> ToVec for T {
    fn copy_to_vec(&self) -> Result<Vec<u8>, RwError> {
        let mut data: Vec<u8> = Vec::new();
        match self.copy_to_write(&mut data) {
            Ok(_) => Ok(data),
            Err(e) => Err(e),
        }
    }
}

} // verus!
