//! Reading whole structured values from a byte source.
use vstd::prelude::*;

use crate::byte_source::ByteCursor;
use crate::byte_source::ByteSource;
use crate::RwError;

verus! {

/// A value that can fill itself from a byte source. What a value reads is
/// its own affair; this crate only carries the bytes.
pub trait FromRead {
    /// Read this value's fields from the source.
    fn copy_from_read<S: ByteSource>(&mut self, reader: &mut S) -> Result<(), RwError>;
}

/// Marker bound for the blanket implementation below.
pub trait Sealed {

}

impl<T: FromRead + Default> Sealed for T {

}

/// Constructors for every `FromRead` value with a `Default`: start from the
/// default and fill from the given bytes.
pub trait DefaultFromRead: Sized + Sealed {
    /// Build a value by reading from a source.
    fn from_io<S: ByteSource>(read: &mut S) -> Result<Self, RwError>;

    /// Build a value by reading from the front of a buffer.
    fn from_vec(vec: &Vec<u8>) -> Result<Self, RwError>;

    /// Build a value by reading from the front of a slice.
    fn from_slice(slice: &[u8]) -> Result<Self, RwError>;
}

impl<T: FromRead + Default> DefaultFromRead for T {
    fn from_io<S: ByteSource>(read: &mut S) -> Result<Self, RwError> {
        let mut x = Self::default();
        match x.copy_from_read(read) {
            Ok(_) => Ok(x),
            Err(e) => Err(e),
        }
    }

    fn from_vec(vec: &Vec<u8>) -> Result<Self, RwError> {
        let mut x = ByteCursor::new(vstd::slice::slice_to_vec(vec.as_slice()));
        Self::from_io(&mut x)
    }

    fn from_slice(slice: &[u8]) -> Result<Self, RwError> {
        let mut x = ByteCursor::new(vstd::slice::slice_to_vec(slice));
        Self::from_io(&mut x)
    }
}

} // verus!
