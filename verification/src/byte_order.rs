//! Which byte order the target machine uses, probed once at run time so
//! that native-order reads and writes can be expressed through the
//! little-endian and big-endian code paths.
use vstd::prelude::*;

verus! {

/// Relies on `u16::to_ne_bytes`: the first byte of the native
/// representation of `1u16` is 1 exactly on a little endian target.
/// Nothing is assumed of the result: callers promise only that a value is
/// read or written in one of the two byte orders.
#[verifier::external_body]
pub(crate) fn native_is_little_endian() -> bool {
    u16::to_ne_bytes(1)[0] == 1
}

} // verus!
