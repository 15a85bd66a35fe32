//! Verified LEB128 (little endian base 128) codec with fixed machine widths
//! (16/32/64/128 bit, signed and unsigned) and an arbitrary-width mode that
//! works on little-endian byte buffers, together with plain endian-aware
//! integer reading and writing over byte source / byte sink capabilities.
use vstd::prelude::*;

pub mod arith;
pub mod byte_order;
pub mod byte_sink;
pub mod byte_source;
pub mod from_read;
pub mod leb128_laws;
pub mod leb128_read;
pub mod leb128_spec;
pub mod leb128_write;
pub mod num_read;
pub mod num_write;
pub mod to_write;

verus! {

/// Failure taxonomy of the whole crate.
///
/// `IoFailure` means the underlying byte source was drained before a value was
/// complete, or the underlying byte sink refused a byte. `Overflow` means a
/// fixed-width LEB128 decode met more significant groups than the declared bit
/// width permits. `TooLarge` means an arbitrary-width LEB128 decode would need
/// more bytes than the caller's cap. `InvalidInput` means an arbitrary-width
/// encode was handed an empty buffer.
#[derive(Clone, Copy, Debug, PartialEq, Eq, Structural)]
pub enum RwError {
    IoFailure,
    Overflow,
    TooLarge,
    InvalidInput,
}

} // verus!
