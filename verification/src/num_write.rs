//! Writing plain numbers to a byte sink: integers of every machine width
//! in little endian, big endian and native byte order, bytes and booleans.
use vstd::arithmetic::power2::*;
use vstd::prelude::*;

use crate::byte_order::native_is_little_endian;
use crate::byte_sink::ByteSink;
use crate::leb128_spec::{
    be_bytes, le_bytes, lemma_le_bytes_append, lemma_le_bytes_len, sink_write_post, to_bits,
};
use crate::leb128_write::signed_to_bits;
use crate::RwError;

verus! {

/// The two's complement byte of each element of a signed byte buffer.
pub open spec fn i8_bytes(s: Seq<i8>) -> Seq<u8> {
    s.map_values(|x: i8| to_bits(x as int, 8) as u8)
}

/// Reinterpret an `i8` as its two's complement byte.
fn i8_to_u8(x: i8) -> (r: u8)
    ensures
        r as nat == to_bits(x as int, 8),
{
    proof {
        lemma2_to64();
    }
    let bits = signed_to_bits(x as i128, 0xFF, Ghost(8));
    bits as u8
}

/// Hand a whole buffer to a sink, byte by byte.
fn write_all_bytes<S: ByteSink>(sink: &mut S, bytes: &Vec<u8>) -> (r: Result<(), RwError>)
    ensures
        sink_write_post(old(sink).accepted(), final(sink).accepted(), bytes@, r),
        final(sink).infallible() == old(sink).infallible(),
        old(sink).infallible() ==> r is Ok,
{
    let ghost a0 = old(sink).accepted();
    let ghost bs = bytes@;
    let mut i: usize = 0;
    proof {
        assert(a0 + bs.take(0) =~= a0);
    }
    while i < bytes.len()
        invariant
            i <= bs.len(),
            bytes@ == bs,
            sink.accepted() == a0 + bs.take(i as int),
            sink.infallible() == old(sink).infallible(),
            old(sink).accepted() == a0,
        decreases bs.len() - i,
    {
        let b = bytes[i];
        match sink.write_byte(b) {
            Ok(_) => {
                proof {
                    assert(bs.take(i as int).push(b) =~= bs.take(i as int + 1));
                    assert(sink.accepted() =~= a0 + bs.take(i as int + 1));
                }
            },
            Err(_) => {
                return Err(RwError::IoFailure);
            },
        }
        i = i + 1;
    }
    proof {
        assert(bs.take(bs.len() as int) =~= bs);
    }
    Ok(())
}

/// The little-endian bytes of `v`, exactly `n` of them.
fn le_bytes_vec(v: u128, n: usize) -> (r: Vec<u8>)
    ensures
        r@ == le_bytes(v as nat, n as nat),
        r@.len() == n,
{
    let mut out: Vec<u8> = Vec::new();
    let mut a = v;
    let mut i: usize = 0;
    proof {
        lemma_pow2_pos(0);
        assert(pow2(0) == 1) by {
            lemma2_to64();
        }
        vstd::arithmetic::div_mod::lemma_div_basics(v as int);
        assert(v as nat / pow2(0) == v as nat);
        assert(out@ =~= le_bytes(v as nat, 0));
    }
    while i < n
        invariant
            i <= n,
            a as nat == v as nat / pow2((8 * i) as nat),
            out@ == le_bytes(v as nat, i as nat),
            out@.len() == i,
        decreases n - i,
    {
        proof {
            lemma_pow2_pos((8 * i) as nat);
            lemma_le_bytes_len(v as nat, i as nat);
            lemma_le_bytes_append(v as nat, i as nat, 1);
            assert(le_bytes(a as nat / 256, 0) =~= Seq::<u8>::empty());
            assert(le_bytes(a as nat, 1) =~= seq![((a as nat) % 256) as u8]);
            assert(((a as nat) % 256) as u8 == (a % 256) as u8);
            assert(le_bytes(v as nat, (i + 1) as nat) =~= le_bytes(v as nat, i as nat)
                + seq![(a % 256) as u8]);
            assert(out@.push((a % 256) as u8) =~= le_bytes(v as nat, (i + 1) as nat));
        }
        out.push((a % 256) as u8);
        proof {
            vstd::arithmetic::div_mod::lemma_div_denominator(
                v as int,
                pow2((8 * i) as nat) as int,
                256,
            );
            lemma_pow2_adds((8 * i) as nat, 8);
            lemma2_to64();
        }
        a = a / 256;
        i = i + 1;
    }
    out
}

/// The big-endian bytes of `v`, exactly `n` of them.
fn be_bytes_vec(v: u128, n: usize) -> (r: Vec<u8>)
    ensures
        r@ == be_bytes(v as nat, n as nat),
        r@.len() == n,
{
    let le = le_bytes_vec(v, n);
    let mut out: Vec<u8> = Vec::new();
    let mut i: usize = 0;
    proof {
        assert(out@ =~= le@.reverse().take(0));
    }
    while i < n
        invariant
            i <= n,
            le@ == le_bytes(v as nat, n as nat),
            le@.len() == n,
            out@ == le@.reverse().take(i as int),
        decreases n - i,
    {
        let b = le[n - 1 - i];
        proof {
            assert(le@.reverse()[i as int] == le@[n - 1 - i]);
            assert(le@.reverse().take(i as int).push(b) =~= le@.reverse().take(i as int + 1));
        }
        out.push(b);
        i = i + 1;
    }
    proof {
        assert(le@.reverse().take(n as int) =~= le@.reverse());
    }
    out
}

/// Marker bound for the blanket implementation: every byte sink gets the
/// number writing methods.
pub trait Sealed {

}

impl<S: ByteSink> Sealed for S {

}

/// Methods to write plain numbers, given to every byte sink.
pub trait NumWrite: Sealed + ByteSink {
    /// Writes a bool as one byte: 1 for true, 0 for false.
    fn write_bool(&mut self, value: bool) -> (r: Result<(), RwError>)
        ensures
            sink_write_post(
                old(self).accepted(),
                final(self).accepted(),
                seq![
                    if value {
                        1u8
                    } else {
                        0u8
                    },
                ],
                r,
            ),
            final(self).infallible() == old(self).infallible(),
            old(self).infallible() ==> r is Ok,
    ;

    /// Writes a `u8` as one byte.
    fn write_u8(&mut self, value: u8) -> (r: Result<(), RwError>)
        ensures
            sink_write_post(old(self).accepted(), final(self).accepted(), seq![value], r),
            final(self).infallible() == old(self).infallible(),
            old(self).infallible() ==> r is Ok,
    ;

    /// Writes an `i8` as one byte, two's complement.
    fn write_i8(&mut self, value: i8) -> (r: Result<(), RwError>)
        ensures
            sink_write_post(
                old(self).accepted(),
                final(self).accepted(),
                seq![to_bits(value as int, 8) as u8],
                r,
            ),
            final(self).infallible() == old(self).infallible(),
            old(self).infallible() ==> r is Ok,
    ;

    /// Writes an `u16` as 2 bytes in little endian byte order.
    fn write_u16_le(&mut self, value: u16) -> (r: Result<(), RwError>)
        ensures
            sink_write_post(old(self).accepted(), final(self).accepted(), le_bytes(value as nat, 2), r),
            final(self).infallible() == old(self).infallible(),
            old(self).infallible() ==> r is Ok,
    ;

    /// Writes an `u16` as 2 bytes in big endian byte order.
    fn write_u16_be(&mut self, value: u16) -> (r: Result<(), RwError>)
        ensures
            sink_write_post(old(self).accepted(), final(self).accepted(), be_bytes(value as nat, 2), r),
            final(self).infallible() == old(self).infallible(),
            old(self).infallible() ==> r is Ok,
    ;

    /// Writes an `i16` as 2 bytes in little endian byte order.
    fn write_i16_le(&mut self, value: i16) -> (r: Result<(), RwError>)
        ensures
            sink_write_post(old(self).accepted(), final(self).accepted(), le_bytes(to_bits(value as int, 16), 2), r),
            final(self).infallible() == old(self).infallible(),
            old(self).infallible() ==> r is Ok,
    ;

    /// Writes an `i16` as 2 bytes in big endian byte order.
    fn write_i16_be(&mut self, value: i16) -> (r: Result<(), RwError>)
        ensures
            sink_write_post(old(self).accepted(), final(self).accepted(), be_bytes(to_bits(value as int, 16), 2), r),
            final(self).infallible() == old(self).infallible(),
            old(self).infallible() ==> r is Ok,
    ;

    /// Writes an `u16` as 2 bytes in native byte order.
    fn write_u16_ne(&mut self, value: u16) -> (r: Result<(), RwError>)
        ensures
            sink_write_post(old(self).accepted(), final(self).accepted(), le_bytes(value as nat, 2), r)
                || sink_write_post(old(self).accepted(), final(self).accepted(), be_bytes(value as nat, 2), r),
            final(self).infallible() == old(self).infallible(),
            old(self).infallible() ==> r is Ok,
    ;

    /// Writes an `i16` as 2 bytes in native byte order.
    fn write_i16_ne(&mut self, value: i16) -> (r: Result<(), RwError>)
        ensures
            sink_write_post(old(self).accepted(), final(self).accepted(), le_bytes(to_bits(value as int, 16), 2), r)
                || sink_write_post(old(self).accepted(), final(self).accepted(), be_bytes(to_bits(value as int, 16), 2), r),
            final(self).infallible() == old(self).infallible(),
            old(self).infallible() ==> r is Ok,
    ;

    /// Writes an `u32` as 4 bytes in little endian byte order.
    fn write_u32_le(&mut self, value: u32) -> (r: Result<(), RwError>)
        ensures
            sink_write_post(old(self).accepted(), final(self).accepted(), le_bytes(value as nat, 4), r),
            final(self).infallible() == old(self).infallible(),
            old(self).infallible() ==> r is Ok,
    ;

    /// Writes an `u32` as 4 bytes in big endian byte order.
    fn write_u32_be(&mut self, value: u32) -> (r: Result<(), RwError>)
        ensures
            sink_write_post(old(self).accepted(), final(self).accepted(), be_bytes(value as nat, 4), r),
            final(self).infallible() == old(self).infallible(),
            old(self).infallible() ==> r is Ok,
    ;

    /// Writes an `i32` as 4 bytes in little endian byte order.
    fn write_i32_le(&mut self, value: i32) -> (r: Result<(), RwError>)
        ensures
            sink_write_post(old(self).accepted(), final(self).accepted(), le_bytes(to_bits(value as int, 32), 4), r),
            final(self).infallible() == old(self).infallible(),
            old(self).infallible() ==> r is Ok,
    ;

    /// Writes an `i32` as 4 bytes in big endian byte order.
    fn write_i32_be(&mut self, value: i32) -> (r: Result<(), RwError>)
        ensures
            sink_write_post(old(self).accepted(), final(self).accepted(), be_bytes(to_bits(value as int, 32), 4), r),
            final(self).infallible() == old(self).infallible(),
            old(self).infallible() ==> r is Ok,
    ;

    /// Writes an `u32` as 4 bytes in native byte order.
    fn write_u32_ne(&mut self, value: u32) -> (r: Result<(), RwError>)
        ensures
            sink_write_post(old(self).accepted(), final(self).accepted(), le_bytes(value as nat, 4), r)
                || sink_write_post(old(self).accepted(), final(self).accepted(), be_bytes(value as nat, 4), r),
            final(self).infallible() == old(self).infallible(),
            old(self).infallible() ==> r is Ok,
    ;

    /// Writes an `i32` as 4 bytes in native byte order.
    fn write_i32_ne(&mut self, value: i32) -> (r: Result<(), RwError>)
        ensures
            sink_write_post(old(self).accepted(), final(self).accepted(), le_bytes(to_bits(value as int, 32), 4), r)
                || sink_write_post(old(self).accepted(), final(self).accepted(), be_bytes(to_bits(value as int, 32), 4), r),
            final(self).infallible() == old(self).infallible(),
            old(self).infallible() ==> r is Ok,
    ;

    /// Writes an `u64` as 8 bytes in little endian byte order.
    fn write_u64_le(&mut self, value: u64) -> (r: Result<(), RwError>)
        ensures
            sink_write_post(old(self).accepted(), final(self).accepted(), le_bytes(value as nat, 8), r),
            final(self).infallible() == old(self).infallible(),
            old(self).infallible() ==> r is Ok,
    ;

    /// Writes an `u64` as 8 bytes in big endian byte order.
    fn write_u64_be(&mut self, value: u64) -> (r: Result<(), RwError>)
        ensures
            sink_write_post(old(self).accepted(), final(self).accepted(), be_bytes(value as nat, 8), r),
            final(self).infallible() == old(self).infallible(),
            old(self).infallible() ==> r is Ok,
    ;

    /// Writes an `i64` as 8 bytes in little endian byte order.
    fn write_i64_le(&mut self, value: i64) -> (r: Result<(), RwError>)
        ensures
            sink_write_post(old(self).accepted(), final(self).accepted(), le_bytes(to_bits(value as int, 64), 8), r),
            final(self).infallible() == old(self).infallible(),
            old(self).infallible() ==> r is Ok,
    ;

    /// Writes an `i64` as 8 bytes in big endian byte order.
    fn write_i64_be(&mut self, value: i64) -> (r: Result<(), RwError>)
        ensures
            sink_write_post(old(self).accepted(), final(self).accepted(), be_bytes(to_bits(value as int, 64), 8), r),
            final(self).infallible() == old(self).infallible(),
            old(self).infallible() ==> r is Ok,
    ;

    /// Writes an `u64` as 8 bytes in native byte order.
    fn write_u64_ne(&mut self, value: u64) -> (r: Result<(), RwError>)
        ensures
            sink_write_post(old(self).accepted(), final(self).accepted(), le_bytes(value as nat, 8), r)
                || sink_write_post(old(self).accepted(), final(self).accepted(), be_bytes(value as nat, 8), r),
            final(self).infallible() == old(self).infallible(),
            old(self).infallible() ==> r is Ok,
    ;

    /// Writes an `i64` as 8 bytes in native byte order.
    fn write_i64_ne(&mut self, value: i64) -> (r: Result<(), RwError>)
        ensures
            sink_write_post(old(self).accepted(), final(self).accepted(), le_bytes(to_bits(value as int, 64), 8), r)
                || sink_write_post(old(self).accepted(), final(self).accepted(), be_bytes(to_bits(value as int, 64), 8), r),
            final(self).infallible() == old(self).infallible(),
            old(self).infallible() ==> r is Ok,
    ;

    /// Writes an `u128` as 16 bytes in little endian byte order.
    fn write_u128_le(&mut self, value: u128) -> (r: Result<(), RwError>)
        ensures
            sink_write_post(old(self).accepted(), final(self).accepted(), le_bytes(value as nat, 16), r),
            final(self).infallible() == old(self).infallible(),
            old(self).infallible() ==> r is Ok,
    ;

    /// Writes an `u128` as 16 bytes in big endian byte order.
    fn write_u128_be(&mut self, value: u128) -> (r: Result<(), RwError>)
        ensures
            sink_write_post(old(self).accepted(), final(self).accepted(), be_bytes(value as nat, 16), r),
            final(self).infallible() == old(self).infallible(),
            old(self).infallible() ==> r is Ok,
    ;

    /// Writes an `i128` as 16 bytes in little endian byte order.
    fn write_i128_le(&mut self, value: i128) -> (r: Result<(), RwError>)
        ensures
            sink_write_post(old(self).accepted(), final(self).accepted(), le_bytes(to_bits(value as int, 128), 16), r),
            final(self).infallible() == old(self).infallible(),
            old(self).infallible() ==> r is Ok,
    ;

    /// Writes an `i128` as 16 bytes in big endian byte order.
    fn write_i128_be(&mut self, value: i128) -> (r: Result<(), RwError>)
        ensures
            sink_write_post(old(self).accepted(), final(self).accepted(), be_bytes(to_bits(value as int, 128), 16), r),
            final(self).infallible() == old(self).infallible(),
            old(self).infallible() ==> r is Ok,
    ;

    /// Writes an `u128` as 16 bytes in native byte order.
    fn write_u128_ne(&mut self, value: u128) -> (r: Result<(), RwError>)
        ensures
            sink_write_post(old(self).accepted(), final(self).accepted(), le_bytes(value as nat, 16), r)
                || sink_write_post(old(self).accepted(), final(self).accepted(), be_bytes(value as nat, 16), r),
            final(self).infallible() == old(self).infallible(),
            old(self).infallible() ==> r is Ok,
    ;

    /// Writes an `i128` as 16 bytes in native byte order.
    fn write_i128_ne(&mut self, value: i128) -> (r: Result<(), RwError>)
        ensures
            sink_write_post(old(self).accepted(), final(self).accepted(), le_bytes(to_bits(value as int, 128), 16), r)
                || sink_write_post(old(self).accepted(), final(self).accepted(), be_bytes(to_bits(value as int, 128), 16), r),
            final(self).infallible() == old(self).infallible(),
            old(self).infallible() ==> r is Ok,
    ;

    /// Writes all the bytes of the slice.
    fn write_u8_slice(&mut self, slice: &[u8]) -> (r: Result<(), RwError>)
        ensures
            sink_write_post(old(self).accepted(), final(self).accepted(), slice@, r),
            final(self).infallible() == old(self).infallible(),
            old(self).infallible() ==> r is Ok,
    ;

    /// Writes all the bytes of the slice, two's complement.
    fn write_i8_slice(&mut self, slice: &[i8]) -> (r: Result<(), RwError>)
        ensures
            sink_write_post(old(self).accepted(), final(self).accepted(), i8_bytes(slice@), r),
            final(self).infallible() == old(self).infallible(),
            old(self).infallible() ==> r is Ok,
    ;

    /// Writes all the bytes of the buffer.
    fn write_u8_vec(&mut self, value: &Vec<u8>) -> (r: Result<(), RwError>)
        ensures
            sink_write_post(old(self).accepted(), final(self).accepted(), value@, r),
            final(self).infallible() == old(self).infallible(),
            old(self).infallible() ==> r is Ok,
    ;

    /// Writes all the bytes of the buffer, two's complement.
    fn write_i8_vec(&mut self, slice: &Vec<i8>) -> (r: Result<(), RwError>)
        ensures
            sink_write_post(old(self).accepted(), final(self).accepted(), i8_bytes(slice@), r),
            final(self).infallible() == old(self).infallible(),
            old(self).infallible() ==> r is Ok,
    ;
}

impl<S: ByteSink> NumWrite for S {
    fn write_bool(&mut self, value: bool) -> (r: Result<(), RwError>) {
        let b: u8 = if value {
            1
        } else {
            0
        };
        match self.write_byte(b) {
            Ok(_) => {
                proof {
                    assert(final(self).accepted() =~= old(self).accepted() + seq![b]);
                }
                Ok(())
            },
            Err(_) => {
                proof {
                    assert(final(self).accepted() =~= old(self).accepted() + seq![b].take(0));
                }
                Err(RwError::IoFailure)
            },
        }
    }

    fn write_u8(&mut self, value: u8) -> (r: Result<(), RwError>) {
        match self.write_byte(value) {
            Ok(_) => {
                proof {
                    assert(final(self).accepted() =~= old(self).accepted() + seq![value]);
                }
                Ok(())
            },
            Err(_) => {
                proof {
                    assert(final(self).accepted() =~= old(self).accepted() + seq![value].take(0));
                }
                Err(RwError::IoFailure)
            },
        }
    }

    fn write_i8(&mut self, value: i8) -> (r: Result<(), RwError>) {
        proof {
            lemma2_to64();
        }
        let bits = signed_to_bits(value as i128, 0xFF, Ghost(8));
        let b = bits as u8;
        match self.write_byte(b) {
            Ok(_) => {
                proof {
                    assert(final(self).accepted() =~= old(self).accepted() + seq![b]);
                }
                Ok(())
            },
            Err(_) => {
                proof {
                    assert(final(self).accepted() =~= old(self).accepted() + seq![b].take(0));
                }
                Err(RwError::IoFailure)
            },
        }
    }

    fn write_u16_le(&mut self, value: u16) -> (r: Result<(), RwError>) {
        let b = le_bytes_vec(value as u128, 2);
        write_all_bytes(self, &b)
    }

    fn write_u16_be(&mut self, value: u16) -> (r: Result<(), RwError>) {
        let b = be_bytes_vec(value as u128, 2);
        write_all_bytes(self, &b)
    }

    fn write_u16_ne(&mut self, value: u16) -> (r: Result<(), RwError>) {
        if native_is_little_endian() {
            self.write_u16_le(value)
        } else {
            self.write_u16_be(value)
        }
    }

    fn write_i16_le(&mut self, value: i16) -> (r: Result<(), RwError>) {
        proof {
            lemma2_to64();
            
        }
        let bits = signed_to_bits(value as i128, 0xFFFF, Ghost(16));
        let b = le_bytes_vec(bits, 2);
        write_all_bytes(self, &b)
    }

    fn write_i16_be(&mut self, value: i16) -> (r: Result<(), RwError>) {
        proof {
            lemma2_to64();
            
        }
        let bits = signed_to_bits(value as i128, 0xFFFF, Ghost(16));
        let b = be_bytes_vec(bits, 2);
        write_all_bytes(self, &b)
    }

    fn write_i16_ne(&mut self, value: i16) -> (r: Result<(), RwError>) {
        if native_is_little_endian() {
            self.write_i16_le(value)
        } else {
            self.write_i16_be(value)
        }
    }

    fn write_u32_le(&mut self, value: u32) -> (r: Result<(), RwError>) {
        let b = le_bytes_vec(value as u128, 4);
        write_all_bytes(self, &b)
    }

    fn write_u32_be(&mut self, value: u32) -> (r: Result<(), RwError>) {
        let b = be_bytes_vec(value as u128, 4);
        write_all_bytes(self, &b)
    }

    fn write_u32_ne(&mut self, value: u32) -> (r: Result<(), RwError>) {
        if native_is_little_endian() {
            self.write_u32_le(value)
        } else {
            self.write_u32_be(value)
        }
    }

    fn write_i32_le(&mut self, value: i32) -> (r: Result<(), RwError>) {
        proof {
            lemma2_to64();
            
        }
        let bits = signed_to_bits(value as i128, 0xFFFF_FFFF, Ghost(32));
        let b = le_bytes_vec(bits, 4);
        write_all_bytes(self, &b)
    }

    fn write_i32_be(&mut self, value: i32) -> (r: Result<(), RwError>) {
        proof {
            lemma2_to64();
            
        }
        let bits = signed_to_bits(value as i128, 0xFFFF_FFFF, Ghost(32));
        let b = be_bytes_vec(bits, 4);
        write_all_bytes(self, &b)
    }

    fn write_i32_ne(&mut self, value: i32) -> (r: Result<(), RwError>) {
        if native_is_little_endian() {
            self.write_i32_le(value)
        } else {
            self.write_i32_be(value)
        }
    }

    fn write_u64_le(&mut self, value: u64) -> (r: Result<(), RwError>) {
        let b = le_bytes_vec(value as u128, 8);
        write_all_bytes(self, &b)
    }

    fn write_u64_be(&mut self, value: u64) -> (r: Result<(), RwError>) {
        let b = be_bytes_vec(value as u128, 8);
        write_all_bytes(self, &b)
    }

    fn write_u64_ne(&mut self, value: u64) -> (r: Result<(), RwError>) {
        if native_is_little_endian() {
            self.write_u64_le(value)
        } else {
            self.write_u64_be(value)
        }
    }

    fn write_i64_le(&mut self, value: i64) -> (r: Result<(), RwError>) {
        proof {
            lemma2_to64();
            lemma2_to64_rest();
            
        }
        let bits = signed_to_bits(value as i128, 0xFFFF_FFFF_FFFF_FFFF, Ghost(64));
        let b = le_bytes_vec(bits, 8);
        write_all_bytes(self, &b)
    }

    fn write_i64_be(&mut self, value: i64) -> (r: Result<(), RwError>) {
        proof {
            lemma2_to64();
            lemma2_to64_rest();
            
        }
        let bits = signed_to_bits(value as i128, 0xFFFF_FFFF_FFFF_FFFF, Ghost(64));
        let b = be_bytes_vec(bits, 8);
        write_all_bytes(self, &b)
    }

    fn write_i64_ne(&mut self, value: i64) -> (r: Result<(), RwError>) {
        if native_is_little_endian() {
            self.write_i64_le(value)
        } else {
            self.write_i64_be(value)
        }
    }

    fn write_u128_le(&mut self, value: u128) -> (r: Result<(), RwError>) {
        let b = le_bytes_vec(value as u128, 16);
        write_all_bytes(self, &b)
    }

    fn write_u128_be(&mut self, value: u128) -> (r: Result<(), RwError>) {
        let b = be_bytes_vec(value as u128, 16);
        write_all_bytes(self, &b)
    }

    fn write_u128_ne(&mut self, value: u128) -> (r: Result<(), RwError>) {
        if native_is_little_endian() {
            self.write_u128_le(value)
        } else {
            self.write_u128_be(value)
        }
    }

    fn write_i128_le(&mut self, value: i128) -> (r: Result<(), RwError>) {
        proof {
            lemma2_to64();
            crate::arith::lemma_pow2_128();
            lemma_pow2_adds(64, 63);
            lemma2_to64_rest();
            
        }
        let bits = signed_to_bits(value as i128, u128::MAX, Ghost(128));
        let b = le_bytes_vec(bits, 16);
        write_all_bytes(self, &b)
    }

    fn write_i128_be(&mut self, value: i128) -> (r: Result<(), RwError>) {
        proof {
            lemma2_to64();
            crate::arith::lemma_pow2_128();
            lemma_pow2_adds(64, 63);
            lemma2_to64_rest();
            
        }
        let bits = signed_to_bits(value as i128, u128::MAX, Ghost(128));
        let b = be_bytes_vec(bits, 16);
        write_all_bytes(self, &b)
    }

    fn write_i128_ne(&mut self, value: i128) -> (r: Result<(), RwError>) {
        if native_is_little_endian() {
            self.write_i128_le(value)
        } else {
            self.write_i128_be(value)
        }
    }

    fn write_u8_slice(&mut self, slice: &[u8]) -> (r: Result<(), RwError>) {
        let ghost a0 = old(self).accepted();
        let ghost bs = slice@;
        let mut i: usize = 0;
        proof {
            assert(a0 + bs.take(0) =~= a0);
        }
        while i < slice.len()
            invariant
                i <= bs.len(),
                slice@ == bs,
                self.accepted() == a0 + bs.take(i as int),
                self.infallible() == old(self).infallible(),
                old(self).accepted() == a0,
            decreases bs.len() - i,
        {
            let b = slice[i];
            match self.write_byte(b) {
                Ok(_) => {
                    proof {
                        assert(bs.take(i as int).push(b) =~= bs.take(i as int + 1));
                        assert(self.accepted() =~= a0 + bs.take(i as int + 1));
                    }
                },
                Err(_) => {
                    return Err(RwError::IoFailure);
                },
            }
            i = i + 1;
        }
        proof {
            assert(bs.take(bs.len() as int) =~= bs);
        }
        Ok(())
    }

    fn write_i8_slice(&mut self, slice: &[i8]) -> (r: Result<(), RwError>) {
        let ghost a0 = old(self).accepted();
        let ghost target = i8_bytes(slice@);
        let mut i: usize = 0;
        proof {
            assert(a0 + target.take(0) =~= a0);
        }
        while i < slice.len()
            invariant
                i <= slice@.len(),
                target == i8_bytes(slice@),
                target.len() == slice@.len(),
                self.accepted() == a0 + target.take(i as int),
                self.infallible() == old(self).infallible(),
                old(self).accepted() == a0,
            decreases slice@.len() - i,
        {
            let b = i8_to_u8(slice[i]);
            proof {
                assert(target[i as int] == b);
            }
            match self.write_byte(b) {
                Ok(_) => {
                    proof {
                        assert(target.take(i as int).push(b) =~= target.take(i as int + 1));
                        assert(self.accepted() =~= a0 + target.take(i as int + 1));
                    }
                },
                Err(_) => {
                    return Err(RwError::IoFailure);
                },
            }
            i = i + 1;
        }
        proof {
            assert(target.take(target.len() as int) =~= target);
        }
        Ok(())
    }

    fn write_u8_vec(&mut self, value: &Vec<u8>) -> (r: Result<(), RwError>) {
        write_all_bytes(self, value)
    }

    fn write_i8_vec(&mut self, slice: &Vec<i8>) -> (r: Result<(), RwError>) {
        self.write_i8_slice(slice.as_slice())
    }
}

} // verus!
