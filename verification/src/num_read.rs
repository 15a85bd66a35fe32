//! Reading plain numbers from a byte source: integers of every machine
//! width in little endian, big endian and native byte order, bytes and
//! booleans.
use vstd::arithmetic::power2::*;
use vstd::prelude::*;

use crate::byte_order::native_is_little_endian;
use crate::byte_source::next;
use crate::byte_source::ByteSource;
use crate::leb128_read::to_signed_i128;
use crate::leb128_spec::{
    be_value, from_bits_signed, le_value, lemma_le_value_append, lemma_le_value_bound,
    lemma_le_value_singleton,
};
use crate::RwError;

verus! {

/// What reading exactly `n` bytes does to the source: it advances past
/// them, or drains a source that is too short.
pub open spec fn read_exact_post(s0: Seq<u8>, s1: Seq<u8>, n: nat, ok: bool) -> bool {
    if ok {
        s0.len() >= n && s1 == s0.skip(n as int)
    } else {
        s0.len() < n && s1 == Seq::<u8>::empty()
    }
}

/// Read exactly `n` bytes, or drain the source trying.
fn read_exact_bytes<S: ByteSource>(src: &mut S, n: usize) -> (r: Result<Vec<u8>, RwError>)
    ensures
        match r {
            Ok(v) => read_exact_post(old(src).remaining(), final(src).remaining(), n as nat, true)
                && v@ == old(src).remaining().take(n as int),
            Err(RwError::IoFailure) => read_exact_post(
                old(src).remaining(),
                final(src).remaining(),
                n as nat,
                false,
            ),
            Err(_) => false,
        },
{
    let ghost s0 = old(src).remaining();
    let mut out: Vec<u8> = Vec::new();
    let mut i: usize = 0;
    proof {
        assert(s0.take(0) =~= Seq::<u8>::empty());
        assert(s0.skip(0) =~= s0);
    }
    while i < n
        invariant
            i <= n,
            i <= s0.len(),
            out@ == s0.take(i as int),
            src.remaining() == s0.skip(i as int),
            old(src).remaining() == s0,
        decreases n - i,
    {
        let b = match next(src) {
            Ok(b) => b,
            Err(_) => {
                proof {
                    assert(s0.len() == i);
                    assert(final(src).remaining() =~= Seq::<u8>::empty());
                }
                return Err(RwError::IoFailure);
            },
        };
        proof {
            assert(s0.skip(i as int).skip(1) =~= s0.skip(i as int + 1));
            assert(s0.take(i as int).push(b) =~= s0.take(i as int + 1));
        }
        out.push(b);
        i = i + 1;
    }
    Ok(out)
}

/// Assemble a little-endian byte buffer into an integer.
fn le_from_bytes(bytes: &Vec<u8>) -> (r: u128)
    requires
        bytes@.len() <= 16,
    ensures
        r as nat == le_value(bytes@),
{
    let ghost bs = bytes@;
    let mut r: u128 = 0;
    let mut pow: u128 = 1;
    let mut i: usize = 0;
    proof {
        lemma_pow2_pos(0);
        assert(pow2(0) == 1) by {
            lemma2_to64();
        }
        assert(bs.take(0) =~= Seq::<u8>::empty());
    }
    while i < bytes.len()
        invariant
            i <= bs.len() <= 16,
            bytes@ == bs,
            r as nat == le_value(bs.take(i as int)),
            i < bs.len() ==> pow as nat == pow2((8 * i) as nat),
        decreases bs.len() - i,
    {
        let b = bytes[i];
        proof {
            let cur = bs.take(i as int);
            assert(bs.take(i as int + 1) =~= cur + seq![b]);
            lemma_le_value_append(cur, seq![b]);
            lemma_le_value_singleton(b);
            lemma_le_value_bound(cur);
            assert(b as nat * pow2((8 * i) as nat) <= 255 * pow2((8 * i) as nat)) by {
                vstd::arithmetic::mul::lemma_mul_inequality(
                    b as int,
                    255,
                    pow2((8 * i) as nat) as int,
                );
            }
            vstd::arithmetic::mul::lemma_mul_is_commutative(
                pow2((8 * i) as nat) as int,
                b as int,
            );
            assert(256 * pow2((8 * i) as nat) == pow2((8 * i + 8) as nat)) by {
                lemma_pow2_adds((8 * i) as nat, 8);
                lemma2_to64();
            }
            crate::arith::lemma_pow2_128();
            assert(pow2((8 * i + 8) as nat) <= pow2(128)) by {
                if 8 * i + 8 < 128 {
                    lemma_pow2_strictly_increases((8 * i + 8) as nat, 128);
                }
            }
        }
        r = r + (b as u128) * pow;
        i = i + 1;
        if i < bytes.len() {
            proof {
                lemma_pow2_adds((8 * (i - 1)) as nat, 8);
                lemma2_to64();
                crate::arith::lemma_pow2_128();
                lemma_pow2_strictly_increases((8 * i) as nat, 128);
                lemma_pow2_pos((8 * i) as nat);
            }
            pow = pow * 256;
        }
    }
    proof {
        assert(bs.take(bs.len() as int) =~= bs);
    }
    r
}

/// Assemble a big-endian byte buffer into an integer.
#[verifier::rlimit(60)]
fn be_from_bytes(bytes: &Vec<u8>) -> (r: u128)
    requires
        bytes@.len() <= 16,
    ensures
        r as nat == be_value(bytes@),
{
    let ghost bs = bytes@;
    let mut r: u128 = 0;
    let mut i: usize = 0;
    proof {
        assert(bs.take(0).reverse() =~= Seq::<u8>::empty());
        assert(le_value(bs.take(0).reverse()) == 0);
        lemma_pow2_pos(0);
        assert(pow2(0) == 1) by {
            lemma2_to64();
        }
    }
    while i < bytes.len()
        invariant
            i <= bs.len() <= 16,
            bytes@ == bs,
            r as nat == be_value(bs.take(i as int)),
            (r as nat) < pow2((8 * i) as nat),
        decreases bs.len() - i,
    {
        let b = bytes[i];
        proof {
            let rev = bs.take(i as int).reverse();
            assert(bs.take(i as int + 1).reverse() =~= seq![b] + rev);
            assert((seq![b] + rev).skip(1) =~= rev);
            assert(le_value(seq![b] + rev) == b + 256 * le_value(rev));
            lemma_le_value_bound(rev);
            assert(rev.len() == i);
            assert(256 * pow2((8 * i) as nat) == pow2((8 * i + 8) as nat)) by {
                lemma_pow2_adds((8 * i) as nat, 8);
                lemma2_to64();
            }
            crate::arith::lemma_pow2_128();
            assert(pow2((8 * i + 8) as nat) <= pow2(128)) by {
                if 8 * i + 8 < 128 {
                    lemma_pow2_strictly_increases((8 * i + 8) as nat, 128);
                }
            }
        }
        r = r * 256 + (b as u128);
        i = i + 1;
    }
    proof {
        assert(bs.take(bs.len() as int) =~= bs);
    }
    r
}

/// Reinterpret one byte as a two's complement `i8`.
fn u8_to_i8(b: u8) -> (r: i8)
    ensures
        r as int == from_bits_signed(b as nat, 8),
{
    proof {
        lemma2_to64();
    }
    if b < 128 {
        b as i8
    } else {
        -((255 - b) as i8) - 1
    }
}

/// Marker bound for the blanket implementation: every byte source gets the
/// number reading methods.
pub trait Sealed {

}

impl<S: ByteSource> Sealed for S {

}

/// Methods to read plain numbers, given to every byte source.
pub trait NumRead: Sealed + ByteSource {
    /// Reads one byte and treats 0 as false and any other value as true.
    fn read_bool(&mut self) -> (r: Result<bool, RwError>)
        ensures
            match r {
                Ok(v) => read_exact_post(old(self).remaining(), final(self).remaining(), 1, true)
                    && v == (old(self).remaining()[0] != 0),
                Err(RwError::IoFailure) => read_exact_post(
                    old(self).remaining(),
                    final(self).remaining(),
                    1,
                    false,
                ),
                Err(_) => false,
            },
    ;

    /// Reads one byte and treats it as a `u8`.
    fn read_u8(&mut self) -> (r: Result<u8, RwError>)
        ensures
            match r {
                Ok(v) => read_exact_post(old(self).remaining(), final(self).remaining(), 1, true)
                    && v == old(self).remaining()[0],
                Err(RwError::IoFailure) => read_exact_post(
                    old(self).remaining(),
                    final(self).remaining(),
                    1,
                    false,
                ),
                Err(_) => false,
            },
    ;

    /// Reads one byte and treats it as an `i8`.
    fn read_i8(&mut self) -> (r: Result<i8, RwError>)
        ensures
            match r {
                Ok(v) => read_exact_post(old(self).remaining(), final(self).remaining(), 1, true)
                    && v as int == from_bits_signed(old(self).remaining()[0] as nat, 8),
                Err(RwError::IoFailure) => read_exact_post(
                    old(self).remaining(),
                    final(self).remaining(),
                    1,
                    false,
                ),
                Err(_) => false,
            },
    ;

    /// Reads 2 bytes and treats them as an `u16` in little endian byte order.
    fn read_u16_le(&mut self) -> (r: Result<u16, RwError>)
        ensures
            match r {
                Ok(v) => read_exact_post(old(self).remaining(), final(self).remaining(), 2, true)
                    && v as nat == le_value(old(self).remaining().take(2)),
                Err(RwError::IoFailure) => read_exact_post(
                    old(self).remaining(),
                    final(self).remaining(),
                    2,
                    false,
                ),
                Err(_) => false,
            },
    ;

    /// Reads 2 bytes and treats them as an `u16` in big endian byte order.
    fn read_u16_be(&mut self) -> (r: Result<u16, RwError>)
        ensures
            match r {
                Ok(v) => read_exact_post(old(self).remaining(), final(self).remaining(), 2, true)
                    && v as nat == be_value(old(self).remaining().take(2)),
                Err(RwError::IoFailure) => read_exact_post(
                    old(self).remaining(),
                    final(self).remaining(),
                    2,
                    false,
                ),
                Err(_) => false,
            },
    ;

    /// Reads 2 bytes and treats them as an `u16` in native byte order.
    fn read_u16_ne(&mut self) -> (r: Result<u16, RwError>)
        ensures
            match r {
                Ok(v) => read_exact_post(old(self).remaining(), final(self).remaining(), 2, true)
                    && (v as nat == le_value(old(self).remaining().take(2)) || v as nat == be_value(old(self).remaining().take(2))),
                Err(RwError::IoFailure) => read_exact_post(
                    old(self).remaining(),
                    final(self).remaining(),
                    2,
                    false,
                ),
                Err(_) => false,
            },
    ;

    /// Reads 2 bytes and treats them as an `i16` in little endian byte order.
    fn read_i16_le(&mut self) -> (r: Result<i16, RwError>)
        ensures
            match r {
                Ok(v) => read_exact_post(old(self).remaining(), final(self).remaining(), 2, true)
                    && v as int == from_bits_signed(le_value(old(self).remaining().take(2)), 16),
                Err(RwError::IoFailure) => read_exact_post(
                    old(self).remaining(),
                    final(self).remaining(),
                    2,
                    false,
                ),
                Err(_) => false,
            },
    ;

    /// Reads 2 bytes and treats them as an `i16` in big endian byte order.
    fn read_i16_be(&mut self) -> (r: Result<i16, RwError>)
        ensures
            match r {
                Ok(v) => read_exact_post(old(self).remaining(), final(self).remaining(), 2, true)
                    && v as int == from_bits_signed(be_value(old(self).remaining().take(2)), 16),
                Err(RwError::IoFailure) => read_exact_post(
                    old(self).remaining(),
                    final(self).remaining(),
                    2,
                    false,
                ),
                Err(_) => false,
            },
    ;

    /// Reads 2 bytes and treats them as an `i16` in native byte order.
    fn read_i16_ne(&mut self) -> (r: Result<i16, RwError>)
        ensures
            match r {
                Ok(v) => read_exact_post(old(self).remaining(), final(self).remaining(), 2, true)
                    && (v as int == from_bits_signed(le_value(old(self).remaining().take(2)), 16) || v as int == from_bits_signed(be_value(old(self).remaining().take(2)), 16)),
                Err(RwError::IoFailure) => read_exact_post(
                    old(self).remaining(),
                    final(self).remaining(),
                    2,
                    false,
                ),
                Err(_) => false,
            },
    ;

    /// Reads 4 bytes and treats them as an `u32` in little endian byte order.
    fn read_u32_le(&mut self) -> (r: Result<u32, RwError>)
        ensures
            match r {
                Ok(v) => read_exact_post(old(self).remaining(), final(self).remaining(), 4, true)
                    && v as nat == le_value(old(self).remaining().take(4)),
                Err(RwError::IoFailure) => read_exact_post(
                    old(self).remaining(),
                    final(self).remaining(),
                    4,
                    false,
                ),
                Err(_) => false,
            },
    ;

    /// Reads 4 bytes and treats them as an `u32` in big endian byte order.
    fn read_u32_be(&mut self) -> (r: Result<u32, RwError>)
        ensures
            match r {
                Ok(v) => read_exact_post(old(self).remaining(), final(self).remaining(), 4, true)
                    && v as nat == be_value(old(self).remaining().take(4)),
                Err(RwError::IoFailure) => read_exact_post(
                    old(self).remaining(),
                    final(self).remaining(),
                    4,
                    false,
                ),
                Err(_) => false,
            },
    ;

    /// Reads 4 bytes and treats them as an `u32` in native byte order.
    fn read_u32_ne(&mut self) -> (r: Result<u32, RwError>)
        ensures
            match r {
                Ok(v) => read_exact_post(old(self).remaining(), final(self).remaining(), 4, true)
                    && (v as nat == le_value(old(self).remaining().take(4)) || v as nat == be_value(old(self).remaining().take(4))),
                Err(RwError::IoFailure) => read_exact_post(
                    old(self).remaining(),
                    final(self).remaining(),
                    4,
                    false,
                ),
                Err(_) => false,
            },
    ;

    /// Reads 4 bytes and treats them as an `i32` in little endian byte order.
    fn read_i32_le(&mut self) -> (r: Result<i32, RwError>)
        ensures
            match r {
                Ok(v) => read_exact_post(old(self).remaining(), final(self).remaining(), 4, true)
                    && v as int == from_bits_signed(le_value(old(self).remaining().take(4)), 32),
                Err(RwError::IoFailure) => read_exact_post(
                    old(self).remaining(),
                    final(self).remaining(),
                    4,
                    false,
                ),
                Err(_) => false,
            },
    ;

    /// Reads 4 bytes and treats them as an `i32` in big endian byte order.
    fn read_i32_be(&mut self) -> (r: Result<i32, RwError>)
        ensures
            match r {
                Ok(v) => read_exact_post(old(self).remaining(), final(self).remaining(), 4, true)
                    && v as int == from_bits_signed(be_value(old(self).remaining().take(4)), 32),
                Err(RwError::IoFailure) => read_exact_post(
                    old(self).remaining(),
                    final(self).remaining(),
                    4,
                    false,
                ),
                Err(_) => false,
            },
    ;

    /// Reads 4 bytes and treats them as an `i32` in native byte order.
    fn read_i32_ne(&mut self) -> (r: Result<i32, RwError>)
        ensures
            match r {
                Ok(v) => read_exact_post(old(self).remaining(), final(self).remaining(), 4, true)
                    && (v as int == from_bits_signed(le_value(old(self).remaining().take(4)), 32) || v as int == from_bits_signed(be_value(old(self).remaining().take(4)), 32)),
                Err(RwError::IoFailure) => read_exact_post(
                    old(self).remaining(),
                    final(self).remaining(),
                    4,
                    false,
                ),
                Err(_) => false,
            },
    ;

    /// Reads 8 bytes and treats them as an `u64` in little endian byte order.
    fn read_u64_le(&mut self) -> (r: Result<u64, RwError>)
        ensures
            match r {
                Ok(v) => read_exact_post(old(self).remaining(), final(self).remaining(), 8, true)
                    && v as nat == le_value(old(self).remaining().take(8)),
                Err(RwError::IoFailure) => read_exact_post(
                    old(self).remaining(),
                    final(self).remaining(),
                    8,
                    false,
                ),
                Err(_) => false,
            },
    ;

    /// Reads 8 bytes and treats them as an `u64` in big endian byte order.
    fn read_u64_be(&mut self) -> (r: Result<u64, RwError>)
        ensures
            match r {
                Ok(v) => read_exact_post(old(self).remaining(), final(self).remaining(), 8, true)
                    && v as nat == be_value(old(self).remaining().take(8)),
                Err(RwError::IoFailure) => read_exact_post(
                    old(self).remaining(),
                    final(self).remaining(),
                    8,
                    false,
                ),
                Err(_) => false,
            },
    ;

    /// Reads 8 bytes and treats them as an `u64` in native byte order.
    fn read_u64_ne(&mut self) -> (r: Result<u64, RwError>)
        ensures
            match r {
                Ok(v) => read_exact_post(old(self).remaining(), final(self).remaining(), 8, true)
                    && (v as nat == le_value(old(self).remaining().take(8)) || v as nat == be_value(old(self).remaining().take(8))),
                Err(RwError::IoFailure) => read_exact_post(
                    old(self).remaining(),
                    final(self).remaining(),
                    8,
                    false,
                ),
                Err(_) => false,
            },
    ;

    /// Reads 8 bytes and treats them as an `i64` in little endian byte order.
    fn read_i64_le(&mut self) -> (r: Result<i64, RwError>)
        ensures
            match r {
                Ok(v) => read_exact_post(old(self).remaining(), final(self).remaining(), 8, true)
                    && v as int == from_bits_signed(le_value(old(self).remaining().take(8)), 64),
                Err(RwError::IoFailure) => read_exact_post(
                    old(self).remaining(),
                    final(self).remaining(),
                    8,
                    false,
                ),
                Err(_) => false,
            },
    ;

    /// Reads 8 bytes and treats them as an `i64` in big endian byte order.
    fn read_i64_be(&mut self) -> (r: Result<i64, RwError>)
        ensures
            match r {
                Ok(v) => read_exact_post(old(self).remaining(), final(self).remaining(), 8, true)
                    && v as int == from_bits_signed(be_value(old(self).remaining().take(8)), 64),
                Err(RwError::IoFailure) => read_exact_post(
                    old(self).remaining(),
                    final(self).remaining(),
                    8,
                    false,
                ),
                Err(_) => false,
            },
    ;

    /// Reads 8 bytes and treats them as an `i64` in native byte order.
    fn read_i64_ne(&mut self) -> (r: Result<i64, RwError>)
        ensures
            match r {
                Ok(v) => read_exact_post(old(self).remaining(), final(self).remaining(), 8, true)
                    && (v as int == from_bits_signed(le_value(old(self).remaining().take(8)), 64) || v as int == from_bits_signed(be_value(old(self).remaining().take(8)), 64)),
                Err(RwError::IoFailure) => read_exact_post(
                    old(self).remaining(),
                    final(self).remaining(),
                    8,
                    false,
                ),
                Err(_) => false,
            },
    ;

    /// Reads 16 bytes and treats them as an `u128` in little endian byte order.
    fn read_u128_le(&mut self) -> (r: Result<u128, RwError>)
        ensures
            match r {
                Ok(v) => read_exact_post(old(self).remaining(), final(self).remaining(), 16, true)
                    && v as nat == le_value(old(self).remaining().take(16)),
                Err(RwError::IoFailure) => read_exact_post(
                    old(self).remaining(),
                    final(self).remaining(),
                    16,
                    false,
                ),
                Err(_) => false,
            },
    ;

    /// Reads 16 bytes and treats them as an `u128` in big endian byte order.
    fn read_u128_be(&mut self) -> (r: Result<u128, RwError>)
        ensures
            match r {
                Ok(v) => read_exact_post(old(self).remaining(), final(self).remaining(), 16, true)
                    && v as nat == be_value(old(self).remaining().take(16)),
                Err(RwError::IoFailure) => read_exact_post(
                    old(self).remaining(),
                    final(self).remaining(),
                    16,
                    false,
                ),
                Err(_) => false,
            },
    ;

    /// Reads 16 bytes and treats them as an `u128` in native byte order.
    fn read_u128_ne(&mut self) -> (r: Result<u128, RwError>)
        ensures
            match r {
                Ok(v) => read_exact_post(old(self).remaining(), final(self).remaining(), 16, true)
                    && (v as nat == le_value(old(self).remaining().take(16)) || v as nat == be_value(old(self).remaining().take(16))),
                Err(RwError::IoFailure) => read_exact_post(
                    old(self).remaining(),
                    final(self).remaining(),
                    16,
                    false,
                ),
                Err(_) => false,
            },
    ;

    /// Reads 16 bytes and treats them as an `i128` in little endian byte order.
    fn read_i128_le(&mut self) -> (r: Result<i128, RwError>)
        ensures
            match r {
                Ok(v) => read_exact_post(old(self).remaining(), final(self).remaining(), 16, true)
                    && v as int == from_bits_signed(le_value(old(self).remaining().take(16)), 128),
                Err(RwError::IoFailure) => read_exact_post(
                    old(self).remaining(),
                    final(self).remaining(),
                    16,
                    false,
                ),
                Err(_) => false,
            },
    ;

    /// Reads 16 bytes and treats them as an `i128` in big endian byte order.
    fn read_i128_be(&mut self) -> (r: Result<i128, RwError>)
        ensures
            match r {
                Ok(v) => read_exact_post(old(self).remaining(), final(self).remaining(), 16, true)
                    && v as int == from_bits_signed(be_value(old(self).remaining().take(16)), 128),
                Err(RwError::IoFailure) => read_exact_post(
                    old(self).remaining(),
                    final(self).remaining(),
                    16,
                    false,
                ),
                Err(_) => false,
            },
    ;

    /// Reads 16 bytes and treats them as an `i128` in native byte order.
    fn read_i128_ne(&mut self) -> (r: Result<i128, RwError>)
        ensures
            match r {
                Ok(v) => read_exact_post(old(self).remaining(), final(self).remaining(), 16, true)
                    && (v as int == from_bits_signed(le_value(old(self).remaining().take(16)), 128) || v as int == from_bits_signed(be_value(old(self).remaining().take(16)), 128)),
                Err(RwError::IoFailure) => read_exact_post(
                    old(self).remaining(),
                    final(self).remaining(),
                    16,
                    false,
                ),
                Err(_) => false,
            },
    ;

    /// Reads exactly enough bytes to fill the slice.
    fn read_u8_slice(&mut self, slice: &mut [u8]) -> (r: Result<(), RwError>)
        ensures
            match r {
                Ok(_) => read_exact_post(
                    old(self).remaining(),
                    final(self).remaining(),
                    old(slice)@.len(),
                    true,
                ) && final(slice)@ == old(self).remaining().take(old(slice)@.len() as int),
                Err(RwError::IoFailure) => read_exact_post(
                    old(self).remaining(),
                    final(self).remaining(),
                    old(slice)@.len(),
                    false,
                ) && final(slice)@ == old(slice)@,
                Err(_) => false,
            },
    ;

    /// Reads exactly enough bytes to fill the slice, two's complement.
    fn read_i8_slice(&mut self, slice: &mut [i8]) -> (r: Result<(), RwError>)
        ensures
            match r {
                Ok(_) => read_exact_post(
                    old(self).remaining(),
                    final(self).remaining(),
                    old(slice)@.len(),
                    true,
                ) && final(slice)@.len() == old(slice)@.len() && (forall|j: int|
                    0 <= j < old(slice)@.len() ==> #[trigger] final(slice)@[j] as int
                        == from_bits_signed(old(self).remaining()[j] as nat, 8)),
                Err(RwError::IoFailure) => read_exact_post(
                    old(self).remaining(),
                    final(self).remaining(),
                    old(slice)@.len(),
                    false,
                ) && final(slice)@ == old(slice)@,
                Err(_) => false,
            },
    ;

    /// Reads the given number of bytes into a fresh buffer.
    fn read_u8_vec(&mut self, size: usize) -> (r: Result<Vec<u8>, RwError>)
        ensures
            match r {
                Ok(v) => read_exact_post(
                    old(self).remaining(),
                    final(self).remaining(),
                    size as nat,
                    true,
                ) && v@ == old(self).remaining().take(size as int),
                Err(RwError::IoFailure) => read_exact_post(
                    old(self).remaining(),
                    final(self).remaining(),
                    size as nat,
                    false,
                ),
                Err(_) => false,
            },
    ;

    /// Reads the given number of bytes into a fresh buffer, two's
    /// complement.
    fn read_i8_vec(&mut self, size: usize) -> (r: Result<Vec<i8>, RwError>)
        ensures
            match r {
                Ok(v) => read_exact_post(
                    old(self).remaining(),
                    final(self).remaining(),
                    size as nat,
                    true,
                ) && v@.len() == size && (forall|j: int|
                    0 <= j < size ==> #[trigger] v@[j] as int == from_bits_signed(
                        old(self).remaining()[j] as nat,
                        8,
                    )),
                Err(RwError::IoFailure) => read_exact_post(
                    old(self).remaining(),
                    final(self).remaining(),
                    size as nat,
                    false,
                ),
                Err(_) => false,
            },
    ;
}

impl<S: ByteSource> NumRead for S {
    fn read_bool(&mut self) -> (r: Result<bool, RwError>) {
        let bytes = match read_exact_bytes(self, 1) {
            Ok(b) => b,
            Err(e) => {
                return Err(e);
            },
        };
        proof {
            assert(bytes@[0] == old(self).remaining()[0]);
        }
        Ok(bytes[0] != 0)
    }

    fn read_u8(&mut self) -> (r: Result<u8, RwError>) {
        let bytes = match read_exact_bytes(self, 1) {
            Ok(b) => b,
            Err(e) => {
                return Err(e);
            },
        };
        proof {
            assert(bytes@[0] == old(self).remaining()[0]);
        }
        Ok(bytes[0])
    }

    fn read_i8(&mut self) -> (r: Result<i8, RwError>) {
        let bytes = match read_exact_bytes(self, 1) {
            Ok(b) => b,
            Err(e) => {
                return Err(e);
            },
        };
        let b = bytes[0];
        proof {
            assert(bytes@[0] == old(self).remaining()[0]);
            lemma2_to64();
        }
        if b < 128 {
            Ok(b as i8)
        } else {
            Ok(-((255 - b) as i8) - 1)
        }
    }

    fn read_u16_le(&mut self) -> (r: Result<u16, RwError>) {
        let bytes = match read_exact_bytes(self, 2) {
            Ok(b) => b,
            Err(e) => {
                return Err(e);
            },
        };
        let v = le_from_bytes(&bytes);
        proof {
            lemma_le_value_bound(bytes@);
            lemma2_to64();
            
        }
        Ok(v as u16)
    }

    fn read_u16_be(&mut self) -> (r: Result<u16, RwError>) {
        let bytes = match read_exact_bytes(self, 2) {
            Ok(b) => b,
            Err(e) => {
                return Err(e);
            },
        };
        let v = be_from_bytes(&bytes);
        proof {
            lemma_le_value_bound(bytes@.reverse());
            lemma2_to64();
            
        }
        Ok(v as u16)
    }

    fn read_u16_ne(&mut self) -> (r: Result<u16, RwError>) {
        if native_is_little_endian() {
            self.read_u16_le()
        } else {
            self.read_u16_be()
        }
    }

    fn read_i16_le(&mut self) -> (r: Result<i16, RwError>) {
        let bytes = match read_exact_bytes(self, 2) {
            Ok(b) => b,
            Err(e) => {
                return Err(e);
            },
        };
        let u = le_from_bytes(&bytes);
        proof {
            lemma_le_value_bound(bytes@);
            lemma2_to64();
            
        }
        let v = to_signed_i128(u, 0xFFFF, Ghost(16));
        proof {
            assert(pow2(16) == 2 * pow2(15)) by {
                lemma_pow2_adds(1, 15);
                lemma2_to64();
            }
        }
        Ok(v as i16)
    }

    fn read_i16_be(&mut self) -> (r: Result<i16, RwError>) {
        let bytes = match read_exact_bytes(self, 2) {
            Ok(b) => b,
            Err(e) => {
                return Err(e);
            },
        };
        let u = be_from_bytes(&bytes);
        proof {
            lemma_le_value_bound(bytes@.reverse());
            lemma2_to64();
            
        }
        let v = to_signed_i128(u, 0xFFFF, Ghost(16));
        proof {
            assert(pow2(16) == 2 * pow2(15)) by {
                lemma_pow2_adds(1, 15);
                lemma2_to64();
            }
        }
        Ok(v as i16)
    }

    fn read_i16_ne(&mut self) -> (r: Result<i16, RwError>) {
        if native_is_little_endian() {
            self.read_i16_le()
        } else {
            self.read_i16_be()
        }
    }

    fn read_u32_le(&mut self) -> (r: Result<u32, RwError>) {
        let bytes = match read_exact_bytes(self, 4) {
            Ok(b) => b,
            Err(e) => {
                return Err(e);
            },
        };
        let v = le_from_bytes(&bytes);
        proof {
            lemma_le_value_bound(bytes@);
            lemma2_to64();
            
        }
        Ok(v as u32)
    }

    fn read_u32_be(&mut self) -> (r: Result<u32, RwError>) {
        let bytes = match read_exact_bytes(self, 4) {
            Ok(b) => b,
            Err(e) => {
                return Err(e);
            },
        };
        let v = be_from_bytes(&bytes);
        proof {
            lemma_le_value_bound(bytes@.reverse());
            lemma2_to64();
            
        }
        Ok(v as u32)
    }

    fn read_u32_ne(&mut self) -> (r: Result<u32, RwError>) {
        if native_is_little_endian() {
            self.read_u32_le()
        } else {
            self.read_u32_be()
        }
    }

    fn read_i32_le(&mut self) -> (r: Result<i32, RwError>) {
        let bytes = match read_exact_bytes(self, 4) {
            Ok(b) => b,
            Err(e) => {
                return Err(e);
            },
        };
        let u = le_from_bytes(&bytes);
        proof {
            lemma_le_value_bound(bytes@);
            lemma2_to64();
            
        }
        let v = to_signed_i128(u, 0xFFFF_FFFF, Ghost(32));
        proof {
            assert(pow2(32) == 2 * pow2(31)) by {
                lemma_pow2_adds(1, 31);
                lemma2_to64();
            }
        }
        Ok(v as i32)
    }

    fn read_i32_be(&mut self) -> (r: Result<i32, RwError>) {
        let bytes = match read_exact_bytes(self, 4) {
            Ok(b) => b,
            Err(e) => {
                return Err(e);
            },
        };
        let u = be_from_bytes(&bytes);
        proof {
            lemma_le_value_bound(bytes@.reverse());
            lemma2_to64();
            
        }
        let v = to_signed_i128(u, 0xFFFF_FFFF, Ghost(32));
        proof {
            assert(pow2(32) == 2 * pow2(31)) by {
                lemma_pow2_adds(1, 31);
                lemma2_to64();
            }
        }
        Ok(v as i32)
    }

    fn read_i32_ne(&mut self) -> (r: Result<i32, RwError>) {
        if native_is_little_endian() {
            self.read_i32_le()
        } else {
            self.read_i32_be()
        }
    }

    fn read_u64_le(&mut self) -> (r: Result<u64, RwError>) {
        let bytes = match read_exact_bytes(self, 8) {
            Ok(b) => b,
            Err(e) => {
                return Err(e);
            },
        };
        let v = le_from_bytes(&bytes);
        proof {
            lemma_le_value_bound(bytes@);
            lemma2_to64();
            lemma2_to64_rest();
                    
        }
        Ok(v as u64)
    }

    fn read_u64_be(&mut self) -> (r: Result<u64, RwError>) {
        let bytes = match read_exact_bytes(self, 8) {
            Ok(b) => b,
            Err(e) => {
                return Err(e);
            },
        };
        let v = be_from_bytes(&bytes);
        proof {
            lemma_le_value_bound(bytes@.reverse());
            lemma2_to64();
            lemma2_to64_rest();
                    
        }
        Ok(v as u64)
    }

    fn read_u64_ne(&mut self) -> (r: Result<u64, RwError>) {
        if native_is_little_endian() {
            self.read_u64_le()
        } else {
            self.read_u64_be()
        }
    }

    fn read_i64_le(&mut self) -> (r: Result<i64, RwError>) {
        let bytes = match read_exact_bytes(self, 8) {
            Ok(b) => b,
            Err(e) => {
                return Err(e);
            },
        };
        let u = le_from_bytes(&bytes);
        proof {
            lemma_le_value_bound(bytes@);
            lemma2_to64();
            lemma2_to64_rest();
                    
        }
        let v = to_signed_i128(u, 0xFFFF_FFFF_FFFF_FFFF, Ghost(64));
        proof {
            assert(pow2(64) == 2 * pow2(63)) by {
                lemma_pow2_adds(1, 63);
                lemma2_to64();
            }
        }
        Ok(v as i64)
    }

    fn read_i64_be(&mut self) -> (r: Result<i64, RwError>) {
        let bytes = match read_exact_bytes(self, 8) {
            Ok(b) => b,
            Err(e) => {
                return Err(e);
            },
        };
        let u = be_from_bytes(&bytes);
        proof {
            lemma_le_value_bound(bytes@.reverse());
            lemma2_to64();
            lemma2_to64_rest();
                    
        }
        let v = to_signed_i128(u, 0xFFFF_FFFF_FFFF_FFFF, Ghost(64));
        proof {
            assert(pow2(64) == 2 * pow2(63)) by {
                lemma_pow2_adds(1, 63);
                lemma2_to64();
            }
        }
        Ok(v as i64)
    }

    fn read_i64_ne(&mut self) -> (r: Result<i64, RwError>) {
        if native_is_little_endian() {
            self.read_i64_le()
        } else {
            self.read_i64_be()
        }
    }

    fn read_u128_le(&mut self) -> (r: Result<u128, RwError>) {
        let bytes = match read_exact_bytes(self, 16) {
            Ok(b) => b,
            Err(e) => {
                return Err(e);
            },
        };
        let v = le_from_bytes(&bytes);
        proof {
            lemma_le_value_bound(bytes@);
            lemma2_to64();
            crate::arith::lemma_pow2_128();
                    lemma_pow2_adds(64, 63);
                    lemma2_to64_rest();
                    
        }
        Ok(v as u128)
    }

    fn read_u128_be(&mut self) -> (r: Result<u128, RwError>) {
        let bytes = match read_exact_bytes(self, 16) {
            Ok(b) => b,
            Err(e) => {
                return Err(e);
            },
        };
        let v = be_from_bytes(&bytes);
        proof {
            lemma_le_value_bound(bytes@.reverse());
            lemma2_to64();
            crate::arith::lemma_pow2_128();
                    lemma_pow2_adds(64, 63);
                    lemma2_to64_rest();
                    
        }
        Ok(v as u128)
    }

    fn read_u128_ne(&mut self) -> (r: Result<u128, RwError>) {
        if native_is_little_endian() {
            self.read_u128_le()
        } else {
            self.read_u128_be()
        }
    }

    fn read_i128_le(&mut self) -> (r: Result<i128, RwError>) {
        let bytes = match read_exact_bytes(self, 16) {
            Ok(b) => b,
            Err(e) => {
                return Err(e);
            },
        };
        let u = le_from_bytes(&bytes);
        proof {
            lemma_le_value_bound(bytes@);
            lemma2_to64();
            crate::arith::lemma_pow2_128();
                    lemma_pow2_adds(64, 63);
                    lemma2_to64_rest();
                    
        }
        let v = to_signed_i128(u, u128::MAX, Ghost(128));
        proof {
            assert(pow2(128) == 2 * pow2(127)) by {
                lemma_pow2_adds(1, 127);
                lemma2_to64();
            }
        }
        Ok(v as i128)
    }

    fn read_i128_be(&mut self) -> (r: Result<i128, RwError>) {
        let bytes = match read_exact_bytes(self, 16) {
            Ok(b) => b,
            Err(e) => {
                return Err(e);
            },
        };
        let u = be_from_bytes(&bytes);
        proof {
            lemma_le_value_bound(bytes@.reverse());
            lemma2_to64();
            crate::arith::lemma_pow2_128();
                    lemma_pow2_adds(64, 63);
                    lemma2_to64_rest();
                    
        }
        let v = to_signed_i128(u, u128::MAX, Ghost(128));
        proof {
            assert(pow2(128) == 2 * pow2(127)) by {
                lemma_pow2_adds(1, 127);
                lemma2_to64();
            }
        }
        Ok(v as i128)
    }

    fn read_i128_ne(&mut self) -> (r: Result<i128, RwError>) {
        if native_is_little_endian() {
            self.read_i128_le()
        } else {
            self.read_i128_be()
        }
    }

    fn read_u8_slice(&mut self, slice: &mut [u8]) -> (r: Result<(), RwError>) {
        let ghost s0 = old(self).remaining();
        let n = slice.len();
        let bytes = match read_exact_bytes(self, n) {
            Ok(b) => b,
            Err(e) => {
                return Err(e);
            },
        };
        let mut i: usize = 0;
        while i < n
            invariant
                n == old(slice)@.len(),
                bytes@.len() == n,
                bytes@ == s0.take(n as int),
                i <= n,
                slice@.len() == n,
                forall|j: int| 0 <= j < i ==> #[trigger] slice@[j] == bytes@[j],
            decreases n - i,
        {
            slice[i] = bytes[i];
            i = i + 1;
        }
        proof {
            assert(slice@ =~= s0.take(n as int));
        }
        Ok(())
    }

    fn read_i8_slice(&mut self, slice: &mut [i8]) -> (r: Result<(), RwError>) {
        let ghost s0 = old(self).remaining();
        let n = slice.len();
        let bytes = match read_exact_bytes(self, n) {
            Ok(b) => b,
            Err(e) => {
                return Err(e);
            },
        };
        let mut i: usize = 0;
        while i < n
            invariant
                n == old(slice)@.len(),
                n <= s0.len(),
                bytes@.len() == n,
                bytes@ == s0.take(n as int),
                i <= n,
                slice@.len() == n,
                forall|j: int|
                    0 <= j < i ==> #[trigger] slice@[j] as int == from_bits_signed(
                        s0[j] as nat,
                        8,
                    ),
            decreases n - i,
        {
            proof {
                assert(bytes@[i as int] == s0[i as int]);
            }
            slice[i] = u8_to_i8(bytes[i]);
            i = i + 1;
        }
        Ok(())
    }

    fn read_u8_vec(&mut self, size: usize) -> (r: Result<Vec<u8>, RwError>) {
        read_exact_bytes(self, size)
    }

    fn read_i8_vec(&mut self, size: usize) -> (r: Result<Vec<i8>, RwError>) {
        let ghost s0 = old(self).remaining();
        let bytes = match read_exact_bytes(self, size) {
            Ok(b) => b,
            Err(e) => {
                return Err(e);
            },
        };
        let mut out: Vec<i8> = Vec::new();
        let mut i: usize = 0;
        while i < size
            invariant
                size <= s0.len(),
                bytes@.len() == size,
                bytes@ == s0.take(size as int),
                i <= size,
                out@.len() == i,
                forall|j: int|
                    0 <= j < i ==> #[trigger] out@[j] as int == from_bits_signed(s0[j] as nat, 8),
            decreases size - i,
        {
            proof {
                assert(bytes@[i as int] == s0[i as int]);
            }
            out.push(u8_to_i8(bytes[i]));
            i = i + 1;
        }
        Ok(out)
    }
}

} // verus!
