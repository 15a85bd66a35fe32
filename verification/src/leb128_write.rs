//! Writing LEB128 encoded numbers to a byte sink: fixed widths of 16, 32,
//! 64 and 128 bits, signed and unsigned, and the arbitrary-width mode that
//! encodes a little-endian byte buffer.
use vstd::arithmetic::div_mod::*;
use vstd::arithmetic::mul::*;
use vstd::arithmetic::power2::*;
use vstd::prelude::*;

use crate::arith::{pow2_mask_u128, pow2_u64};
use crate::byte_sink::ByteSink;
use crate::leb128_spec::{
    forced_signed, large_write_post, le_signed, le_value, lemma_forced_trim, lemma_le_value_append,
    lemma_le_value_bound, lemma_le_value_drop_zero, lemma_le_value_singleton, lemma_pump_flush,
    lemma_raw_groups_len, lemma_raw_groups_mod, lemma_raw_groups_take, lemma_sleb_groups_split,
    lemma_uleb_groups_split, pump_windows, raw_groups, signed_filler, sink_write_post,
    sleb_fixed_groups, sleb_groups, to_bits, trimmed_len, uleb_groups,
};
use crate::RwError;

verus! {

/// Encode an unsigned value as its canonical (minimal) LEB128 group
/// sequence: seven bits per group, least significant first.
pub fn write_leb128_unsigned<S: ByteSink>(sink: &mut S, value: u128) -> (r: Result<(), RwError>)
    ensures
        sink_write_post(
            old(sink).accepted(),
            final(sink).accepted(),
            uleb_groups(value as nat),
            r,
        ),
        final(sink).infallible() == old(sink).infallible(),
        old(sink).infallible() ==> r is Ok,
{
    let ghost a0 = old(sink).accepted();
    let ghost target = uleb_groups(value as nat);
    let mut acc = value;
    let ghost mut done: Seq<u8> = Seq::empty();
    proof {
        assert(a0 + done =~= a0);
    }
    loop
        invariant
            sink.accepted() == a0 + done,
            target == done + uleb_groups(acc as nat),
            sink.infallible() == old(sink).infallible(),
            old(sink).accepted() == a0,
            target == uleb_groups(value as nat),
        decreases acc,
    {
        let p = (acc % 128) as u8;
        let rest = acc / 128;
        if rest == 0 {
            proof {
                assert(uleb_groups(acc as nat) =~= seq![p]);
            }
            match sink.write_byte(p) {
                Ok(_) => {
                    proof {
                        assert(final(sink).accepted() =~= a0 + target);
                    }
                    return Ok(());
                },
                Err(e) => {
                    proof {
                        lemma_write_prefix_witness(a0, sink.accepted(), done, target);
                    }
                    return Err(RwError::IoFailure);
                },
            }
        }
        let b = p + 128;
        proof {
            assert(acc >= 128) by {
                lemma_small_div_converse(acc as int, 128);
            }
            assert(uleb_groups(acc as nat) == seq![b] + uleb_groups(rest as nat));
        }
        match sink.write_byte(b) {
            Ok(_) => {
                proof {
                    done = done.push(b);
                    assert(sink.accepted() =~= a0 + done);
                    assert(target =~= done + uleb_groups(rest as nat));
                }
            },
            Err(e) => {
                proof {
                    lemma_write_prefix_witness(a0, sink.accepted(), done, target);
                }
                return Err(RwError::IoFailure);
            },
        }
        proof {
            lemma_div_is_strictly_smaller(acc as int, 128);
        }
        acc = rest;
    }
}

/// Encode the `width`-bit two's complement pattern `bits` as a signed
/// LEB128 group sequence: a group is terminal once the remaining pattern is
/// pure sign extension or the bit budget runs out.
pub fn write_leb128_signed<S: ByteSink>(sink: &mut S, bits: u128, width: u32) -> (r: Result<
    (),
    RwError,
>)
    requires
        1 <= width <= 128,
        (bits as nat) < pow2(width as nat),
    ensures
        sink_write_post(
            old(sink).accepted(),
            final(sink).accepted(),
            sleb_fixed_groups(bits as nat, width as nat),
            r,
        ),
        final(sink).infallible() == old(sink).infallible(),
        old(sink).infallible() ==> r is Ok,
{
    let ghost a0 = old(sink).accepted();
    let ghost target = sleb_fixed_groups(bits as nat, width as nat);
    let mut acc = bits;
    let mut wrem = width;
    let ghost mut done: Seq<u8> = Seq::empty();
    proof {
        assert(a0 + done =~= a0);
    }
    loop
        invariant
            1 <= wrem <= 128,
            (acc as nat) < pow2(wrem as nat),
            sink.accepted() == a0 + done,
            target == done + sleb_fixed_groups(acc as nat, wrem as nat),
            sink.infallible() == old(sink).infallible(),
            old(sink).accepted() == a0,
            target == sleb_fixed_groups(bits as nat, width as nat),
        decreases wrem,
    {
        let p = (acc % 128) as u8;
        let rest = acc / 128;
        let terminal: bool = if wrem <= 7 {
            true
        } else {
            let mask = pow2_mask_u128(wrem - 7);
            (p >= 64 && rest == mask) || (p < 64 && rest == 0)
        };
        if terminal {
            proof {
                assert(sleb_fixed_groups(acc as nat, wrem as nat) =~= seq![p]);
            }
            match sink.write_byte(p) {
                Ok(_) => {
                    proof {
                        assert(final(sink).accepted() =~= a0 + target);
                    }
                    return Ok(());
                },
                Err(e) => {
                    proof {
                        lemma_write_prefix_witness(a0, sink.accepted(), done, target);
                    }
                    return Err(RwError::IoFailure);
                },
            }
        }
        let b = p + 128;
        proof {
            assert(wrem > 7);
            assert(sleb_fixed_groups(acc as nat, wrem as nat) == seq![b] + sleb_fixed_groups(
                rest as nat,
                (wrem - 7) as nat,
            ));
            assert((rest as nat) < pow2((wrem - 7) as nat)) by {
                crate::arith::lemma_pow2_mask_split(wrem as nat, 7);
                lemma_pow2_adds((wrem - 7) as nat, 7);
                lemma2_to64();
                lemma_div_is_ordered(acc as int, pow2(wrem as nat) - 1, 128);
                assert((pow2(wrem as nat) - 1) / pow2(7) as int == pow2((wrem - 7) as nat) - 1)
                    by {
                    crate::arith::lemma_pow2_mask_split(wrem as nat, 7);
                }
            }
        }
        match sink.write_byte(b) {
            Ok(_) => {
                proof {
                    done = done.push(b);
                    assert(sink.accepted() =~= a0 + done);
                    assert(target =~= done + sleb_fixed_groups(rest as nat, (wrem - 7) as nat));
                }
            },
            Err(e) => {
                proof {
                    lemma_write_prefix_witness(a0, sink.accepted(), done, target);
                }
                return Err(RwError::IoFailure);
            },
        }
        acc = rest;
        wrem = wrem - 7;
    }
}

/// Write one full 56-bit window as eight continuation groups.
fn write_leb128_window<S: ByteSink>(sink: &mut S, acc: u64) -> (r: Result<(), RwError>)
    ensures
        sink_write_post(old(sink).accepted(), final(sink).accepted(), raw_groups(acc as nat, 8), r),
        final(sink).infallible() == old(sink).infallible(),
        old(sink).infallible() ==> r is Ok,
{
    let ghost a0 = old(sink).accepted();
    let ghost target = raw_groups(acc as nat, 8);
    let mut a = acc;
    let mut j: u32 = 0;
    let ghost mut done: Seq<u8> = Seq::empty();
    proof {
        assert(a0 + done =~= a0);
    }
    while j < 8
        invariant
            j <= 8,
            sink.accepted() == a0 + done,
            target == done + raw_groups(a as nat, (8 - j) as nat),
            sink.infallible() == old(sink).infallible(),
            old(sink).accepted() == a0,
            target == raw_groups(acc as nat, 8),
        decreases 8 - j,
    {
        let b = (a % 128) as u8 + 128;
        proof {
            assert(raw_groups(a as nat, (8 - j) as nat) == seq![b] + raw_groups(
                (a / 128) as nat,
                (8 - j - 1) as nat,
            ));
        }
        match sink.write_byte(b) {
            Ok(_) => {
                proof {
                    done = done.push(b);
                    assert(sink.accepted() =~= a0 + done);
                    assert(target =~= done + raw_groups((a / 128) as nat, (8 - j - 1) as nat));
                }
            },
            Err(e) => {
                proof {
                    lemma_write_prefix_witness(a0, sink.accepted(), done, target);
                }
                return Err(RwError::IoFailure);
            },
        }
        a = a / 128;
        j = j + 1;
    }
    proof {
        assert(raw_groups(a as nat, 0) =~= Seq::<u8>::empty());
        assert(target =~= done);
        assert(sink.accepted() =~= a0 + target);
    }
    Ok(())
}

/// Pump the significant bytes of a little-endian buffer through the 56-bit
/// accumulation window, writing each full window as eight continuation
/// groups, and hand back the leftover window and its bit count.
#[verifier::loop_isolation(false)]
#[verifier::rlimit(60)]
pub fn pump_leb128_data<T: ByteSink>(s: &mut T, value: &Vec<u8>, last: usize) -> (r: Result<
    (u64, usize),
    RwError,
>)
    requires
        last <= value@.len(),
    ensures
        final(s).infallible() == old(s).infallible(),
        old(s).infallible() ==> r is Ok,
        ({
            let f = pump_windows(last as nat);
            let gs = raw_groups(le_value(value@.take((7 * f) as int)), 8 * f);
            match r {
                Ok((acc, size)) => final(s).accepted() == old(s).accepted() + gs && size as nat == 8
                    * ((last - 7 * f) as nat) && acc as nat == le_value(
                    value@.subrange((7 * f) as int, last as int),
                ) && (acc as nat) < pow2((8 * (last - 7 * f)) as nat) && last as nat - 7 * f <= 7,
                Err(RwError::IoFailure) => exists|j: int|
                    0 <= j <= gs.len() && final(s).accepted() == old(s).accepted() + #[trigger] gs.take(
                        j,
                    ),
                Err(_) => false,
            }
        }),
{
    let ghost a0 = old(s).accepted();
    let ghost vs = value@;
    let ghost ffin = pump_windows(last as nat);
    let mut acc: u64 = 0;
    let mut size: usize = 0;
    let mut i: usize = 0;
    let ghost mut f: nat = 0;
    proof {
        lemma_pow2_pos(0);
        assert(vs.take(0) =~= Seq::<u8>::empty());
        assert(vs.subrange(0, 0) =~= Seq::<u8>::empty());
        assert(raw_groups(le_value(vs.take(0)), 0) =~= Seq::<u8>::empty());
        assert(a0 + Seq::<u8>::empty() =~= a0);
    }
    while i < last
        invariant
            7 * f <= i,
            i <= 7 * f + 7,
            i <= last,
            i > 0 ==> 7 * f < i,
            size == 8 * ((i - 7 * f) as nat),
            acc as nat == le_value(vs.subrange((7 * f) as int, i as int)),
            s.accepted() == a0 + raw_groups(le_value(vs.take((7 * f) as int)), 8 * f),
            s.infallible() == old(s).infallible(),
        decreases last - i,
    {
        if size >= 56 {
            proof {
                assert(i == 7 * f + 7);
            }
            let ghost gsf = raw_groups(le_value(vs.take((7 * f) as int)), 8 * f);
            match write_leb128_window(s, acc) {
                Ok(_) => {
                    proof {
                        lemma_pump_flush(vs, f);
                        f = f + 1;
                        assert(s.accepted() =~= a0 + raw_groups(
                            le_value(vs.take((7 * f) as int)),
                            8 * f,
                        ));
                        assert(vs.subrange((7 * f) as int, i as int) =~= Seq::<u8>::empty());
                    }
                    acc = 0;
                    size = 0;
                },
                Err(_) => {
                    proof {
                        let wg = raw_groups(acc as nat, 8);
                        let j = choose|j: int|
                            0 <= j <= wg.len() && s.accepted() == (a0 + gsf) + #[trigger] wg.take(
                                j,
                            );
                        lemma_pump_flush(vs, f);
                        // this flush is not the last window: the byte at `i`
                        // is still to come
                        assert(f + 1 <= ffin) by {
                            lemma_div_is_ordered((7 * (f + 1)) as int, (last - 1) as int, 7);
                            lemma_div_by_multiple((f + 1) as int, 7);
                        }
                        lemma_raw_groups_take(vs, f + 1, ffin);
                        assert(7 * ffin <= last - 1) by {
                            lemma_fundamental_div_mod((last - 1) as int, 7);
                        }
                        let gs = raw_groups(le_value(vs.take((7 * ffin) as int)), 8 * ffin);
                        lemma_raw_groups_len(
                            le_value(vs.take((7 * ffin) as int)),
                            8 * ffin,
                        );
                        lemma_raw_groups_len(
                            le_value(vs.take((7 * f) as int)),
                            8 * f,
                        );
                        lemma_raw_groups_len(
                            le_value(vs.take((7 * (f + 1)) as int)),
                            8 * (f + 1),
                        );
                        assert(gs.take((8 * (f + 1)) as int) == gsf + wg);
                        assert(gs.take(8 * f + j) =~= (gs.take((8 * (f + 1)) as int)).take(
                            8 * f + j,
                        ));
                        assert((gsf + wg).take(8 * f + j) =~= gsf + wg.take(j));
                        assert(s.accepted() == a0 + gs.take(8 * f + j));
                        assert(0 <= 8 * f + j <= gs.len());
                    }
                    return Err(RwError::IoFailure);
                },
            }
        }
        let b = value[i];
        proof {
            let cur = vs.subrange((7 * f) as int, i as int);
            assert(vs.subrange((7 * f) as int, (i + 1) as int) =~= cur + seq![b]);
            lemma_le_value_append(cur, seq![b]);
            lemma_le_value_singleton(b);
            lemma_le_value_bound(cur);
            assert(cur.len() == i - 7 * f);
            assert(8 * cur.len() == size);
            assert(b as nat * pow2(size as nat) <= 255 * pow2(size as nat)) by {
                lemma_mul_inequality(b as int, 255, pow2(size as nat) as int);
            }
            lemma_mul_is_commutative(pow2(size as nat) as int, b as int);
            assert(256 * pow2(size as nat) == pow2((size + 8) as nat)) by {
                lemma_pow2_adds(size as nat, 8);
                lemma2_to64();
            }
            assert(pow2((size + 8) as nat) <= pow2(56)) by {
                if size + 8 < 56 {
                    lemma_pow2_strictly_increases((size + 8) as nat, 56);
                }
            }
            lemma2_to64_rest();
        }
        let pw = pow2_u64(size as u32);
        acc = acc + (b as u64) * pw;
        size = size + 8;
        i = i + 1;
    }
    proof {
        if last == 0 {
            assert(f == 0 && ffin == 0);
        } else {
            assert(i == last && 1 <= last - 7 * f <= 7);
            assert(f == ffin) by {
                lemma_fundamental_div_mod_converse(
                    (last - 1) as int,
                    7,
                    f as int,
                    (last - 1 - 7 * f) as int,
                );
            }
        }
        lemma_le_value_bound(vs.subrange((7 * f) as int, last as int));
    }
    Ok((acc, size))
}

/// Encode a little-endian byte buffer, not necessarily canonical, as an
/// unsigned LEB128 group sequence: trailing zero bytes are trimmed, and the
/// rest is pumped through the 56-bit window. An empty buffer is refused
/// with `InvalidInput`.
#[verifier::loop_isolation(false)]
pub fn write_leb128_large_unsigned<S: ByteSink>(sink: &mut S, value: &Vec<u8>) -> (r: Result<
    (),
    RwError,
>)
    ensures
        large_write_post(
            old(sink).accepted(),
            final(sink).accepted(),
            uleb_groups(le_value(value@)),
            value@.len() == 0,
            r,
        ),
        final(sink).infallible() == old(sink).infallible(),
        old(sink).infallible() && value@.len() > 0 ==> r is Ok,
{
    if value.len() == 0 {
        return Err(RwError::InvalidInput);
    }
    let ghost a0 = old(sink).accepted();
    let ghost vs = value@;
    let ghost target = uleb_groups(le_value(vs));
    let mut last = value.len();
    proof {
        assert(vs.take(last as int) =~= vs);
    }
    while last > 0 && value[last - 1] == 0
        invariant
            last <= vs.len(),
            value@ == vs,
            le_value(vs) == le_value(vs.take(last as int)),
        decreases last,
    {
        proof {
            let cur = vs.take(last as int);
            assert(cur.last() == 0);
            lemma_le_value_drop_zero(cur);
            assert(cur.drop_last() =~= vs.take(last as int - 1));
        }
        last = last - 1;
    }
    if last == 0 {
        proof {
            assert(vs.take(0) =~= Seq::<u8>::empty());
            assert(le_value(vs) == 0);
        }
        return write_leb128_unsigned(sink, 0);
    }
    let ghost f = pump_windows(last as nat);
    let ghost gs = raw_groups(le_value(vs.take((7 * f) as int)), 8 * f);
    let ghost topv = le_value(vs.subrange((7 * f) as int, last as int));
    proof {
        lemma_large_unsigned_split(vs, last as nat);
    }
    let (acc, _size) = match pump_leb128_data(sink, value, last) {
        Ok(t) => t,
        Err(_) => {
            proof {
                let j = choose|j: int|
                    0 <= j <= gs.len() && sink.accepted() == a0 + #[trigger] gs.take(j);
                lemma_raw_groups_len(le_value(vs.take((7 * f) as int)), 8 * f);
                assert(target.take(j) =~= gs.take(j));
                assert(sink.accepted() == a0 + target.take(j));
            }
            return Err(RwError::IoFailure);
        },
    };
    match write_leb128_unsigned(sink, acc as u128) {
        Ok(_) => {
            proof {
                assert(final(sink).accepted() =~= a0 + target);
            }
            Ok(())
        },
        Err(_) => {
            proof {
                let tail = uleb_groups(topv);
                let j = choose|j: int|
                    0 <= j <= tail.len() && sink.accepted() == (a0 + gs) + #[trigger] tail.take(j);
                lemma_raw_groups_len(le_value(vs.take((7 * f) as int)), 8 * f);
                assert(target.take(gs.len() + j) =~= gs + tail.take(j));
                assert(sink.accepted() =~= a0 + target.take(gs.len() + j));
            }
            Err(RwError::IoFailure)
        },
    }
}

/// The canonical unsigned groups of a buffer split at its pumped windows:
/// the windows carry plain continuation groups, the rest encodes the top
/// window's value.
proof fn lemma_large_unsigned_split(vs: Seq<u8>, last: nat)
    requires
        1 <= last <= vs.len(),
        vs[last - 1] != 0,
        le_value(vs) == le_value(vs.take(last as int)),
    ensures
        ({
            let f = pump_windows(last);
            uleb_groups(le_value(vs)) == raw_groups(le_value(vs.take((7 * f) as int)), 8 * f)
                + uleb_groups(le_value(vs.subrange((7 * f) as int, last as int)))
        }),
{
    let f = pump_windows(last);
    assert(7 * f <= last - 1) by {
        lemma_fundamental_div_mod((last - 1) as int, 7);
    }
    let pre = vs.take((7 * f) as int);
    let top = vs.subrange((7 * f) as int, last as int);
    assert(vs.take(last as int) =~= pre + top);
    lemma_le_value_append(pre, top);
    let u = le_value(pre);
    let topv = le_value(top);
    let vv = le_value(vs);
    lemma_le_value_bound(pre);
    lemma_pow2_pos(8 * pre.len());
    assert(8 * pre.len() == 7 * (8 * f));
    // the top window is not zero: its last byte is not
    assert(topv >= 1) by {
        assert(top.last() == vs[last - 1]);
        assert(top =~= top.drop_last() + seq![top.last()]);
        lemma_le_value_append(top.drop_last(), seq![top.last()]);
        lemma_le_value_singleton(top.last());
        lemma_pow2_pos(8 * top.drop_last().len());
        lemma_mul_strictly_positive(
            pow2(8 * top.drop_last().len()) as int,
            top.last() as int,
        );
    }
    assert(vv % pow2(7 * (8 * f)) == u && vv / pow2(7 * (8 * f)) == topv) by {
        lemma_mul_is_commutative(pow2(8 * pre.len()) as int, topv as int);
        lemma_fundamental_div_mod_converse(
            vv as int,
            pow2(8 * pre.len()) as int,
            topv as int,
            u as int,
        );
    }
    lemma_uleb_groups_split(vv, 8 * f);
    lemma_raw_groups_mod(vv, 8 * f);
    lemma_raw_groups_mod(u, 8 * f);
    lemma_pow2_pos(7 * (8 * f));
    lemma_mod_twice(vv as int, pow2(7 * (8 * f)) as int);
    assert(raw_groups(vv, 8 * f) == raw_groups(u, 8 * f));
}

/// Encode a little-endian two's complement byte buffer as a signed LEB128
/// group sequence. The sign is the top bit of the last byte; redundant sign
/// bytes are trimmed, the rest is pumped through the 56-bit window, and the
/// final window is sign-extended. An empty buffer is refused with
/// `InvalidInput`.
#[verifier::loop_isolation(false)]
#[verifier::rlimit(100)]
pub fn write_leb128_large_signed<S: ByteSink>(sink: &mut S, value: &Vec<u8>) -> (r: Result<
    (),
    RwError,
>)
    ensures
        large_write_post(
            old(sink).accepted(),
            final(sink).accepted(),
            sleb_groups(le_signed(value@), 8 * trimmed_len(value@, signed_filler(value@))),
            value@.len() == 0,
            r,
        ),
        final(sink).infallible() == old(sink).infallible(),
        old(sink).infallible() && value@.len() > 0 ==> r is Ok,
{
    if value.len() == 0 {
        return Err(RwError::InvalidInput);
    }
    let ghost a0 = old(sink).accepted();
    let ghost vs = value@;
    let is_negative = value[value.len() - 1] >= 128;
    let filler: u8 = if is_negative {
        255
    } else {
        0
    };
    let ghost vv = le_signed(vs);
    proof {
        assert(filler == signed_filler(vs));
        assert(vv == forced_signed(vs, is_negative));
        lemma_forced_trim(vs, is_negative);
    }
    let ghost target = sleb_groups(vv, 8 * trimmed_len(vs, filler));
    let mut last = value.len();
    proof {
        assert(vs.take(last as int) =~= vs);
    }
    while last > 0 && value[last - 1] == filler
        invariant
            last <= vs.len(),
            value@ == vs,
            trimmed_len(vs, filler) == trimmed_len(vs.take(last as int), filler),
        decreases last,
    {
        proof {
            let cur = vs.take(last as int);
            assert(cur.last() == filler);
            assert(cur.drop_last() =~= vs.take(last as int - 1));
        }
        last = last - 1;
    }
    proof {
        if last > 0 {
            assert(vs.take(last as int).last() == vs[last - 1]);
        } else {
            assert(vs.take(0) =~= Seq::<u8>::empty());
        }
        assert(trimmed_len(vs, filler) == last);
    }
    if last == 0 {
        let b: u8 = if is_negative {
            0x7F
        } else {
            0
        };
        proof {
            assert(vs.take(0) =~= Seq::<u8>::empty());
            assert(le_value(Seq::<u8>::empty()) == 0);
            assert(pow2(0) == 1) by {
                lemma2_to64();
            }
            assert(vv == if is_negative {
                -1int
            } else {
                0int
            });
            assert(target =~= seq![b]);
        }
        match sink.write_byte(b) {
            Ok(_) => {
                proof {
                    assert(final(sink).accepted() =~= a0 + target);
                }
                return Ok(());
            },
            Err(_) => {
                proof {
                    assert(target.take(0) =~= Seq::<u8>::empty());
                    assert(sink.accepted() =~= a0 + target.take(0));
                }
                return Err(RwError::IoFailure);
            },
        }
    }
    let ghost f = pump_windows(last as nat);
    let ghost gs = raw_groups(le_value(vs.take((7 * f) as int)), 8 * f);
    let ghost rem: nat = (last as nat - 7 * f) as nat;
    let ghost vtop: int = le_value(vs.subrange((7 * f) as int, last as int)) - if is_negative {
        pow2(8 * rem) as int
    } else {
        0
    };
    proof {
        lemma_large_signed_split(vs, last as nat, is_negative);
    }
    let (acc, size) = match pump_leb128_data(sink, value, last) {
        Ok(t) => t,
        Err(_) => {
            proof {
                let j = choose|j: int|
                    0 <= j <= gs.len() && sink.accepted() == a0 + #[trigger] gs.take(j);
                lemma_raw_groups_len(le_value(vs.take((7 * f) as int)), 8 * f);
                assert(target.take(j) =~= gs.take(j));
                assert(sink.accepted() == a0 + target.take(j));
            }
            return Err(RwError::IoFailure);
        },
    };
    // sign-extend the leftover window through the 64-bit accumulator
    let acc_f: u64 = if is_negative {
        proof {
            assert(size <= 56);
            assert(pow2(size as nat) <= pow2(56)) by {
                if size < 56 {
                    lemma_pow2_strictly_increases(size as nat, 56);
                }
            }
            lemma2_to64_rest();
        }
        let pw = pow2_u64(size as u32);
        acc + (u64::MAX - pw + 1)
    } else {
        acc
    };
    proof {
        crate::arith::lemma_pow2_128();
        lemma_pow2_adds(64, 64);
        lemma2_to64();
        assert(pow2(64) == 0x10000000000000000);
        assert(acc_f as int == vtop % pow2(64) as int) by {
            if is_negative {
                lemma_mod_add_multiples_vanish(vtop, pow2(64) as int);
                lemma_small_mod((acc_f as u64) as nat, pow2(64));
            } else {
                lemma_small_mod(acc as nat, pow2(64));
            }
        }
    }
    // emit the final window under the canonical signed termination rule
    let mut a = acc_f;
    let mut cmp: u64 = u64::MAX;
    let mut sz = size;
    let ghost mut v: int = vtop;
    let ghost mut e: nat = 64;
    let ghost mut done: Seq<u8> = gs;
    let ghost d = 64 - 8 * rem;
    proof {
        assert(sink.accepted() == a0 + done);
        assert(target == done + sleb_groups(v, sz as nat));
    }
    loop
        invariant
            8 <= d <= 56,
            e == sz + d,
            sz % 7 == 8 * rem % 7,
            cmp as nat == pow2(e) - 1,
            a as int == v % pow2(e) as int,
            is_negative ==> -(pow2(sz as nat) as int) <= v < 0,
            !is_negative ==> 0 <= v < pow2(sz as nat),
            sink.accepted() == a0 + done,
            target == done + sleb_groups(v, sz as nat),
            sink.infallible() == old(sink).infallible(),
            old(sink).accepted() == a0,
        decreases sz,
    {
        proof {
            lemma_pow2_pos(e);
            lemma_pow2_pos((e - 7) as nat);
            lemma_pow2_pos(sz as nat);
            assert(pow2(e) == 128 * pow2((e - 7) as nat)) by {
                lemma_pow2_adds(7, (e - 7) as nat);
                lemma2_to64();
            }
        }
        let szn: usize = if sz >= 7 {
            sz - 7
        } else {
            0
        };
        let p = (a % 128) as u8;
        let ghost vn: int = v / 128;
        proof {
            // the payload is the low seven bits of the remaining value
            assert(p as int == v % 128) by {
                lemma_mod_mod(v, 128, pow2((e - 7) as nat) as int);
            }
            // and the shifted accumulator still tracks the shifted value
            let q = v / pow2(e) as int;
            lemma_fundamental_div_mod(v, pow2(e) as int);
            lemma_fundamental_div_mod(v, 128);
            assert(a as int == 128 * (vn - pow2((e - 7) as nat) * q) + p) by {
                lemma_mul_is_associative(128, pow2((e - 7) as nat) as int, q);
                lemma_mul_is_distributive_sub(128, vn, pow2((e - 7) as nat) * q);
            }
            assert(a as int / 128 == vn - pow2((e - 7) as nat) * q) by {
                lemma_fundamental_div_mod_converse(
                    a as int,
                    128,
                    vn - pow2((e - 7) as nat) * q,
                    p as int,
                );
            }
            assert((a as int / 128) == vn % pow2((e - 7) as nat) as int) by {
                lemma_mul_is_commutative(pow2((e - 7) as nat) as int, q);
                lemma_fundamental_div_mod_converse(
                    vn,
                    pow2((e - 7) as nat) as int,
                    q,
                    vn - pow2((e - 7) as nat) * q,
                );
            }
            assert(cmp as nat / 128 == pow2((e - 7) as nat) - 1) by {
                crate::arith::lemma_pow2_mask_split(e, 7);
            }
            // the value keeps its sign and shrinks with the budget
            if is_negative {
                assert(-(pow2((szn) as nat) as int) <= vn <= -1) by {
                    lemma_div_is_ordered(-(pow2(sz as nat) as int), v, 128);
                    lemma_div_is_ordered(v, -1, 128);
                    assert((-(pow2(sz as nat) as int)) / 128 >= -(pow2(szn as nat) as int)) by {
                        if sz >= 7 {
                            lemma_pow2_adds((sz - 7) as nat, 7);
                            lemma2_to64();
                            lemma_fundamental_div_mod_converse(
                                -(pow2(sz as nat) as int),
                                128,
                                -(pow2((sz - 7) as nat) as int),
                                0,
                            );
                        } else {
                            lemma_pow2_pos(szn as nat);
                            lemma_div_is_ordered(-(pow2(sz as nat) as int), -1, 128);
                            assert(pow2(sz as nat) <= 128) by {
                                lemma2_to64();
                                if sz < 7 {
                                    lemma_pow2_strictly_increases(sz as nat, 7);
                                }
                            }
                            lemma_fundamental_div_mod_converse(-128, 128, -1, 0);
                            lemma_div_is_ordered(-128, -(pow2(sz as nat) as int), 128);
                        }
                    }
                    assert((-1) / 128 == -1) by {
                        lemma_fundamental_div_mod_converse(-1, 128, -1, 127);
                    }
                }
            } else {
                assert(0 <= vn < pow2(szn as nat)) by {
                    lemma_div_pos_is_pos(v, 128);
                    lemma_div_is_ordered(v, pow2(sz as nat) - 1, 128);
                    assert((pow2(sz as nat) - 1) / 128 <= pow2(szn as nat) - 1) by {
                        if sz >= 7 {
                            crate::arith::lemma_pow2_mask_split(sz as nat, 7);
                        } else {
                            assert(pow2(sz as nat) <= 128) by {
                                lemma2_to64();
                                if sz < 7 {
                                    lemma_pow2_strictly_increases(sz as nat, 7);
                                }
                            }
                            lemma_pow2_pos(szn as nat);
                            lemma_div_is_ordered(pow2(sz as nat) - 1, 127, 128);
                            lemma_basic_div(127, 128);
                        }
                    }
                }
            }
        }
        a = a / 128;
        cmp = cmp / 128;
        if szn == 0 {
            proof {
                assert(sleb_groups(v, sz as nat) =~= seq![p]);
            }
            match sink.write_byte(p) {
                Ok(_) => {
                    proof {
                        assert(final(sink).accepted() =~= a0 + target);
                    }
                    return Ok(());
                },
                Err(_) => {
                    proof {
                        lemma_write_prefix_witness(a0, sink.accepted(), done, target);
                    }
                    return Err(RwError::IoFailure);
                },
            }
        }
        let terminal: bool = if is_negative {
            p >= 64 && a == cmp
        } else {
            p < 64 && a == 0
        };
        proof {
            // the accumulator tests decide exactly the canonical conditions
            if is_negative {
                assert((a == cmp) == (vn == -1)) by {
                    if vn == -1 {
                        lemma_mod_add_multiples_vanish(-1, pow2((e - 7) as nat) as int);
                        lemma_small_mod((pow2((e - 7) as nat) - 1) as nat, pow2((e - 7) as nat));
                    }
                    if a == cmp {
                        lemma_mod_add_multiples_vanish(vn, pow2((e - 7) as nat) as int);
                        assert(0 <= vn + pow2((e - 7) as nat) < pow2((e - 7) as nat)) by {
                            lemma_pow2_strictly_increases(szn as nat, (e - 7) as nat);
                        }
                        lemma_small_mod((vn + pow2((e - 7) as nat)) as nat, pow2((e - 7) as nat));
                    }
                }
                assert(!(p < 64 && vn == 0));
            } else {
                assert((a == 0) == (vn == 0)) by {
                    assert(vn < pow2((e - 7) as nat)) by {
                        lemma_pow2_strictly_increases(szn as nat, (e - 7) as nat);
                    }
                    lemma_small_mod(vn as nat, pow2((e - 7) as nat));
                }
                assert(!(p >= 64 && vn == -1));
            }
        }
        if terminal {
            proof {
                assert(sleb_groups(v, sz as nat) =~= seq![p]);
            }
            match sink.write_byte(p) {
                Ok(_) => {
                    proof {
                        assert(final(sink).accepted() =~= a0 + target);
                    }
                    return Ok(());
                },
                Err(_) => {
                    proof {
                        lemma_write_prefix_witness(a0, sink.accepted(), done, target);
                    }
                    return Err(RwError::IoFailure);
                },
            }
        }
        let b = p + 128;
        proof {
            assert(sleb_groups(v, sz as nat) == seq![b] + sleb_groups(vn, szn as nat));
        }
        match sink.write_byte(b) {
            Ok(_) => {
                proof {
                    done = done.push(b);
                    assert(sink.accepted() =~= a0 + done);
                    assert(target =~= done + sleb_groups(vn, szn as nat));
                }
            },
            Err(_) => {
                proof {
                    lemma_write_prefix_witness(a0, sink.accepted(), done, target);
                }
                return Err(RwError::IoFailure);
            },
        }
        proof {
            v = vn;
            e = (e - 7) as nat;
        }
        sz = szn;
    }
}

/// The signed groups of a buffer split at its pumped windows: the windows
/// carry plain continuation groups, the rest encodes the top window's
/// signed value.
proof fn lemma_large_signed_split(vs: Seq<u8>, last: nat, neg: bool)
    requires
        1 <= last <= vs.len(),
        vs[last - 1] != signed_filler(vs),
        neg == (vs.len() > 0 && vs.last() >= 128),
        trimmed_len(vs, signed_filler(vs)) == last,
    ensures
        ({
            let f = pump_windows(last);
            let rem = (last - 7 * f) as nat;
            let vtop = le_value(vs.subrange((7 * f) as int, last as int)) - if neg {
                pow2(8 * rem) as int
            } else {
                0
            };
            &&& sleb_groups(le_signed(vs), 8 * last) == raw_groups(
                le_value(vs.take((7 * f) as int)),
                8 * f,
            ) + sleb_groups(vtop, 8 * rem)
            &&& (neg ==> -(pow2(8 * rem) as int) <= vtop < 0)
            &&& (!neg ==> 0 <= vtop < pow2(8 * rem) as int)
        }),
{
    let f = pump_windows(last);
    let rem = (last - 7 * f) as nat;
    assert(7 * f <= last - 1 && 1 <= rem <= 7) by {
        lemma_fundamental_div_mod((last - 1) as int, 7);
    }
    let pre = vs.take((7 * f) as int);
    let top = vs.subrange((7 * f) as int, last as int);
    let u = le_value(pre);
    let topv = le_value(top);
    let vtop = topv - if neg {
        pow2(8 * rem) as int
    } else {
        0
    };
    let vv = le_signed(vs);
    lemma_forced_trim(vs, neg);
    assert(vv == forced_signed(vs.take(last as int), neg));
    assert(vs.take(last as int) =~= pre + top);
    lemma_le_value_append(pre, top);
    lemma_le_value_bound(pre);
    lemma_le_value_bound(top);
    lemma_pow2_pos(8 * pre.len());
    assert(8 * pre.len() == 7 * (8 * f) && 8 * pre.len() == 56 * f);
    assert(top.len() == rem);
    let pf = pow2(56 * f) as int;
    assert(vv == u + pf * vtop) by {
        if neg {
            assert(pow2(8 * (pre + top).len()) == pf * pow2(8 * rem)) by {
                lemma_pow2_adds(56 * f, 8 * rem);
            }
            assert(pf * topv - pf * pow2(8 * rem) == pf * vtop) by {
                lemma_mul_is_distributive_sub(pf, topv as int, pow2(8 * rem) as int);
            }
        }
    }
    // the significant top byte bounds the window's value away from the
    // redundant fillers
    assert(top.last() == vs[last - 1]);
    assert(top =~= top.drop_last() + seq![top.last()]);
    lemma_le_value_append(top.drop_last(), seq![top.last()]);
    lemma_le_value_singleton(top.last());
    lemma_le_value_bound(top.drop_last());
    let ptl = pow2(8 * top.drop_last().len()) as int;
    lemma_pow2_pos(8 * top.drop_last().len());
    assert(pow2(8 * rem) == 256 * ptl) by {
        lemma_pow2_adds(8 * (rem - 1) as nat, 8);
        lemma2_to64();
        lemma_mul_is_commutative(ptl, 256);
    }
    if neg {
        assert(top.last() <= 254);
        assert(topv <= ptl - 1 + ptl * 254) by {
            lemma_mul_inequality(top.last() as int, 254, ptl);
            lemma_mul_is_commutative(ptl, top.last() as int);
        }
        assert(vtop <= -(ptl + 1));
        assert(vv <= -(pf * ptl) - 1) by {
            assert(pf * vtop <= pf * (-(ptl + 1))) by {
                lemma_mul_inequality(vtop, -(ptl + 1), pf);
                lemma_mul_is_commutative(pf, vtop);
                lemma_mul_is_commutative(pf, -(ptl + 1));
            }
            assert(pf * (-(ptl + 1)) == -(pf * ptl) - pf) by {
                lemma_mul_is_distributive_add(pf, -ptl, -1);
                lemma_mul_unary_negation(pf, ptl);
            }
        }
        assert(pf * ptl >= pf * 1) by {
            lemma_mul_inequality(1, ptl, pf);
            lemma_mul_is_commutative(pf, ptl);
        }
        assert(vv + pow2(7 * (8 * f)) <= 0);
    } else {
        assert(top.last() >= 1);
        assert(topv >= ptl) by {
            lemma_mul_inequality(1, top.last() as int, ptl);
            lemma_mul_is_commutative(ptl, top.last() as int);
        }
        assert(vv >= pf * 1) by {
            assert(pf * vtop >= pf * 1) by {
                lemma_mul_inequality(1, vtop, pf);
                lemma_mul_is_commutative(pf, vtop);
            }
        }
        assert(vv >= pow2(7 * (8 * f)));
    }
    lemma_sleb_groups_split(vv, 8 * last, 8 * f);
    assert(8 * last - 7 * (8 * f) == 8 * rem);
    assert(vv % pf == u && vv / pf == vtop) by {
        lemma_mul_is_commutative(pf, vtop);
        lemma_fundamental_div_mod_converse(vv, pf, vtop, u as int);
    }
    lemma_raw_groups_mod((vv % pf) as nat, 8 * f);
    lemma_raw_groups_mod(u, 8 * f);
    assert(raw_groups((vv % pf) as nat, 8 * f) == raw_groups(u, 8 * f));
}

/// When the sink refuses a byte mid-sequence, what stands written is a
/// prefix of the intended group sequence.
proof fn lemma_write_prefix_witness(a0: Seq<u8>, a1: Seq<u8>, done: Seq<u8>, target: Seq<u8>)
    requires
        a1 == a0 + done,
        exists|tail: Seq<u8>| target == done + tail,
    ensures
        exists|j: int| 0 <= j <= target.len() && a1 == a0 + #[trigger] target.take(j),
{
    let tail = choose|tail: Seq<u8>| target == done + tail;
    assert(target.take(done.len() as int) =~= done);
    assert(a1 == a0 + target.take(done.len() as int));
}

/// Marker bound for the blanket implementation: every byte sink gets the
/// LEB128 writing methods.
pub trait Sealed {

}

impl<S: ByteSink> Sealed for S {

}

/// Methods to write LEB128 (little endian base 128) encoded numbers, given
/// to every byte sink.
pub trait Leb128Write: Sealed + ByteSink {
    /// Writes a `u16` as an unsigned LEB128.
    fn write_leb128_u16(&mut self, value: u16) -> (r: Result<(), RwError>)
        ensures
            sink_write_post(
                old(self).accepted(),
                final(self).accepted(),
                uleb_groups(value as nat),
                r,
            ),
            final(self).infallible() == old(self).infallible(),
            old(self).infallible() ==> r is Ok,
    ;

    /// Writes an `i16` as a signed LEB128.
    fn write_leb128_i16(&mut self, value: i16) -> (r: Result<(), RwError>)
        ensures
            sink_write_post(
                old(self).accepted(),
                final(self).accepted(),
                sleb_fixed_groups(to_bits(value as int, 16), 16),
                r,
            ),
            final(self).infallible() == old(self).infallible(),
            old(self).infallible() ==> r is Ok,
    ;

    /// Writes a `u32` as an unsigned LEB128.
    fn write_leb128_u32(&mut self, value: u32) -> (r: Result<(), RwError>)
        ensures
            sink_write_post(
                old(self).accepted(),
                final(self).accepted(),
                uleb_groups(value as nat),
                r,
            ),
            final(self).infallible() == old(self).infallible(),
            old(self).infallible() ==> r is Ok,
    ;

    /// Writes an `i32` as a signed LEB128.
    fn write_leb128_i32(&mut self, value: i32) -> (r: Result<(), RwError>)
        ensures
            sink_write_post(
                old(self).accepted(),
                final(self).accepted(),
                sleb_fixed_groups(to_bits(value as int, 32), 32),
                r,
            ),
            final(self).infallible() == old(self).infallible(),
            old(self).infallible() ==> r is Ok,
    ;

    /// Writes a `u64` as an unsigned LEB128.
    fn write_leb128_u64(&mut self, value: u64) -> (r: Result<(), RwError>)
        ensures
            sink_write_post(
                old(self).accepted(),
                final(self).accepted(),
                uleb_groups(value as nat),
                r,
            ),
            final(self).infallible() == old(self).infallible(),
            old(self).infallible() ==> r is Ok,
    ;

    /// Writes an `i64` as a signed LEB128.
    fn write_leb128_i64(&mut self, value: i64) -> (r: Result<(), RwError>)
        ensures
            sink_write_post(
                old(self).accepted(),
                final(self).accepted(),
                sleb_fixed_groups(to_bits(value as int, 64), 64),
                r,
            ),
            final(self).infallible() == old(self).infallible(),
            old(self).infallible() ==> r is Ok,
    ;

    /// Writes a `u128` as an unsigned LEB128.
    fn write_leb128_u128(&mut self, value: u128) -> (r: Result<(), RwError>)
        ensures
            sink_write_post(
                old(self).accepted(),
                final(self).accepted(),
                uleb_groups(value as nat),
                r,
            ),
            final(self).infallible() == old(self).infallible(),
            old(self).infallible() ==> r is Ok,
    ;

    /// Writes an `i128` as a signed LEB128.
    fn write_leb128_i128(&mut self, value: i128) -> (r: Result<(), RwError>)
        ensures
            sink_write_post(
                old(self).accepted(),
                final(self).accepted(),
                sleb_fixed_groups(to_bits(value as int, 128), 128),
                r,
            ),
            final(self).infallible() == old(self).infallible(),
            old(self).infallible() ==> r is Ok,
    ;

    /// Writes a signed LEB128 of arbitrary length. The input buffer is
    /// little endian two's complement.
    fn write_leb128_large_signed(&mut self, value: &Vec<u8>) -> (r: Result<(), RwError>)
        ensures
            large_write_post(
                old(self).accepted(),
                final(self).accepted(),
                sleb_groups(le_signed(value@), 8 * trimmed_len(value@, signed_filler(value@))),
                value@.len() == 0,
                r,
            ),
            final(self).infallible() == old(self).infallible(),
            old(self).infallible() && value@.len() > 0 ==> r is Ok,
    ;

    /// Writes an unsigned LEB128 of arbitrary length. The input buffer is
    /// little endian.
    fn write_leb128_large_unsigned(&mut self, value: &Vec<u8>) -> (r: Result<(), RwError>)
        ensures
            large_write_post(
                old(self).accepted(),
                final(self).accepted(),
                uleb_groups(le_value(value@)),
                value@.len() == 0,
                r,
            ),
            final(self).infallible() == old(self).infallible(),
            old(self).infallible() && value@.len() > 0 ==> r is Ok,
    ;
}

/// The `width`-bit two's complement pattern of a signed value, handed to
/// the signed encoder.
pub(crate) fn signed_to_bits(value: i128, wmax: u128, Ghost(w): Ghost<nat>) -> (r: u128)
    requires
        1 <= w <= 128,
        wmax as nat == pow2(w) - 1,
        -(pow2((w - 1) as nat) as int) <= (value as int) < pow2((w - 1) as nat),
    ensures
        r as nat == to_bits(value as int, w),
        (r as nat) < pow2(w),
{
    proof {
        lemma_pow2_pos(w);
        lemma_pow2_pos((w - 1) as nat);
        assert(pow2(w) == 2 * pow2((w - 1) as nat)) by {
            lemma_pow2_adds(1, (w - 1) as nat);
            lemma2_to64();
        }
    }
    if value >= 0 {
        proof {
            lemma_small_mod((value as u128) as nat, pow2(w));
        }
        value as u128
    } else {
        let off = (-(value + 1)) as u128;
        proof {
            assert((wmax - off) as int == value as int + pow2(w));
            lemma_mod_add_multiples_vanish(value as int, pow2(w) as int);
            lemma_small_mod((wmax - off) as nat, pow2(w));
        }
        wmax - off
    }
}

impl<S: ByteSink> Leb128Write for S {
    fn write_leb128_u16(&mut self, value: u16) -> (r: Result<(), RwError>) {
        write_leb128_unsigned(self, value as u128)
    }

    fn write_leb128_i16(&mut self, value: i16) -> (r: Result<(), RwError>) {
        proof {
            lemma2_to64();
        }
        let bits = signed_to_bits(value as i128, 0xFFFF, Ghost(16));
        write_leb128_signed(self, bits, 16)
    }

    fn write_leb128_u32(&mut self, value: u32) -> (r: Result<(), RwError>) {
        write_leb128_unsigned(self, value as u128)
    }

    fn write_leb128_i32(&mut self, value: i32) -> (r: Result<(), RwError>) {
        proof {
            lemma2_to64();
        }
        let bits = signed_to_bits(value as i128, 0xFFFF_FFFF, Ghost(32));
        write_leb128_signed(self, bits, 32)
    }

    fn write_leb128_u64(&mut self, value: u64) -> (r: Result<(), RwError>) {
        write_leb128_unsigned(self, value as u128)
    }

    fn write_leb128_i64(&mut self, value: i64) -> (r: Result<(), RwError>) {
        proof {
            lemma2_to64();
            lemma2_to64_rest();
        }
        let bits = signed_to_bits(value as i128, 0xFFFF_FFFF_FFFF_FFFF, Ghost(64));
        write_leb128_signed(self, bits, 64)
    }

    fn write_leb128_u128(&mut self, value: u128) -> (r: Result<(), RwError>) {
        write_leb128_unsigned(self, value)
    }

    fn write_leb128_i128(&mut self, value: i128) -> (r: Result<(), RwError>) {
        proof {
            crate::arith::lemma_pow2_128();
            lemma_pow2_adds(64, 63);
            lemma2_to64();
            lemma2_to64_rest();
        }
        let bits = signed_to_bits(value, u128::MAX, Ghost(128));
        write_leb128_signed(self, bits, 128)
    }

    fn write_leb128_large_signed(&mut self, value: &Vec<u8>) -> (r: Result<(), RwError>) {
        write_leb128_large_signed(self, value)
    }

    fn write_leb128_large_unsigned(&mut self, value: &Vec<u8>) -> (r: Result<(), RwError>) {
        write_leb128_large_unsigned(self, value)
    }
}

} // verus!
