//! Reading LEB128 encoded numbers from a byte source: fixed widths of 16,
//! 32, 64 and 128 bits, signed and unsigned, and the arbitrary-width mode
//! that yields a little-endian byte buffer.
use vstd::arithmetic::div_mod::*;
use vstd::arithmetic::mul::*;
use vstd::arithmetic::power2::*;
use vstd::prelude::*;

use crate::arith::{lemma_pow2_128, lemma_pow2_mask_split, pow2_mask_u128, pow2_u8};
use crate::byte_source::next;
use crate::byte_source::ByteSource;
use crate::leb128_spec::{
    all_cont, fixed_s_ok, fixed_s_overflow, fixed_s_post, fixed_u_ok, fixed_u_overflow,
    fixed_u_post, flush_limit, from_bits_signed, group_len, has_terminal, is_terminal,
    large_filler, large_fits, large_flush_fail, large_full, large_kept, large_neg, large_post,
    large_raw_len, large_reaches_end, large_result, large_sign_kept, large_u_ext, le_bytes,
    lemma_le_bytes_append, lemma_le_bytes_congruent, lemma_le_bytes_len,
    lemma_sleb_value_range, max_groups, payload, sleb_bits, uleb_value,
};
use crate::RwError;

verus! {

/// Decode an unsigned LEB128 value of the given bit width. Groups whose
/// shift would reach the width, and payload bits that would land at or above
/// bit `width`, fail with `Overflow`; a drained source fails with
/// `IoFailure`.
pub fn read_leb128_unsigned<S: ByteSource>(src: &mut S, width: u32) -> (r: Result<u128, RwError>)
    requires
        1 <= width <= 128,
    ensures
        fixed_u_post(old(src).remaining(), final(src).remaining(), width as nat, r),
{
    let ghost s0 = old(src).remaining();
    let ghost w = width as nat;
    let wmax: u128 = pow2_mask_u128(width);
    let mut acc: u128 = 0;
    let mut pow: u128 = 1;
    let mut shift: u32 = 0;
    let ghost mut k: nat = 0;
    proof {
        lemma_pow2_pos(0);
        assert(pow2(0) == 1) by {
            lemma2_to64();
        }
        assert(s0.skip(0) =~= s0);
    }
    loop
        invariant
            1 <= width <= 128,
            w == width as nat,
            wmax as nat == pow2(w) - 1,
            shift == 7 * k,
            shift <= width + 6,
            k <= s0.len(),
            src.remaining() =~= s0.skip(k as int),
            all_cont(s0, k),
            uleb_value(s0) == acc + pow2(shift as nat) * uleb_value(s0.skip(k as int)),
            has_terminal(s0) == has_terminal(s0.skip(k as int)),
            group_len(s0) == k + group_len(s0.skip(k as int)),
            acc < pow2(shift as nat),
            acc <= wmax,
            shift < width ==> pow as nat == pow2(shift as nat),
            old(src).remaining() == s0,
        decreases width + 7 - shift,
    {
        if shift >= width {
            proof {
                assert(7 * k >= w && 7 * k <= w + 6);
                assert(k == max_groups(w)) by {
                    lemma_fundamental_div_mod_converse(
                        (w + 6) as int,
                        7,
                        k as int,
                        (w + 6 - 7 * k) as int,
                    );
                }
                assert(fixed_u_overflow(s0, w));
                assert(src.remaining() == s0.skip(max_groups(w) as int));
            }
            return Err(RwError::Overflow);
        }
        let ghost rem = s0.skip(k as int);
        let n = match next(src) {
            Ok(b) => b,
            Err(_) => {
                proof {
                    assert(rem.len() == 0);
                    assert(s0.len() == k);
                    assert(!has_terminal(rem));
                    assert(7 * k < w);
                    assert(k < max_groups(w)) by {
                        lemma_div_is_ordered((7 * k + 7) as int, (w + 6) as int, 7);
                        lemma_div_by_multiple((k + 1) as int, 7);
                    }
                    assert(final(src).remaining() =~= Seq::<u8>::empty());
                }
                return Err(RwError::IoFailure);
            },
        };
        proof {
            assert(rem.len() > 0 && n == rem[0]);
            assert(src.remaining() =~= s0.skip(k as int + 1)) by {
                assert(rem.skip(1) =~= s0.skip(k as int + 1));
            }
        }
        let p = n % 128;
        if (p as u128) > wmax / pow {
            proof {
                lemma_pow2_mask_split(w, shift as nat);
                // the payload would put a bit at or above bit `width`
                assert(p as nat >= pow2((w - shift) as nat));
                assert(p < 128);
                assert(pow2((w - shift) as nat) < 128) by {
                    lemma2_to64();
                    if (w - shift) >= 7 {
                        lemma_pow2_strictly_increases(7, (w - shift) as nat);
                    }
                }
                assert(w - shift < 7) by {
                    lemma2_to64();
                    if w - shift > 7 {
                        lemma_pow2_strictly_increases(7, (w - shift) as nat);
                    }
                }
                // so this is the last group the budget allows: k + 1 == max_groups(w)
                assert(k + 1 == max_groups(w)) by {
                    lemma_fundamental_div_mod_converse(
                        (w + 6) as int,
                        7,
                        (k + 1) as int,
                        (w + 6 - 7 * (k + 1)) as int,
                    );
                }
                assert(s0.len() >= max_groups(w));
                assert(all_cont(s0, (max_groups(w) - 1) as nat));
                if is_terminal(s0[k as int]) {
                    assert(uleb_value(rem) == payload(n));
                    assert(uleb_value(s0) == acc + pow2(shift as nat) * payload(n));
                    assert(pow2(shift as nat) * payload(n) >= pow2(shift as nat) * pow2(
                        (w - shift) as nat,
                    )) by {
                        lemma_mul_inequality(
                            pow2((w - shift) as nat) as int,
                            payload(n) as int,
                            pow2(shift as nat) as int,
                        );
                        lemma_mul_is_commutative(pow2(shift as nat) as int, payload(n) as int);
                        lemma_mul_is_commutative(
                            pow2(shift as nat) as int,
                            pow2((w - shift) as nat) as int,
                        );
                    }
                    lemma_pow2_adds(shift as nat, (w - shift) as nat);
                    assert(uleb_value(s0) >= pow2(w));
                }
                assert(fixed_u_overflow(s0, w));
                assert(final(src).remaining() =~= s0.skip(max_groups(w) as int));
            }
            return Err(RwError::Overflow);
        }
        proof {
            lemma_pow2_mask_split(w, shift as nat);
            assert((p as u128) <= wmax / pow);
            // acc + p * pow stays at or under the mask
            assert(p as nat * pow2(shift as nat) <= (pow2((w - shift) as nat) - 1) * pow2(
                shift as nat,
            )) by {
                lemma_mul_inequality(
                    p as int,
                    pow2((w - shift) as nat) - 1,
                    pow2(shift as nat) as int,
                );
            }
            assert((pow2((w - shift) as nat) - 1) * pow2(shift as nat) == pow2(w) - pow2(
                shift as nat,
            )) by {
                lemma_mul_is_distributive_sub_other_way(
                    pow2(shift as nat) as int,
                    pow2((w - shift) as nat) as int,
                    1,
                );
                lemma_pow2_adds(shift as nat, (w - shift) as nat);
            }
        }
        let ghost acc0 = acc as nat;
        let ghost po = pow as nat;
        acc = acc + (p as u128) * pow;
        shift = shift + 7;
        if n < 128 {
            proof {
                assert(is_terminal(s0[k as int]));
                assert(uleb_value(rem) == payload(n));
                assert(group_len(rem) == 1);
                assert(group_len(s0) == k + 1);
                assert(uleb_value(s0) == acc);
                assert(k + 1 <= max_groups(w)) by {
                    lemma_div_is_ordered((7 * k + 7) as int, (w + 6) as int, 7);
                    lemma_div_by_multiple((k + 1) as int, 7);
                }
                assert(fixed_u_ok(s0, w));
                assert(final(src).remaining() =~= s0.skip(group_len(s0) as int));
            }
            return Ok(acc);
        }
        proof {
            // the group continues: push the accounting one byte forward
            assert(!is_terminal(s0[k as int]));
            assert(uleb_value(rem) == payload(n) + 128 * uleb_value(s0.skip(k as int + 1)));
            assert(has_terminal(rem) == has_terminal(s0.skip(k as int + 1)));
            assert(group_len(rem) == 1 + group_len(s0.skip(k as int + 1)));
            let po = pow2((shift - 7) as nat);
            let pn = pow2(shift as nat);
            assert(pn == 128 * po) by {
                lemma_pow2_adds((shift - 7) as nat, 7);
                lemma2_to64();
            }
            assert(po * (payload(n) + 128 * uleb_value(s0.skip(k as int + 1))) == po * payload(n) + pn
                * uleb_value(s0.skip(k as int + 1))) by {
                lemma_mul_is_distributive_add(
                    po as int,
                    payload(n) as int,
                    128 * uleb_value(s0.skip(k as int + 1)) as int,
                );
                lemma_mul_is_associative(po as int, 128, uleb_value(s0.skip(k as int + 1)) as int);
            }
            assert(uleb_value(s0) == acc + pn * uleb_value(s0.skip(k as int + 1)));
            assert(payload(n) * po <= 127 * po) by {
                lemma_mul_inequality(payload(n) as int, 127, po as int);
            }
            assert(acc0 < po);
            assert(acc < pn);
            k = k + 1;
            assert(all_cont(s0, k));
        }
        if shift < width {
            proof {
                lemma_pow2_adds((shift - 7) as nat, 7);
                lemma2_to64();
                lemma_pow2_strictly_increases(shift as nat, 128);
                lemma_pow2_128();
            }
            pow = pow * 128;
        }
    }
}

/// Decode a signed LEB128 value of the given bit width into a two's
/// complement accumulator of that width. Only the group budget is policed:
/// payload bits at or above bit `width` are dropped by the accumulator, as
/// the width-`width` helper integer would drop them. After the terminal
/// group, a set sign bit extends the accumulated pattern up to bit `width`.
pub fn read_leb128_signed<S: ByteSource>(src: &mut S, width: u32) -> (r: Result<i128, RwError>)
    requires
        1 <= width <= 128,
    ensures
        fixed_s_post(old(src).remaining(), final(src).remaining(), width as nat, r),
{
    let ghost s0 = old(src).remaining();
    let ghost w = width as nat;
    let wmax: u128 = pow2_mask_u128(width);
    let mut acc: u128 = 0;
    let mut pow: u128 = 1;
    let mut shift: u32 = 0;
    let ghost mut k: nat = 0;
    let ghost mut t: nat = 0;
    proof {
        lemma_pow2_pos(0);
        lemma_pow2_pos(w);
        assert(pow2(0) == 1) by {
            lemma2_to64();
        }
        assert(s0.skip(0) =~= s0);
        assert(t % pow2(w) == 0) by {
            lemma_small_mod(0, pow2(w));
        }
    }
    loop
        invariant
            1 <= width <= 128,
            w == width as nat,
            wmax as nat == pow2(w) - 1,
            shift == 7 * k,
            shift <= width + 6,
            k <= s0.len(),
            src.remaining() =~= s0.skip(k as int),
            all_cont(s0, k),
            uleb_value(s0) == t + pow2(shift as nat) * uleb_value(s0.skip(k as int)),
            has_terminal(s0) == has_terminal(s0.skip(k as int)),
            group_len(s0) == k + group_len(s0.skip(k as int)),
            t < pow2(shift as nat),
            acc as nat == t % pow2(w),
            shift < width ==> pow as nat == pow2(shift as nat),
            old(src).remaining() == s0,
        decreases width + 7 - shift,
    {
        if shift >= width {
            proof {
                assert(7 * k >= w && 7 * k <= w + 6);
                assert(k == max_groups(w)) by {
                    lemma_fundamental_div_mod_converse(
                        (w + 6) as int,
                        7,
                        k as int,
                        (w + 6 - 7 * k) as int,
                    );
                }
                assert(fixed_s_overflow(s0, w));
                assert(src.remaining() == s0.skip(max_groups(w) as int));
            }
            return Err(RwError::Overflow);
        }
        let ghost rem = s0.skip(k as int);
        let n = match next(src) {
            Ok(b) => b,
            Err(_) => {
                proof {
                    assert(rem.len() == 0);
                    assert(s0.len() == k);
                    assert(!has_terminal(rem));
                    assert(k < max_groups(w)) by {
                        lemma_div_is_ordered((7 * k + 7) as int, (w + 6) as int, 7);
                        lemma_div_by_multiple((k + 1) as int, 7);
                    }
                    assert(final(src).remaining() =~= Seq::<u8>::empty());
                }
                return Err(RwError::IoFailure);
            },
        };
        proof {
            assert(rem.len() > 0 && n == rem[0]);
            assert(src.remaining() =~= s0.skip(k as int + 1)) by {
                assert(rem.skip(1) =~= s0.skip(k as int + 1));
            }
        }
        let p = n % 128;
        // the payload, less any bits the width-`width` accumulator drops
        let pk: u8 = if width - shift < 7 {
            let m = pow2_u8(width - shift);
            proof {
                lemma_pow2_pos((w - shift) as nat);
            }
            p % m
        } else {
            p
        };
        proof {
            // the truncated payload lifts the accumulator to the next
            // partial sum, modulo pow2(width)
            let po = pow2(shift as nat);
            let pn = pow2((shift + 7) as nat);
            lemma_pow2_adds(shift as nat, 7);
            lemma2_to64();
            assert(pn == po * 128);
            if w - shift < 7 {
                let e = (w - shift) as nat;
                let q = payload(n) / pow2(e);
                let pr = payload(n) % pow2(e);
                lemma_pow2_pos(e);
                lemma_fundamental_div_mod(payload(n) as int, pow2(e) as int);
                assert(pk as nat == pr);
                assert(payload(n) == pow2(e) * q + pr);
                assert(payload(n) * po == q * (pow2(e) * po) + pr * po) by (nonlinear_arith)
                    requires
                        payload(n) == pow2(e) * q + pr,
                ;
                assert(payload(n) * po == q * pow2(w) + pr * po) by {
                    lemma_pow2_adds(e, shift as nat);
                    assert(pow2(e) * po == pow2(w));
                }
                assert(pr < pow2(e));
                assert(pr * po <= (pow2(e) - 1) * po) by {
                    lemma_mul_inequality(pr as int, pow2(e) - 1, po as int);
                }
                assert((pow2(e) - 1) * po == pow2(w) - po) by {
                    lemma_mul_is_distributive_sub_other_way(po as int, pow2(e) as int, 1);
                    lemma_pow2_adds(e, shift as nat);
                }
                assert(t + pk as nat * po < pow2(w));
                assert(t + payload(n) * po == pow2(w) * q + (t + pk as nat * po)) by {
                    lemma_mul_is_commutative(q as int, pow2(w) as int);
                }
                assert((t + payload(n) * po) % pow2(w) == (t + pk as nat * po) % pow2(w)) by {
                    lemma_mod_multiples_vanish(q as int, (t + pk as nat * po) as int, pow2(w) as int);
                    assert(t + payload(n) * po == pow2(w) * q + (t + pk as nat * po));
                }
                assert((t + pk as nat * po) % pow2(w) == t + pk as nat * po) by {
                    lemma_small_mod((t + pk as nat * po) as nat, pow2(w));
                }
            } else {
                assert(pk == p);
                assert(shift + 7 <= w);
                assert(t + payload(n) * po < pn) by {
                    lemma_mul_inequality(payload(n) as int, 127, po as int);
                }
                assert(pn <= pow2(w)) by {
                    if shift + 7 < w {
                        lemma_pow2_strictly_increases((shift + 7) as nat, w);
                    }
                }
                assert((t + payload(n) * po) % pow2(w) == t + payload(n) * po) by {
                    lemma_small_mod((t + payload(n) * po) as nat, pow2(w));
                }
            }
            assert(acc as nat == t) by {
                if shift < w {
                    lemma_pow2_strictly_increases(shift as nat, w);
                }
                lemma_small_mod(t, pow2(w));
            }
            assert(acc + (pk as u128) * pow < pow2(w));
        }
        let ghost t0 = t;
        acc = acc + (pk as u128) * pow;
        proof {
            t = t0 + payload(n) * pow2(shift as nat);
            assert(acc as nat == t % pow2(w));
        }
        shift = shift + 7;
        if n < 128 {
            // terminal group: extend the sign if the pattern has room
            proof {
                assert(is_terminal(s0[k as int]));
                assert(uleb_value(rem) == payload(n));
                assert(group_len(rem) == 1);
                assert(group_len(s0) == k + 1);
                let po = pow2((shift - 7) as nat);
                assert(uleb_value(s0) == t0 + po * uleb_value(rem));
                assert(po * uleb_value(rem) == po * payload(n));
                assert(t == t0 + payload(n) * po);
                assert(uleb_value(s0) == t) by {
                    lemma_mul_is_commutative(po as int, payload(n) as int);
                }
                assert(k + 1 <= max_groups(w)) by {
                    lemma_div_is_ordered((7 * k + 7) as int, (w + 6) as int, 7);
                    lemma_div_by_multiple((k + 1) as int, 7);
                }
                assert(fixed_s_ok(s0, w));
                assert(src.remaining() =~= s0.skip(group_len(s0) as int));
            }
            if p >= 64 && shift < width {
                proof {
                    lemma_pow2_adds((shift - 7) as nat, 7);
                    lemma2_to64();
                    assert(pow * 128 == pow2(shift as nat));
                    lemma_pow2_strictly_increases(shift as nat, w);
                    assert(t < pow2(shift as nat));
                    assert(acc as nat == t) by {
                        lemma_small_mod(t, pow2(w));
                        lemma_pow2_strictly_increases(shift as nat, w);
                    }
                }
                let pow_t = pow * 128;
                let ext = acc + (wmax - pow_t + 1);
                proof {
                    assert(ext as nat == sleb_bits(s0, w));
                }
                return Ok(to_signed_i128(ext, wmax, Ghost(w)));
            }
            proof {
                // no extension: the bits are the accumulated pattern
                assert(sleb_bits(s0, w) == uleb_value(s0) % pow2(w));
                assert(acc as nat == sleb_bits(s0, w));
            }
            return Ok(to_signed_i128(acc, wmax, Ghost(w)));
        }
        proof {
            assert(!is_terminal(s0[k as int]));
            let x = uleb_value(s0.skip(k as int + 1));
            assert(uleb_value(rem) == payload(n) + 128 * x);
            assert(has_terminal(rem) == has_terminal(s0.skip(k as int + 1)));
            assert(group_len(rem) == 1 + group_len(s0.skip(k as int + 1)));
            let po = pow2((shift - 7) as nat);
            let pn = pow2(shift as nat);
            assert(pn == 128 * po) by {
                lemma_pow2_adds((shift - 7) as nat, 7);
                lemma2_to64();
            }
            assert(po * (payload(n) + 128 * x) == po * payload(n) + pn * x) by {
                lemma_mul_is_distributive_add(po as int, payload(n) as int, (128 * x) as int);
                lemma_mul_is_associative(po as int, 128, x as int);
                assert(po * 128 == pn);
            }
            assert(uleb_value(s0) == t0 + po * uleb_value(rem));
            assert(po * uleb_value(rem) == po * (payload(n) + 128 * x));
            assert(t == t0 + payload(n) * po);
            assert(uleb_value(s0) == t + pn * x) by {
                lemma_mul_is_commutative(po as int, payload(n) as int);
            }
            assert(payload(n) * po <= 127 * po) by {
                lemma_mul_inequality(payload(n) as int, 127, po as int);
            }
            assert(t0 < po);
            assert(t < pn);
            k = k + 1;
            assert(all_cont(s0, k));
        }
        if shift < width {
            proof {
                lemma_pow2_adds((shift - 7) as nat, 7);
                lemma2_to64();
                lemma_pow2_strictly_increases(shift as nat, 128);
                lemma_pow2_128();
            }
            pow = pow * 128;
        }
    }
}

/// Move a full accumulator window into the output buffer: seven bytes,
/// little endian. Fails with `TooLarge`, and pushes nothing, if seven more
/// bytes would pass the cap.
pub fn push_next_large_leb_block(result: &mut Vec<u8>, max_size: usize, acc: u64) -> (r: Result<
    (),
    RwError,
>)
    ensures
        match r {
            Ok(_) => old(result)@.len() + 7 <= max_size && final(result)@ == old(result)@
                + le_bytes(acc as nat, 7),
            Err(RwError::TooLarge) => old(result)@.len() + 7 > max_size && final(result)@ == old(
                result,
            )@,
            Err(_) => false,
        },
{
    if max_size < 7 || result.len() > max_size - 7 {
        return Err(RwError::TooLarge);
    }
    let ghost res0 = result@;
    let mut a = acc;
    let mut j: usize = 0;
    proof {
        lemma_pow2_pos(0);
        assert(pow2(0) == 1) by {
            lemma2_to64();
        }
        lemma_div_basics(acc as int);
        assert(acc as nat / pow2(0) == acc as nat);
        assert(res0 + le_bytes(acc as nat, 0) =~= res0);
    }
    while j < 7
        invariant
            j <= 7,
            a as nat == acc as nat / pow2(8 * j as nat),
            result@ == res0 + le_bytes(acc as nat, j as nat),
            result@.len() == res0.len() + j,
            res0.len() + 7 <= max_size,
        decreases 7 - j,
    {
        proof {
            lemma_pow2_pos(8 * j as nat);
            lemma_le_bytes_len(acc as nat, j as nat);
            lemma_le_bytes_append(acc as nat, j as nat, 1);
            assert(le_bytes(a as nat / 256, 0) =~= Seq::<u8>::empty());
            assert(le_bytes(a as nat, 1) =~= seq![((a as nat) % 256) as u8]);
            assert(((a as nat) % 256) as u8 == (a % 256) as u8);
            assert(le_bytes(a as nat, 1) =~= seq![(a % 256) as u8]);
            assert(le_bytes(acc as nat, (j + 1) as nat) =~= le_bytes(acc as nat, j as nat)
                + seq![(a % 256) as u8]);
            assert(result@.push((a % 256) as u8) =~= res0 + le_bytes(acc as nat, (j + 1) as nat));
        }
        result.push((a % 256) as u8);
        proof {
            lemma_div_denominator(acc as int, pow2(8 * j as nat) as int, 256);
            lemma_pow2_adds(8 * j as nat, 8);
            lemma2_to64();
        }
        a = a / 256;
        j = j + 1;
    }
    proof {
        lemma_le_bytes_len(acc as nat, 7);
    }
    Ok(())
}

/// Finish an arbitrary-width decode: append the whole bytes the leftover
/// window holds, dropping redundant bytes (the filler of the value's sign)
/// past the cap. Any other byte past the cap fails with `TooLarge`; so does
/// a signed cut whose kept buffer would read back with the wrong sign.
#[verifier::loop_isolation(false)]
pub fn finish_large_leb_read(
    shift: u32,
    acc: u64,
    max_size: usize,
    result: Vec<u8>,
    is_negative: bool,
    signed: bool,
) -> (r: Result<Vec<u8>, RwError>)
    requires
        result@.len() <= max_size,
        shift <= 56,
    ensures
        ({
            let q = ((shift + 7) / 8) as nat;
            let bytes = le_bytes(acc as nat, q);
            let filler: u8 = if is_negative {
                255
            } else {
                0
            };
            let room = (max_size - result@.len()) as nat;
            let kept = result@ + bytes.take(
                if q <= room {
                    q
                } else {
                    room
                } as int,
            );
            let sign_ok = !(signed && q > room) || (if max_size == 0 {
                !is_negative
            } else {
                (kept[max_size - 1] >= 128) == is_negative
            });
            match r {
                Ok(out) => out@ == kept && (forall|t: int|
                    room <= t < q ==> #[trigger] bytes[t] == filler) && sign_ok,
                Err(RwError::TooLarge) => !((forall|t: int|
                    room <= t < q ==> #[trigger] bytes[t] == filler) && sign_ok),
                Err(_) => false,
            }
        }),
{
    let q = (shift + 7) / 8;
    let filler: u8 = if is_negative {
        255
    } else {
        0
    };
    let mut out = result;
    let mut a = acc;
    let mut j: u32 = 0;
    let ghost res0 = out@;
    let ghost qn = q as nat;
    let ghost bytes = le_bytes(acc as nat, qn);
    let ghost room = (max_size - res0.len()) as nat;
    proof {
        lemma_pow2_pos(0);
        assert(pow2(0) == 1) by {
            lemma2_to64();
        }
        lemma_div_basics(acc as int);
        assert(acc as nat / pow2(0) == acc as nat);
        lemma_le_bytes_len(acc as nat, qn);
        assert(res0 + bytes.take(0) =~= res0);
    }
    while j < q
        invariant
            q == (shift + 7) / 8,
            q <= 8,
            j <= q,
            qn == q as nat,
            bytes == le_bytes(acc as nat, qn),
            bytes.len() == qn,
            room == (max_size - res0.len()) as nat,
            res0.len() <= max_size,
            a as nat == acc as nat / pow2(8 * j as nat),
            out@ == res0 + bytes.take(
                if j as nat <= room {
                    j as nat
                } else {
                    room
                } as int,
            ),
            out@.len() == res0.len() + if j as nat <= room {
                j as nat
            } else {
                room
            },
            forall|t: int| room <= t < j ==> #[trigger] bytes[t] == filler,
            signed && j > room ==> (if max_size == 0 {
                !is_negative
            } else {
                ((res0 + bytes.take(room as int))[max_size - 1] >= 128) == is_negative
            }),
        decreases q - j,
    {
        let b = (a % 256) as u8;
        proof {
            lemma_pow2_pos(8 * j as nat);
            lemma_le_bytes_len(acc as nat, j as nat);
            lemma_le_bytes_append(acc as nat, j as nat, (qn - j) as nat);
            assert(le_bytes(a as nat, (qn - j) as nat)[0] == b);
            assert(bytes[j as int] == b);
        }
        if out.len() < max_size {
            proof {
                assert((j as nat) < room);
                assert(bytes.take(j as int).push(b) =~= bytes.take(j as int + 1));
                assert(out@.push(b) =~= res0 + bytes.take(j as int + 1));
            }
            out.push(b);
        } else {
            proof {
                assert(j as nat >= room);
                assert(out@ == res0 + bytes.take(room as int));
            }
            if b != filler {
                proof {
                    assert(room <= j < qn && bytes[j as int] != filler);
                    let qq = ((shift + 7) / 8) as nat;
                    let byz = le_bytes(acc as nat, qq);
                    assert(qq == qn && byz == bytes);
                    assert(room <= j as int && (j as int) < qq && byz[j as int] != filler);
                    assert(!(forall|t: int| room <= t < qq ==> #[trigger] byz[t] == filler));
                }
                return Err(RwError::TooLarge);
            }
            if signed {
                // the cut must not change the sign the buffer reads back with
                let mismatch: bool = if max_size == 0 {
                    is_negative
                } else {
                    (out[max_size - 1] >= 128) != is_negative
                };
                if mismatch {
                    proof {
                        assert(qn > room);
                        if max_size > 0 {
                            assert(out@[max_size - 1] == (res0 + bytes.take(room as int))[max_size
                                - 1]);
                        }
                    }
                    return Err(RwError::TooLarge);
                }
            }
        }
        proof {
            lemma_div_denominator(acc as int, pow2(8 * j as nat) as int, 256);
            lemma_pow2_adds(8 * j as nat, 8);
            lemma2_to64();
        }
        a = a / 256;
        j = j + 1;
    }
    Ok(out)
}

/// Decode an arbitrary-width LEB128 value into a little-endian byte buffer
/// of at most `max_size` bytes. The payload bits are gathered in a 56-bit
/// window that is flushed seven bytes at a time; in signed mode the terminal
/// group's sign bit extends the sign through the last window, and redundant
/// sign bytes past the cap are dropped.
#[verifier::loop_isolation(false)]
#[verifier::rlimit(100)]
pub fn read_leb128_large<S: ByteSource>(src: &mut S, max_size: usize, signed: bool) -> (r: Result<
    Vec<u8>,
    RwError,
>)
    ensures
        large_post(
            old(src).remaining(),
            final(src).remaining(),
            signed,
            max_size as nat,
            match r {
                Ok(v) => Ok(v@),
                Err(e) => Err(e),
            },
        ),
{
    let ghost s0 = old(src).remaining();
    let ghost cap = max_size as nat;
    let mut result: Vec<u8> = Vec::new();
    let mut acc: u64 = 0;
    let mut pow: u64 = 1;
    let mut shift: u32 = 0;
    let ghost mut k: nat = 0;
    let ghost mut m: nat = 0;
    let ghost mut full: nat = 0;
    let ghost mut low: nat = 0;
    let ghost mut t: nat = 0;
    proof {
        lemma_pow2_pos(0);
        assert(pow2(0) == 1) by {
            lemma2_to64();
        }
        assert(s0.skip(0) =~= s0);
        assert(result@ =~= le_bytes(low, 0));
    }
    loop
        invariant
            k == 8 * full + m,
            m <= 8,
            shift == 7 * m,
            k <= s0.len(),
            src.remaining() =~= s0.skip(k as int),
            all_cont(s0, k),
            uleb_value(s0) == t + pow2(7 * k) * uleb_value(s0.skip(k as int)),
            has_terminal(s0) == has_terminal(s0.skip(k as int)),
            group_len(s0) == k + group_len(s0.skip(k as int)),
            t == low + pow2(56 * full) * acc,
            t < pow2(7 * k),
            low < pow2(56 * full),
            acc < pow2(shift as nat),
            result@ == le_bytes(low, 7 * full),
            result@.len() == 7 * full,
            7 * full <= cap,
            shift < 56 ==> pow as nat == pow2(shift as nat),
        decreases s0.len() - k + 1,
    {
        if shift >= 54 {
            // a full window: move it into the output buffer
            proof {
                assert(m == 8 && shift == 56);
            }
            match push_next_large_leb_block(&mut result, max_size, acc) {
                Ok(_) => {
                    proof {
                        let lw = low + pow2(56 * full) * (acc as nat);
                        lemma_pow2_pos(56 * full);
                        lemma_pow2_pos(56 * (full + 1));
                        lemma_mod_multiples_vanish(acc as int, low as int, pow2(56 * full) as int);
                        lemma_mul_is_commutative(pow2(56 * full) as int, acc as int);
                        lemma_le_bytes_congruent(lw, low, 7 * full);
                        lemma_fundamental_div_mod_converse(
                            lw as int,
                            pow2(56 * full) as int,
                            acc as int,
                            low as int,
                        );
                        lemma_le_bytes_append(lw, 7 * full, 7);
                        assert(le_bytes(lw, 7 * (full + 1)) == le_bytes(low, 7 * full) + le_bytes(
                            acc as nat,
                            7,
                        ));
                        assert(lw < pow2(56 * (full + 1))) by {
                            lemma_pow2_adds(56 * full, 56);
                            assert(pow2(56) * pow2(56 * full) == pow2(56 * full + 56)) by {
                                lemma_mul_is_commutative(pow2(56) as int, pow2(56 * full) as int);
                            }
                            lemma2_to64_rest();
                            assert(acc < pow2(56));
                            lemma_mul_inequality(
                                acc as int + 1,
                                pow2(56) as int,
                                pow2(56 * full) as int,
                            );
                            lemma_mul_is_distributive_add_other_way(
                                pow2(56 * full) as int,
                                acc as int,
                                1,
                            );
                        }
                        lemma_le_bytes_len(acc as nat, 7);
                        lemma_le_bytes_len(lw, 7 * (full + 1));
                        low = lw;
                        full = full + 1;
                        m = 0;
                        assert(t == low + pow2(56 * full) * 0);
                    }
                    acc = 0;
                    shift = 0;
                    pow = 1;
                }
                Err(_) => {
                    proof {
                        // the cap cannot take another window
                        assert(7 * full <= cap && cap < 7 * full + 7);
                        assert(cap / 7 == full) by {
                            lemma_fundamental_div_mod_converse(
                                cap as int,
                                7,
                                full as int,
                                (cap - 7 * full) as int,
                            );
                        }
                        assert(flush_limit(cap) == k);
                        assert(large_flush_fail(s0, cap));
                        assert(src.remaining() == s0.skip(flush_limit(cap) as int));
                    }
                    return Err(RwError::TooLarge);
                }
            }
        }
        let ghost rem = s0.skip(k as int);
        let n = match next(src) {
            Ok(b) => b,
            Err(_) => {
                proof {
                    assert(rem.len() == 0);
                    assert(s0.len() == k);
                    assert(!has_terminal(rem));
                    assert(full <= cap / 7) by {
                        lemma_div_is_ordered(7 * full as int, cap as int, 7);
                        lemma_div_by_multiple(full as int, 7);
                    }
                    assert(k < flush_limit(cap));
                    assert(final(src).remaining() =~= Seq::<u8>::empty());
                }
                return Err(RwError::IoFailure);
            },
        };
        proof {
            assert(rem.len() > 0 && n == rem[0]);
            assert(src.remaining() =~= s0.skip(k as int + 1)) by {
                assert(rem.skip(1) =~= s0.skip(k as int + 1));
            }
        }
        let p = n % 128;
        proof {
            assert(shift <= 49);
            assert(pow as nat == pow2(shift as nat));
            assert(payload(n) * pow2(shift as nat) <= 127 * pow2(shift as nat)) by {
                lemma_mul_inequality(payload(n) as int, 127, pow2(shift as nat) as int);
            }
            assert(128 * pow2(shift as nat) == pow2((shift + 7) as nat)) by {
                lemma_pow2_adds(shift as nat, 7);
                lemma2_to64();
            }
            assert(pow2((shift + 7) as nat) <= pow2(56)) by {
                if shift + 7 < 56 {
                    lemma_pow2_strictly_increases((shift + 7) as nat, 56);
                }
            }
            lemma2_to64_rest();
        }
        let ghost acc0 = acc as nat;
        let ghost t0 = t;
        acc = acc + (p as u64) * pow;
        shift = shift + 7;
        proof {
            t = t0 + payload(n) * pow2(7 * k);
            k = k + 1;
            m = m + 1;
            // the new accumulator still decomposes the running value
            let po = pow2((shift - 7) as nat);
            let pf = pow2(56 * full);
            assert(pow2((7 * (k - 1)) as nat) == pf * po) by {
                lemma_pow2_adds(56 * full, (shift - 7) as nat);
            }
            assert(t == low + pf * (acc as nat)) by {
                assert(payload(n) * (pf * po) == pf * (payload(n) * po)) by (nonlinear_arith);
                lemma_mul_is_distributive_add(pf as int, acc0 as int, (payload(n) * po) as int);
            }
            assert(acc < pow2(shift as nat));
            assert(t < pow2(7 * k)) by {
                assert(pow2(7 * k) == pf * pow2(shift as nat)) by {
                    lemma_pow2_adds(56 * full, shift as nat);
                }
                assert(low + pf * (acc as nat) < pf * pow2(shift as nat)) by (nonlinear_arith)
                    requires
                        low < pf,
                        (acc as nat) < pow2(shift as nat),
                        0 < pf,
                ;
            }
            if n >= 128 {
                assert(uleb_value(s0) == t + pow2(7 * k) * uleb_value(s0.skip(k as int))) by {
                    let x = uleb_value(s0.skip(k as int));
                    assert(uleb_value(rem) == payload(n) + 128 * x);
                    assert(uleb_value(s0) == t0 + pow2((7 * (k - 1)) as nat) * uleb_value(rem));
                    assert(pow2((7 * (k - 1)) as nat) * (payload(n) + 128 * x) == pow2(
                        (7 * (k - 1)) as nat,
                    ) * payload(n) + pow2(7 * k) * x) by {
                        lemma_mul_is_distributive_add(
                            pow2((7 * (k - 1)) as nat) as int,
                            payload(n) as int,
                            (128 * x) as int,
                        );
                        lemma_mul_is_associative(pow2((7 * (k - 1)) as nat) as int, 128, x as int);
                        assert(pow2((7 * (k - 1)) as nat) * 128 == pow2(7 * k)) by {
                            lemma_pow2_adds((7 * (k - 1)) as nat, 7);
                            lemma2_to64();
                        }
                    }
                    lemma_mul_is_commutative(pow2((7 * (k - 1)) as nat) as int, payload(n) as int);
                }
                assert(has_terminal(rem) == has_terminal(s0.skip(k as int)));
                assert(group_len(rem) == 1 + group_len(s0.skip(k as int)));
            }
        }
        if n < 128 {
            let neg = signed && p >= 64;
            proof {
                assert(is_terminal(s0[k - 1]));
                assert(group_len(s0) == k);
                assert(uleb_value(rem) == payload(n));
                assert(uleb_value(s0) == t) by {
                    lemma_mul_is_commutative(pow2((7 * (k - 1)) as nat) as int, payload(n) as int);
                }
                assert(neg == large_neg(s0, signed));
                assert(full <= cap / 7) by {
                    lemma_div_is_ordered(7 * full as int, cap as int, 7);
                    lemma_div_by_multiple(full as int, 7);
                }
                assert(group_len(s0) <= flush_limit(cap));
                assert(large_reaches_end(s0, cap));
            }
            let acc_f: u64 = if neg {
                proof {
                    assert(pow as nat == pow2((shift - 7) as nat));
                    assert(pow2(shift as nat) == pow as nat * 128) by {
                        lemma_pow2_adds((shift - 7) as nat, 7);
                        lemma2_to64();
                    }
                    lemma2_to64_rest();
                    assert(pow2(shift as nat) <= pow2(56)) by {
                        if shift < 56 {
                            lemma_pow2_strictly_increases(shift as nat, 56);
                        }
                    }
                }
                let pw = pow * 128;
                acc + (u64::MAX - pw + 1)
            } else {
                acc
            };
            let ghost qn = ((shift + 7) / 8) as nat;
            let ghost raw = large_raw_len(s0);
            let ghost fullb = large_full(s0, signed);
            let ghost filler = large_filler(s0, signed);
            let ghost room = (cap - 7 * full) as nat;
            proof {
                assert(acc_f as nat == if large_neg(s0, signed) {
                    (acc as nat + pow2(64) - pow2(7 * m)) as nat
                } else {
                    acc as nat
                }) by {
                    lemma_pow2_128();
                    lemma2_to64();
                    lemma_pow2_adds(64, 64);
                    assert(pow2(64) == 0x10000000000000000);
                }
                lemma_large_bridge(s0, signed, full, low, acc as nat, acc_f as nat, m, qn);
                assert(result@.len() <= max_size);
            }
            proof {
                lemma_le_bytes_len(low, 7 * full);
                lemma_le_bytes_len(acc_f as nat, qn);
                lemma_large_fits_split(s0, signed, cap, full, low, acc_f as nat, qn);
            }
            match finish_large_leb_read(shift, acc_f, max_size, result, neg, signed) {
                Ok(out) => {
                    proof {
                        assert(large_fits(s0, signed, cap));
                        let j = if qn <= room {
                            qn
                        } else {
                            room
                        };
                        assert(large_kept(s0, cap) == 7 * full + j);
                        assert(out@ =~= fullb.take(7 * full + j as int));
                        assert(out@ == large_result(s0, signed, cap));
                    }
                    return Ok(out);
                },
                Err(_) => {
                    proof {
                        assert(!large_fits(s0, signed, cap));
                    }
                    return Err(RwError::TooLarge);
                },
            }
        }
        if shift < 56 {
            proof {
                lemma_pow2_adds((shift - 7) as nat, 7);
                lemma2_to64();
                lemma2_to64_rest();
                lemma_pow2_strictly_increases(shift as nat, 56);
            }
            pow = pow * 128;
        }
    }
}

/// With the buffer split at its flushed part, fitting the cap is exactly
/// what the finishing loop checks: the window bytes past the remaining room
/// are filler, and a signed cut leaves the sign readable in the kept part.
proof fn lemma_large_fits_split(
    s0: Seq<u8>,
    signed: bool,
    cap: nat,
    full: nat,
    low: nat,
    accf: nat,
    qn: nat,
)
    requires
        7 * full <= cap,
        large_raw_len(s0) == 7 * full + qn,
        large_full(s0, signed) == le_bytes(low, 7 * full) + le_bytes(accf, qn),
    ensures
        ({
            let bytesf = le_bytes(accf, qn);
            let room = (cap - 7 * full) as nat;
            let kept = le_bytes(low, 7 * full) + bytesf.take(
                if qn <= room {
                    qn
                } else {
                    room
                } as int,
            );
            large_fits(s0, signed, cap) <==> ((forall|t: int|
                room <= t < qn ==> #[trigger] bytesf[t] == large_filler(s0, signed)) && (!(signed
                && qn > room) || (if cap == 0 {
                !large_neg(s0, true)
            } else {
                (kept[cap - 1] >= 128) == large_neg(s0, true)
            })))
        }),
{
    let bytesf = le_bytes(accf, qn);
    let room = (cap - 7 * full) as nat;
    let kept = le_bytes(low, 7 * full) + bytesf.take(
        if qn <= room {
            qn
        } else {
            room
        } as int,
    );
    let fullb = large_full(s0, signed);
    let raw = large_raw_len(s0);
    let filler = large_filler(s0, signed);
    lemma_le_bytes_len(low, 7 * full);
    lemma_le_bytes_len(accf, qn);
    if qn > room {
        assert(kept =~= fullb.take(cap as int));
    }
    if (forall|t: int| room <= t < qn ==> #[trigger] bytesf[t] == filler) && (!(signed && qn
        > room) || (if cap == 0 {
        !large_neg(s0, true)
    } else {
        (kept[cap - 1] >= 128) == large_neg(s0, true)
    })) {
        assert forall|i: int| cap <= i < raw implies #[trigger] fullb[i] == filler by {
            assert(fullb[i] == bytesf[i - 7 * full]);
            assert(room <= i - 7 * full < qn);
        }
        if signed && cap < raw {
            assert(qn > room);
            if cap > 0 {
                assert(kept[cap - 1] == fullb[cap - 1]);
            }
            assert(large_sign_kept(s0, cap));
        }
        assert(large_fits(s0, signed, cap));
    }
    if large_fits(s0, signed, cap) {
        assert forall|t: int| room <= t < qn implies #[trigger] bytesf[t] == filler by {
            assert(fullb[t + 7 * full] == bytesf[t]);
            assert(cap <= t + 7 * full < raw);
        }
        if signed && qn > room {
            assert(cap < raw);
            assert(large_sign_kept(s0, cap));
            if cap > 0 {
                assert(kept[cap - 1] == fullb[cap - 1]);
            }
        }
    }
}

/// The buffer an arbitrary-width decode produces, split at the flushed
/// part: the flushed bytes carry `low`, and the leftover window carries the
/// rest of the value, sign extension included.
proof fn lemma_large_bridge(
    s0: Seq<u8>,
    signed: bool,
    full: nat,
    low: nat,
    acc: nat,
    accf: nat,
    mm: nat,
    q: nat,
)
    requires
        has_terminal(s0),
        group_len(s0) == 8 * full + mm,
        1 <= mm <= 8,
        q == (7 * mm + 7) / 8,
        uleb_value(s0) == low + pow2(56 * full) * acc,
        low < pow2(56 * full),
        acc < pow2(7 * mm),
        accf == if large_neg(s0, signed) {
            (acc + pow2(64) - pow2(7 * mm)) as nat
        } else {
            acc
        },
    ensures
        large_raw_len(s0) == 7 * full + q,
        1 <= q <= 7,
        large_full(s0, signed) == le_bytes(low, 7 * full) + le_bytes(accf, q),
        large_full(s0, signed).len() == 7 * full + q,
{
    let gl = group_len(s0);
    let pf = pow2(56 * full);
    lemma_pow2_pos(56 * full);
    let rr = (7 * mm + 7) % 8;
    lemma_fundamental_div_mod((7 * mm + 7) as int, 8);
    assert(large_raw_len(s0) == 7 * full + q) by {
        lemma_fundamental_div_mod_converse(
            (7 * gl + 7) as int,
            8,
            (7 * full + q) as int,
            rr as int,
        );
    }
    assert(7 * mm <= 8 * q && 8 * q <= 7 * mm + 7);
    let neg = large_neg(s0, signed);
    let win = if neg {
        (acc + pow2(8 * q) - pow2(7 * mm)) as nat
    } else {
        acc
    };
    assert(pow2(7 * mm) <= pow2(8 * q)) by {
        if 7 * mm < 8 * q {
            lemma_pow2_strictly_increases(7 * mm, 8 * q);
        }
    }
    assert(pow2(8 * q) <= pow2(64)) by {
        if 8 * q < 64 {
            lemma_pow2_strictly_increases(8 * q, 64);
        }
    }
    let uext = large_u_ext(s0, signed);
    assert(uext == low + pf * win) by {
        if neg {
            assert(pow2(8 * (7 * full + q)) == pf * pow2(8 * q)) by {
                lemma_pow2_adds(56 * full, 8 * q);
            }
            assert(pow2(7 * gl) == pf * pow2(7 * mm)) by {
                lemma_pow2_adds(56 * full, 7 * mm);
            }
            assert(pf * acc + pf * pow2(8 * q) - pf * pow2(7 * mm) == pf * win) by {
                lemma_mul_is_distributive_add(pf as int, acc as int, pow2(8 * q) as int);
                lemma_mul_is_distributive_sub(
                    pf as int,
                    (acc + pow2(8 * q)) as int,
                    pow2(7 * mm) as int,
                );
            }
        }
    }
    assert(win < pow2(8 * q));
    lemma_le_bytes_append(uext, 7 * full, q);
    assert(uext % pf == low && uext / pf == win) by {
        lemma_mul_is_commutative(pf as int, win as int);
        lemma_fundamental_div_mod_converse(uext as int, pf as int, win as int, low as int);
    }
    assert(le_bytes(uext, 7 * full) == le_bytes(low, 7 * full)) by {
        lemma_pow2_pos(8 * (7 * full));
        lemma_small_mod(low, pow2(56 * full));
        assert(uext % pow2(8 * (7 * full)) == low % pow2(8 * (7 * full)));
        lemma_le_bytes_congruent(uext, low, 7 * full);
    }
    assert(le_bytes(win, q) == le_bytes(accf, q)) by {
        if neg {
            let d = pow2((64 - 8 * q) as nat);
            assert(pow2(64) == pow2(8 * q) * d) by {
                lemma_pow2_adds(8 * q, (64 - 8 * q) as nat);
            }
            lemma_pow2_pos(8 * q);
            lemma_pow2_pos((64 - 8 * q) as nat);
            assert(accf == win + pow2(8 * q) * (d - 1)) by {
                lemma_mul_is_distributive_sub(pow2(8 * q) as int, d as int, 1);
            }
            assert(accf % pow2(8 * q) == win % pow2(8 * q)) by {
                lemma_mod_multiples_vanish((d - 1) as int, win as int, pow2(8 * q) as int);
                lemma_mul_is_commutative(pow2(8 * q) as int, (d - 1) as int);
            }
            lemma_le_bytes_congruent(win, accf, q);
        }
    }
    assert(large_full(s0, signed) == le_bytes(low, 7 * full) + le_bytes(accf, q));
    lemma_le_bytes_len(low, 7 * full);
    lemma_le_bytes_len(accf, q);
    lemma_le_bytes_len(uext, 7 * full + q);
}

/// Reinterpret the low bits `u < pow2(w)` as a two's complement signed
/// value of width `w`, given `wmax == pow2(w) - 1`.
pub(crate) fn to_signed_i128(u: u128, wmax: u128, Ghost(w): Ghost<nat>) -> (r: i128)
    requires
        1 <= w <= 128,
        wmax as nat == pow2(w) - 1,
        u <= wmax,
    ensures
        r as int == from_bits_signed(u as nat, w),
{
    let half = wmax / 2 + 1;
    proof {
        lemma_pow2_mask_split(w, 1);
        lemma2_to64();
        assert(pow2(1) == 2);
        assert(half as nat == pow2((w - 1) as nat)) by {
            assert(wmax as int / 2 == (pow2(w) - 1) / pow2(1) as int);
        }
        lemma_pow2_128();
        if w < 128 {
            lemma_pow2_strictly_increases(w, 128);
        }
        if (w - 1) < 127 {
            lemma_pow2_strictly_increases((w - 1) as nat, 127);
        }
        assert(pow2(127) == 0x80000000000000000000000000000000) by {
            lemma_pow2_adds(64, 63);
            lemma2_to64();
            lemma2_to64_rest();
        }
    }
    if u >= half {
        -((wmax - u) as i128) - 1
    } else {
        u as i128
    }
}

/// Marker bound for the blanket implementation: every byte source gets the
/// LEB128 reading methods.
pub trait Sealed {

}

impl<S: ByteSource> Sealed for S {

}

/// Methods to read LEB128 (little endian base 128) encoded numbers, given
/// to every byte source.
pub trait Leb128Read: Sealed + ByteSource {
    /// Reads an unsigned LEB128 as `u16`. Fails if it does not fit.
    fn read_leb128_u16(&mut self) -> (r: Result<u16, RwError>)
        ensures
            fixed_u_post(
                old(self).remaining(),
                final(self).remaining(),
                16,
                (match r {
                    Ok(v) => Ok::<u128, RwError>(v as u128),
                    Err(e) => Err(e),
                }),
            ),
    ;

    /// Reads a signed LEB128 as `i16`. Fails if it does not fit.
    fn read_leb128_i16(&mut self) -> (r: Result<i16, RwError>)
        ensures
            fixed_s_post(
                old(self).remaining(),
                final(self).remaining(),
                16,
                (match r {
                    Ok(v) => Ok::<i128, RwError>(v as i128),
                    Err(e) => Err(e),
                }),
            ),
    ;

    /// Reads an unsigned LEB128 as `u32`. Fails if it does not fit.
    fn read_leb128_u32(&mut self) -> (r: Result<u32, RwError>)
        ensures
            fixed_u_post(
                old(self).remaining(),
                final(self).remaining(),
                32,
                (match r {
                    Ok(v) => Ok::<u128, RwError>(v as u128),
                    Err(e) => Err(e),
                }),
            ),
    ;

    /// Reads a signed LEB128 as `i32`. Fails if it does not fit.
    fn read_leb128_i32(&mut self) -> (r: Result<i32, RwError>)
        ensures
            fixed_s_post(
                old(self).remaining(),
                final(self).remaining(),
                32,
                (match r {
                    Ok(v) => Ok::<i128, RwError>(v as i128),
                    Err(e) => Err(e),
                }),
            ),
    ;

    /// Reads an unsigned LEB128 as `u64`. Fails if it does not fit.
    fn read_leb128_u64(&mut self) -> (r: Result<u64, RwError>)
        ensures
            fixed_u_post(
                old(self).remaining(),
                final(self).remaining(),
                64,
                (match r {
                    Ok(v) => Ok::<u128, RwError>(v as u128),
                    Err(e) => Err(e),
                }),
            ),
    ;

    /// Reads a signed LEB128 as `i64`. Fails if it does not fit.
    fn read_leb128_i64(&mut self) -> (r: Result<i64, RwError>)
        ensures
            fixed_s_post(
                old(self).remaining(),
                final(self).remaining(),
                64,
                (match r {
                    Ok(v) => Ok::<i128, RwError>(v as i128),
                    Err(e) => Err(e),
                }),
            ),
    ;

    /// Reads an unsigned LEB128 as `u128`. Fails if it does not fit.
    fn read_leb128_u128(&mut self) -> (r: Result<u128, RwError>)
        ensures
            fixed_u_post(old(self).remaining(), final(self).remaining(), 128, r),
    ;

    /// Reads a signed LEB128 as `i128`. Fails if it does not fit.
    fn read_leb128_i128(&mut self) -> (r: Result<i128, RwError>)
        ensures
            fixed_s_post(old(self).remaining(), final(self).remaining(), 128, r),
    ;

    /// Reads a signed LEB128 of arbitrary length. The returned buffer is
    /// little endian two's complement. `max_size` caps the size of the
    /// returned buffer, not the amount of data read.
    fn read_leb128_large_signed(&mut self, max_size: usize) -> (r: Result<Vec<u8>, RwError>)
        ensures
            large_post(
                old(self).remaining(),
                final(self).remaining(),
                true,
                max_size as nat,
                (match r {
                    Ok(v) => Ok::<Seq<u8>, RwError>(v@),
                    Err(e) => Err(e),
                }),
            ),
    ;

    /// Reads an unsigned LEB128 of arbitrary length. The returned buffer is
    /// little endian. `max_size` caps the size of the returned buffer, not
    /// the amount of data read.
    fn read_leb128_large_unsigned(&mut self, max_size: usize) -> (r: Result<Vec<u8>, RwError>)
        ensures
            large_post(
                old(self).remaining(),
                final(self).remaining(),
                false,
                max_size as nat,
                (match r {
                    Ok(v) => Ok::<Seq<u8>, RwError>(v@),
                    Err(e) => Err(e),
                }),
            ),
    ;
}

impl<S: ByteSource> Leb128Read for S {
    fn read_leb128_u16(&mut self) -> (r: Result<u16, RwError>) {
        match read_leb128_unsigned(self, 16) {
            Ok(v) => {
                proof {
                    lemma2_to64();
                }
                Ok(v as u16)
            },
            Err(e) => Err(e),
        }
    }

    fn read_leb128_i16(&mut self) -> (r: Result<i16, RwError>) {
        match read_leb128_signed(self, 16) {
            Ok(v) => {
                proof {
                    lemma_sleb_value_range(old(self).remaining(), 16);
                    lemma2_to64();
                }
                Ok(v as i16)
            },
            Err(e) => Err(e),
        }
    }

    fn read_leb128_u32(&mut self) -> (r: Result<u32, RwError>) {
        match read_leb128_unsigned(self, 32) {
            Ok(v) => {
                proof {
                    lemma2_to64();
                }
                Ok(v as u32)
            },
            Err(e) => Err(e),
        }
    }

    fn read_leb128_i32(&mut self) -> (r: Result<i32, RwError>) {
        match read_leb128_signed(self, 32) {
            Ok(v) => {
                proof {
                    lemma_sleb_value_range(old(self).remaining(), 32);
                    lemma2_to64();
                }
                Ok(v as i32)
            },
            Err(e) => Err(e),
        }
    }

    fn read_leb128_u64(&mut self) -> (r: Result<u64, RwError>) {
        match read_leb128_unsigned(self, 64) {
            Ok(v) => {
                proof {
                    lemma2_to64();
                }
                Ok(v as u64)
            },
            Err(e) => Err(e),
        }
    }

    fn read_leb128_i64(&mut self) -> (r: Result<i64, RwError>) {
        match read_leb128_signed(self, 64) {
            Ok(v) => {
                proof {
                    lemma_sleb_value_range(old(self).remaining(), 64);
                    lemma2_to64();
                    lemma2_to64_rest();
                }
                Ok(v as i64)
            },
            Err(e) => Err(e),
        }
    }

    fn read_leb128_u128(&mut self) -> (r: Result<u128, RwError>) {
        read_leb128_unsigned(self, 128)
    }

    fn read_leb128_i128(&mut self) -> (r: Result<i128, RwError>) {
        read_leb128_signed(self, 128)
    }

    fn read_leb128_large_signed(&mut self, max_size: usize) -> (r: Result<Vec<u8>, RwError>) {
        read_leb128_large(self, max_size, true)
    }

    fn read_leb128_large_unsigned(&mut self, max_size: usize) -> (r: Result<Vec<u8>, RwError>) {
        read_leb128_large(self, max_size, false)
    }
}

} // verus!
