//! The laws the codec obeys, stated over the wire-format model and proved
//! once and for all: encode and decode are inverses, encodings are minimal,
//! oversized magnitudes are rejected, and the fixed-width and
//! arbitrary-width decoders agree.
use vstd::arithmetic::div_mod::*;
use vstd::arithmetic::mul::*;
use vstd::arithmetic::power2::*;
use vstd::prelude::*;

use crate::leb128_spec::{
    all_cont, fixed_s_ok, fixed_s_overflow, fixed_u_ok, fixed_u_overflow, from_bits_signed, group_len,
    flush_limit, has_terminal, is_terminal, large_filler, large_fits, large_full, large_kept, large_neg,
    large_raw_len, large_reaches_end, large_result, large_sign_kept, large_u_ext, large_value,
    le_bytes, le_signed, le_value, lemma_group_structure, lemma_le_bytes_append,
    lemma_le_bytes_len, lemma_le_bytes_mod, lemma_le_value_append, lemma_le_value_bound,
    lemma_le_value_le_bytes, lemma_le_value_singleton, lemma_sleb_value_range,
    lemma_uleb_value_bound, max_groups, payload, sign_bit, signed_filler, sleb_bits,
    sleb_fixed_groups, sleb_groups, sleb_value, to_bits, trimmed_len, uleb_groups, uleb_value,
};

verus! {

/// Decoding an encoding gives the value back: for every value `v` that a
/// `w`-bit unsigned decode can represent, the canonical groups of `v`
/// decode at width `w` to exactly `v`, consuming exactly themselves.
pub proof fn lemma_unsigned_round_trip(v: nat, w: nat)
    requires
        1 <= w <= 128,
        v < pow2(w),
    ensures
        fixed_u_ok(uleb_groups(v), w),
        uleb_value(uleb_groups(v)) == v,
        group_len(uleb_groups(v)) == uleb_groups(v).len(),
{
    lemma_uleb_groups_decode(v);
    lemma_uleb_groups_len_bounded(v, w);
}

/// The canonical groups of `v` carry `v` and end at their last byte.
proof fn lemma_uleb_groups_decode(v: nat)
    ensures
        has_terminal(uleb_groups(v)),
        group_len(uleb_groups(v)) == uleb_groups(v).len(),
        uleb_value(uleb_groups(v)) == v,
        uleb_groups(v).len() >= 1,
    decreases v,
{
    if v < 128 {
        assert(uleb_groups(v) =~= seq![v as u8]);
    } else {
        lemma_uleb_groups_decode(v / 128);
        let b = (128 + v % 128) as u8;
        let g = uleb_groups(v);
        let rest = uleb_groups(v / 128);
        assert(g.skip(1) =~= rest);
        assert(!is_terminal(b));
        assert(payload(b) == v % 128);
        lemma_fundamental_div_mod(v as int, 128);
    }
}

/// The canonical groups of a value below `pow2(w)` fit the width's group
/// budget.
proof fn lemma_uleb_groups_len_bounded(v: nat, w: nat)
    requires
        1 <= w,
        v < pow2(w),
    ensures
        uleb_groups(v).len() <= max_groups(w),
    decreases v,
{
    if v < 128 {
    } else {
        assert(w > 7) by {
            lemma2_to64();
            if w < 7 {
                lemma_pow2_strictly_increases(w, 7);
            }
        }
        assert(v / 128 < pow2((w - 7) as nat)) by {
            lemma_pow2_adds((w - 7) as nat, 7);
            lemma2_to64();
            lemma_div_is_ordered(v as int, pow2(w) - 1, 128);
            assert((pow2(w) - 1) / 128 == pow2((w - 7) as nat) - 1) by {
                lemma_fundamental_div_mod_converse(
                    pow2(w) - 1,
                    128,
                    pow2((w - 7) as nat) - 1,
                    127,
                );
            }
        }
        lemma_uleb_groups_len_bounded(v / 128, (w - 7) as nat);
        assert(max_groups((w - 7) as nat) == max_groups(w) - 1) by {
            let m = max_groups(w);
            lemma_fundamental_div_mod((w + 6) as int, 7);
            lemma_fundamental_div_mod_converse(
                (w - 7 + 6) as int,
                7,
                m - 1,
                ((w + 6) % 7) as int,
            );
        }
    }
}

/// A group sequence whose magnitude needs more than `w` bits makes the
/// `w`-bit unsigned decode fail with overflow.
pub proof fn lemma_unsigned_overflow(s: Seq<u8>, w: nat)
    requires
        1 <= w <= 128,
        has_terminal(s),
        uleb_value(s) >= pow2(w),
    ensures
        fixed_u_overflow(s, w),
{
    lemma_group_structure(s);
    let gl = group_len(s);
    let m = max_groups(w);
    assert(7 * (m - 1) < w && w <= 7 * m) by {
        lemma_fundamental_div_mod((w + 6) as int, 7);
    }
    if gl < m {
        // too few groups to even reach bit w
        lemma_uleb_value_bound(s);
        assert(pow2(7 * gl) <= pow2(w)) by {
            if 7 * gl < w {
                lemma_pow2_strictly_increases(7 * gl, w);
            }
        }
        assert(false);
    }
    assert(all_cont(s, (m - 1) as nat));
    if gl > m {
        assert(all_cont(s, m));
        assert(!is_terminal(s[m - 1]));
    }
}

/// A signed group sequence that runs past the width's group budget makes
/// the `w`-bit signed decode fail with overflow. (Within the budget the
/// signed decode never fails: extra magnitude is dropped by the
/// fixed-width accumulator, as the width's two's complement drops it.)
pub proof fn lemma_signed_overflow(s: Seq<u8>, w: nat)
    requires
        1 <= w <= 128,
        has_terminal(s),
        group_len(s) > max_groups(w),
    ensures
        fixed_s_overflow(s, w),
{
    lemma_group_structure(s);
}

/// On one group stream, the fixed-width unsigned decode and the
/// arbitrary-width decode with cap `w / 8` agree: whenever the fixed
/// decode succeeds, the arbitrary decode succeeds, and its little-endian
/// buffer holds the same number.
pub proof fn lemma_arbitrary_fixed_agree(s: Seq<u8>, w: nat)
    requires
        w == 16 || w == 32 || w == 64 || w == 128,
        fixed_u_ok(s, w),
    ensures
        large_reaches_end(s, (w / 8) as nat),
        large_fits(s, false, (w / 8) as nat),
        le_value(large_result(s, false, (w / 8) as nat)) == uleb_value(s),
{
    let cap = (w / 8) as nat;
    let gl = group_len(s);
    let raw = large_raw_len(s);
    let u = uleb_value(s);
    lemma_group_structure(s);
    assert(gl <= max_groups(w));
    assert(large_reaches_end(s, cap));
    assert(large_u_ext(s, false) == u);
    assert(large_filler(s, false) == 0);
    let full = large_full(s, false);
    lemma_le_bytes_len(u, raw);
    lemma_pow2_pos(8 * cap);
    assert(pow2(8 * cap) == pow2(w));
    if raw <= cap {
        // the buffer is below the cap: nothing to drop
        assert(large_kept(s, cap) == raw);
        assert(large_result(s, false, cap) =~= full);
        lemma_le_value_le_bytes(u, raw);
        assert(u < pow2(8 * raw)) by {
            lemma_uleb_value_bound(s);
            assert(7 * gl <= 8 * raw);
            if 7 * gl < 8 * raw {
                lemma_pow2_strictly_increases(7 * gl, 8 * raw);
            }
        }
        lemma_pow2_pos(8 * raw);
        lemma_small_mod(u, pow2(8 * raw));
    } else {
        // every byte past the cap holds only zeros of the magnitude
        assert(large_kept(s, cap) == cap);
        lemma_le_bytes_append(u, cap, (raw - cap) as nat);
        assert(u / pow2(8 * cap) == 0) by {
            lemma_basic_div(u as int, pow2(8 * cap) as int);
        }
        assert(full == le_bytes(u, cap) + le_bytes(0, (raw - cap) as nat));
        lemma_le_bytes_len(u, cap);
        lemma_le_bytes_zero((raw - cap) as nat);
        assert forall|i: int| cap <= i < raw implies #[trigger] full[i] == large_filler(
            s,
            false,
        ) by {
            assert(full[i] == le_bytes(0, (raw - cap) as nat)[i - cap]);
        }
        assert(large_result(s, false, cap) =~= le_bytes(u, cap));
        lemma_le_value_le_bytes(u, cap);
        lemma_small_mod(u, pow2(8 * cap));
    }
}

/// Splitting a two's complement pattern at its low seven bits splits its
/// signed value the same way.
proof fn lemma_from_bits_step(p: nat, b: nat, w: nat)
    requires
        8 <= w,
        p < 128,
        b < pow2((w - 7) as nat),
    ensures
        p + 128 * b < pow2(w),
        from_bits_signed((p + 128 * b) as nat, w) == p + 128 * from_bits_signed(
            b,
            (w - 7) as nat,
        ),
{
    lemma_pow2_pos(w);
    lemma_pow2_pos((w - 7) as nat);
    lemma_pow2_pos((w - 8) as nat);
    assert(pow2(w) == 128 * pow2((w - 7) as nat)) by {
        lemma_pow2_adds(7, (w - 7) as nat);
        lemma2_to64();
    }
    assert(pow2((w - 1) as nat) == 128 * pow2((w - 8) as nat)) by {
        lemma_pow2_adds(7, (w - 8) as nat);
        lemma2_to64();
    }
    assert(pow2((w - 7) as nat) == 2 * pow2((w - 8) as nat)) by {
        lemma_pow2_adds(1, (w - 8) as nat);
        lemma2_to64();
    }
    if b >= pow2((w - 8) as nat) {
        assert(p + 128 * b >= 128 * pow2((w - 8) as nat)) by {
            lemma_mul_inequality(pow2((w - 8) as nat) as int, b as int, 128);
            lemma_mul_is_commutative(pow2((w - 8) as nat) as int, 128);
            lemma_mul_is_commutative(b as int, 128);
        }
        assert(p + 128 * b - pow2(w) == p + 128 * (b - pow2((w - 7) as nat))) by {
            lemma_mul_is_distributive_sub(128, b as int, pow2((w - 7) as nat) as int);
        }
    } else {
        assert(p + 128 * b < 128 * (b + 1) && 128 * (b + 1) <= 128 * pow2((w - 8) as nat)) by {
            lemma_mul_is_distributive_add(128, b as int, 1);
            lemma_mul_inequality(b as int + 1, pow2((w - 8) as nat) as int, 128);
            lemma_mul_is_commutative(b as int + 1, 128);
            lemma_mul_is_commutative(pow2((w - 8) as nat) as int, 128);
        }
    }
}

/// The signed encoder's groups for a `w`-bit pattern decode, at width `w`,
/// back to the pattern's signed value.
proof fn lemma_sleb_fixed_decode(u: nat, w: nat)
    requires
        1 <= w <= 128,
        u < pow2(w),
    ensures
        ({
            let g = sleb_fixed_groups(u, w);
            &&& has_terminal(g)
            &&& group_len(g) == g.len()
            &&& g.len() >= 1
            &&& g.len() <= max_groups(w)
            &&& sleb_value(g, w) == from_bits_signed(u, w)
        }),
    decreases w,
{
    let g = sleb_fixed_groups(u, w);
    let p = u % 128;
    let r = u / 128;
    lemma_pow2_pos(w);
    lemma_fundamental_div_mod(u as int, 128);
    if w <= 7 {
        // the budget is exhausted: one bare group of the remaining bits
        assert(g =~= seq![p as u8]);
        assert(u < 128) by {
            lemma2_to64();
            if w < 7 {
                lemma_pow2_strictly_increases(w, 7);
            }
        }
        assert(p == u) by {
            lemma_small_mod(u, 128);
        }
        assert(uleb_value(g) == u);
        lemma_small_mod(u, pow2(w));
        assert(sleb_bits(g, w) == u);
    } else {
        assert(pow2(w) == 128 * pow2((w - 7) as nat)) by {
            lemma_pow2_adds(7, (w - 7) as nat);
            lemma2_to64();
        }
        assert(r < pow2((w - 7) as nat)) by {
            lemma_mul_is_commutative(pow2((w - 7) as nat) as int, 128);
            lemma_multiply_divide_lt(u as int, 128, pow2((w - 7) as nat) as int);
        }
        if p >= 64 && r == pow2((w - 7) as nat) - 1 {
            // the rest of the pattern is pure set sign bits
            assert(g =~= seq![p as u8]);
            assert(uleb_value(g) == p);
            assert(sleb_bits(g, w) == (p + pow2(w) - pow2(7)) as nat) by {
                lemma_small_mod(p, pow2(w));
                lemma2_to64();
                lemma_pow2_strictly_increases(7, w);
                assert(sign_bit(p as u8) && 7 * group_len(g) < w);
            }
            lemma2_to64();
            assert(u == pow2(w) - 128 + p);
            assert(pow2(w) >= 256 && pow2((w - 1) as nat) >= 128) by {
                lemma2_to64();
                if w > 8 {
                    lemma_pow2_strictly_increases(8, w);
                }
                if w - 1 > 7 {
                    lemma_pow2_strictly_increases(7, (w - 1) as nat);
                }
            }
            assert(pow2(w) == 2 * pow2((w - 1) as nat)) by {
                lemma_pow2_adds(1, (w - 1) as nat);
                lemma2_to64();
            }
            assert(from_bits_signed(u, w) == p - 128);
            assert(from_bits_signed(sleb_bits(g, w), w) == p - 128);
        } else if p < 64 && r == 0 {
            // the rest of the pattern is all clear
            assert(g =~= seq![p as u8]);
            assert(u == p);
            assert(uleb_value(g) == p);
            lemma_small_mod(p, pow2(w));
            assert(!sign_bit(p as u8));
            assert(sleb_bits(g, w) == u);
            assert(pow2((w - 1) as nat) >= 64) by {
                lemma2_to64();
                if w - 1 > 6 {
                    lemma_pow2_strictly_increases(6, (w - 1) as nat);
                }
            }
        } else {
            // one continuation group, then the shifted pattern
            lemma_sleb_fixed_decode(r, (w - 7) as nat);
            let b = (p + 128) as u8;
            let gr = sleb_fixed_groups(r, (w - 7) as nat);
            assert(g =~= seq![b] + gr);
            assert(g.skip(1) =~= gr);
            assert(!is_terminal(b) && payload(b) == p);
            assert(uleb_value(g) == p + 128 * uleb_value(gr));
            assert(group_len(g) == 1 + group_len(gr));
            assert(g.len() <= max_groups(w)) by {
                lemma_max_groups_step(w);
            }
            // the accumulated bits split the same way as the pattern
            let ur = uleb_value(gr) % pow2((w - 7) as nat);
            lemma_pow2_pos((w - 7) as nat);
            lemma_mod_bound(uleb_value(gr) as int, pow2((w - 7) as nat) as int);
            assert(uleb_value(g) % pow2(w) == p + 128 * ur) by {
                let q = uleb_value(gr) / pow2((w - 7) as nat);
                lemma_fundamental_div_mod(uleb_value(gr) as int, pow2((w - 7) as nat) as int);
                assert(p + 128 * uleb_value(gr) == pow2(w) * q + (p + 128 * ur)) by {
                    lemma_mul_is_distributive_add(
                        128,
                        (pow2((w - 7) as nat) * q) as int,
                        ur as int,
                    );
                    lemma_mul_is_associative(128, pow2((w - 7) as nat) as int, q as int);
                }
                assert(0 <= p + 128 * ur < pow2(w)) by {
                    lemma_mul_inequality(ur as int, pow2((w - 7) as nat) - 1, 128);
                    lemma_mul_is_commutative(ur as int, 128);
                    lemma_mul_is_commutative(pow2((w - 7) as nat) - 1, 128);
                    lemma_mul_is_distributive_sub(128, pow2((w - 7) as nat) as int, 1);
                }
                lemma_fundamental_div_mod_converse(
                    (p + 128 * uleb_value(gr)) as int,
                    pow2(w) as int,
                    q as int,
                    (p + 128 * ur) as int,
                );
            }
            let gl = group_len(g);
            let glr = group_len(gr);
            assert(g[gl - 1] == gr[glr - 1]);
            assert(sleb_bits(g, w) == p + 128 * sleb_bits(gr, (w - 7) as nat)) by {
                if sign_bit(gr[glr - 1]) && 7 * glr < w - 7 {
                    assert(pow2(7 * gl) == 128 * pow2(7 * glr)) by {
                        lemma_pow2_adds(7, 7 * glr);
                        lemma2_to64();
                    }
                    assert(128 * ((ur + pow2((w - 7) as nat) - pow2(7 * glr)) as nat) == 128 * ur
                        + pow2(w) - pow2(7 * gl)) by {
                        lemma_pow2_strictly_increases(7 * glr, (w - 7) as nat);
                        lemma_mul_is_distributive_add(
                            128,
                            ur as int,
                            pow2((w - 7) as nat) - pow2(7 * glr),
                        );
                        lemma_mul_is_distributive_sub(
                            128,
                            pow2((w - 7) as nat) as int,
                            pow2(7 * glr) as int,
                        );
                    }
                    assert(7 * gl < w);
                } else {
                    assert(!(sign_bit(g[gl - 1]) && 7 * gl < w));
                }
            }
            lemma_sleb_value_range(gr, (w - 7) as nat);
            lemma_from_bits_step(p, sleb_bits(gr, (w - 7) as nat), w);
            lemma_from_bits_step(p, r, w);
        }
    }
}

/// `max_groups` loses exactly one group per seven bits of width.
proof fn lemma_max_groups_step(w: nat)
    requires
        8 <= w,
    ensures
        max_groups((w - 7) as nat) == max_groups(w) - 1,
{
    let m = max_groups(w);
    lemma_fundamental_div_mod((w + 6) as int, 7);
    lemma_fundamental_div_mod_converse((w - 7 + 6) as int, 7, m - 1, ((w + 6) % 7) as int);
}

/// Decoding an encoding gives the value back, signed: for every value `v`
/// in the `w`-bit two's complement range, the groups the signed encoder
/// emits for `v`'s bit pattern decode at width `w` to exactly `v`.
pub proof fn lemma_signed_round_trip(v: int, w: nat)
    requires
        1 <= w <= 128,
        -(pow2((w - 1) as nat) as int) <= v < pow2((w - 1) as nat),
    ensures
        ({
            let g = sleb_fixed_groups(to_bits(v, w), w);
            &&& fixed_s_ok(g, w)
            &&& sleb_value(g, w) == v
            &&& group_len(g) == g.len()
        }),
{
    lemma_pow2_pos(w);
    lemma_pow2_pos((w - 1) as nat);
    assert(pow2(w) == 2 * pow2((w - 1) as nat)) by {
        lemma_pow2_adds(1, (w - 1) as nat);
        lemma2_to64();
    }
    let u = to_bits(v, w);
    assert(u < pow2(w)) by {
        lemma_mod_bound(v, pow2(w) as int);
    }
    assert(from_bits_signed(u, w) == v) by {
        if v >= 0 {
            lemma_small_mod(v as nat, pow2(w));
        } else {
            lemma_mod_add_multiples_vanish(v, pow2(w) as int);
            lemma_small_mod((v + pow2(w)) as nat, pow2(w));
        }
    }
    lemma_sleb_fixed_decode(u, w);
}

/// The unsigned encoding is minimal: no complete group sequence carrying
/// the same value is shorter than the canonical one.
pub proof fn lemma_unsigned_minimal(s: Seq<u8>)
    requires
        has_terminal(s),
        group_len(s) == s.len(),
    ensures
        s.len() >= uleb_groups(uleb_value(s)).len(),
    decreases s.len(),
{
    lemma_group_structure(s);
    let v = uleb_value(s);
    if is_terminal(s[0]) {
        assert(v == payload(s[0]) && v < 128);
    } else {
        let rest = s.skip(1);
        lemma_unsigned_minimal(rest);
        if v >= 128 {
            assert(v == payload(s[0]) + 128 * uleb_value(rest));
            assert(v / 128 == uleb_value(rest)) by {
                lemma_mul_is_commutative(128, uleb_value(rest) as int);
                lemma_fundamental_div_mod_converse(
                    v as int,
                    128,
                    uleb_value(rest) as int,
                    payload(s[0]) as int,
                );
            }
        }
    }
}

/// The signed encoder never emits more groups than the width admits.
proof fn lemma_sleb_fixed_len_le(u: nat, w: nat)
    requires
        1 <= w,
    ensures
        1 <= sleb_fixed_groups(u, w).len() <= max_groups(w),
    decreases w,
{
    if w > 7 {
        let p = u % 128;
        let r = u / 128;
        if !(p >= 64 && r == pow2((w - 7) as nat) - 1) && !(p < 64 && r == 0) {
            lemma_sleb_fixed_len_le(r, (w - 7) as nat);
            lemma_max_groups_step(w);
        }
    }
}

/// The bit pattern of the shifted value is the shifted bit pattern.
proof fn lemma_to_bits_step(v: int, w: nat)
    requires
        8 <= w <= 128,
        -(pow2((w - 1) as nat) as int) <= v < pow2((w - 1) as nat),
    ensures
        to_bits(v, w) / 128 == to_bits(v / 128, (w - 7) as nat),
        to_bits(v, w) % 128 == (v % 128) as nat,
{
    lemma_pow2_pos(w);
    lemma_pow2_pos((w - 7) as nat);
    lemma_pow2_pos((w - 1) as nat);
    assert(pow2(w) == 128 * pow2((w - 7) as nat)) by {
        lemma_pow2_adds(7, (w - 7) as nat);
        lemma2_to64();
    }
    assert(pow2(w) == 2 * pow2((w - 1) as nat)) by {
        lemma_pow2_adds(1, (w - 1) as nat);
        lemma2_to64();
    }
    let u = to_bits(v, w);
    let p = v % 128;
    let q = v / 128;
    lemma_fundamental_div_mod(v, 128);
    if v >= 0 {
        lemma_small_mod(v as nat, pow2(w));
        assert(u == v);
        lemma_div_pos_is_pos(v, 128);
        assert(q < pow2((w - 7) as nat)) by {
            lemma_mul_is_commutative(pow2((w - 7) as nat) as int, 128);
            lemma_multiply_divide_lt(v, 128, pow2((w - 7) as nat) as int);
        }
        lemma_small_mod(q as nat, pow2((w - 7) as nat));
        lemma_fundamental_div_mod_converse(u as int, 128, q, p);
    } else {
        lemma_mod_add_multiples_vanish(v, pow2(w) as int);
        lemma_small_mod((v + pow2(w)) as nat, pow2(w));
        assert(u == v + pow2(w));
        // the shifted value is still negative, and its pattern is the
        // shifted pattern plus the reinstated high bits
        assert(-(pow2((w - 8) as nat) as int) <= q <= -1) by {
            lemma_div_is_ordered(v, -1, 128);
            lemma_fundamental_div_mod_converse(-1, 128, -1, 127);
            lemma_div_is_ordered(-(pow2((w - 1) as nat) as int), v, 128);
            assert(pow2((w - 1) as nat) == 128 * pow2((w - 8) as nat)) by {
                lemma_pow2_adds(7, (w - 8) as nat);
                lemma2_to64();
            }
            lemma_fundamental_div_mod_converse(
                -(pow2((w - 1) as nat) as int),
                128,
                -(pow2((w - 8) as nat) as int),
                0,
            );
        }
        assert(pow2((w - 7) as nat) >= pow2((w - 8) as nat)) by {
            lemma_pow2_strictly_increases((w - 8) as nat, (w - 7) as nat);
        }
        assert(u == 128 * (q + pow2((w - 7) as nat)) + p) by {
            lemma_mul_is_distributive_add(128, q, pow2((w - 7) as nat) as int);
        }
        assert(u / 128 == q + pow2((w - 7) as nat) && u % 128 == p) by {
            lemma_fundamental_div_mod_converse(
                u as int,
                128,
                q + pow2((w - 7) as nat),
                p,
            );
        }
        assert(to_bits(q, (w - 7) as nat) == q + pow2((w - 7) as nat)) by {
            lemma_mod_add_multiples_vanish(q, pow2((w - 7) as nat) as int);
            lemma_small_mod((q + pow2((w - 7) as nat)) as nat, pow2((w - 7) as nat));
        }
    }
}

/// A value that seven-bit groups can sign-extend from is encoded in that
/// many groups or fewer.
proof fn lemma_sleb_fixed_len_minimal(v: int, w: nat, k: nat)
    requires
        1 <= k,
        7 * k < w <= 128,
        -(pow2((7 * k - 1) as nat) as int) <= v < pow2((7 * k - 1) as nat),
    ensures
        sleb_fixed_groups(to_bits(v, w), w).len() <= k,
    decreases k,
{
    lemma_pow2_pos(w);
    lemma_pow2_pos((w - 7) as nat);
    lemma_pow2_pos((7 * k - 1) as nat);
    assert(pow2((7 * k - 1) as nat) <= pow2((w - 1) as nat)) by {
        if 7 * k - 1 < w - 1 {
            lemma_pow2_strictly_increases((7 * k - 1) as nat, (w - 1) as nat);
        }
    }
    let u = to_bits(v, w);
    let p = u % 128;
    let r = u / 128;
    lemma_to_bits_step(v, w);
    if k == 1 {
        // the first group is already terminal
        assert(pow2(6) == 64) by {
            lemma2_to64();
        }
        assert(pow2(w) == 128 * pow2((w - 7) as nat) && pow2(w) == 2 * pow2((w - 1) as nat)) by {
            lemma2_to64();
            lemma_pow2_adds(7, (w - 7) as nat);
            lemma_pow2_adds(1, (w - 1) as nat);
        }
        if v >= 0 {
            lemma_small_mod(v as nat, pow2(w));
            assert(u == v && v < 64);
            lemma_basic_div(v, 128);
            lemma_small_mod(v as nat, 128);
            assert(p < 64 && r == 0);
        } else {
            lemma_mod_add_multiples_vanish(v, pow2(w) as int);
            lemma_small_mod((v + pow2(w)) as nat, pow2(w));
            assert(u == v + pow2(w));
            assert(u == 128 * (pow2((w - 7) as nat) - 1) + (128 + v)) by {
                lemma_mul_is_distributive_sub(128, pow2((w - 7) as nat) as int, 1);
            }
            assert(p == 128 + v && r == pow2((w - 7) as nat) - 1) by {
                lemma_mul_is_commutative(128, pow2((w - 7) as nat) - 1);
                lemma_fundamental_div_mod_converse(
                    u as int,
                    128,
                    pow2((w - 7) as nat) - 1,
                    128 + v,
                );
            }
            assert(p >= 64);
        }
        assert(sleb_fixed_groups(u, w) =~= seq![p as u8]);
    } else {
        if (p >= 64 && r == pow2((w - 7) as nat) - 1) || (p < 64 && r == 0) {
            assert(sleb_fixed_groups(u, w).len() == 1);
        } else {
            let vr = v / 128;
            assert(-(pow2((7 * (k - 1) - 1) as nat) as int) <= vr < pow2(
                (7 * (k - 1) - 1) as nat,
            )) by {
                assert(pow2((7 * k - 1) as nat) == 128 * pow2((7 * (k - 1) - 1) as nat)) by {
                    lemma_pow2_adds(7, (7 * (k - 1) - 1) as nat);
                    lemma2_to64();
                }
                lemma_div_is_ordered(-(pow2((7 * k - 1) as nat) as int), v, 128);
                lemma_fundamental_div_mod_converse(
                    -(pow2((7 * k - 1) as nat) as int),
                    128,
                    -(pow2((7 * (k - 1) - 1) as nat) as int),
                    0,
                );
                lemma_div_is_ordered(v, pow2((7 * k - 1) as nat) - 1, 128);
                lemma_fundamental_div_mod_converse(
                    pow2((7 * k - 1) as nat) - 1,
                    128,
                    pow2((7 * (k - 1) - 1) as nat) - 1,
                    127,
                );
            }
            lemma_sleb_fixed_len_minimal(vr, (w - 7) as nat, (k - 1) as nat);
            assert(r == to_bits(vr, (w - 7) as nat));
        }
    }
}

/// The value carried up to and including the terminal group sits between
/// the terminal payload's contribution and the next payload up.
proof fn lemma_uleb_value_top(s: Seq<u8>)
    requires
        has_terminal(s),
    ensures
        payload(s[group_len(s) - 1]) * pow2(7 * (group_len(s) - 1) as nat) <= uleb_value(s)
            < (payload(s[group_len(s) - 1]) + 1) * pow2(7 * (group_len(s) - 1) as nat),
    decreases s.len(),
{
    lemma_group_structure(s);
    let gl = group_len(s);
    let top = payload(s[gl - 1]);
    if is_terminal(s[0]) {
        assert(pow2(0) == 1) by {
            lemma2_to64();
        }
        lemma_mul_basics(top as int);
        lemma_mul_basics(top as int + 1);
    } else {
        let rest = s.skip(1);
        lemma_uleb_value_top(rest);
        let glr = group_len(rest);
        assert(s[gl - 1] == rest[glr - 1]);
        let pr = pow2(7 * (glr - 1) as nat);
        let pg = pow2(7 * (gl - 1) as nat);
        assert(pg == 128 * pr) by {
            lemma_pow2_adds(7, 7 * (glr - 1) as nat);
            lemma2_to64();
        }
        assert(uleb_value(s) == payload(s[0]) + 128 * uleb_value(rest));
        assert(128 * (top * pr) <= 128 * uleb_value(rest)) by {
            lemma_mul_inequality((top * pr) as int, uleb_value(rest) as int, 128);
            lemma_mul_is_commutative((top * pr) as int, 128);
            lemma_mul_is_commutative(uleb_value(rest) as int, 128);
        }
        assert(128 * (top * pr) == top * pg) by (nonlinear_arith)
            requires
                pg == 128 * pr,
        ;
        assert(uleb_value(rest) + 1 <= (top + 1) * pr);
        assert(payload(s[0]) + 128 * uleb_value(rest) < 128 * (uleb_value(rest) + 1)) by {
            lemma_mul_is_distributive_add(128, uleb_value(rest) as int, 1);
        }
        assert(128 * (uleb_value(rest) + 1) <= 128 * ((top + 1) * pr)) by {
            lemma_mul_inequality(
                uleb_value(rest) as int + 1,
                ((top + 1) * pr) as int,
                128,
            );
            lemma_mul_is_commutative(uleb_value(rest) as int + 1, 128);
            lemma_mul_is_commutative(((top + 1) * pr) as int, 128);
        }
        assert(128 * ((top + 1) * pr) == (top + 1) * pg) by (nonlinear_arith)
            requires
                pg == 128 * pr,
        ;
    }
}

/// What a `k`-group sequence can decode to, at a width with room to spare:
/// a value sign-extendable from `7 * k` bits.
proof fn lemma_groups_value_range(s: Seq<u8>, w: nat)
    requires
        1 <= w <= 128,
        has_terminal(s),
        7 * group_len(s) < w,
    ensures
        -(pow2((7 * group_len(s) - 1) as nat) as int) <= sleb_value(s, w) < pow2(
            (7 * group_len(s) - 1) as nat,
        ),
{
    lemma_group_structure(s);
    let gl = group_len(s);
    let u = uleb_value(s);
    let top = payload(s[gl - 1]);
    lemma_uleb_value_bound(s);
    lemma_uleb_value_top(s);
    lemma_pow2_pos(w);
    lemma_pow2_pos(7 * gl);
    lemma_pow2_pos((7 * gl - 1) as nat);
    assert(pow2(7 * gl) == 2 * pow2((7 * gl - 1) as nat)) by {
        lemma_pow2_adds(1, (7 * gl - 1) as nat);
        lemma2_to64();
    }
    assert(pow2((7 * gl - 1) as nat) == 64 * pow2(7 * (gl - 1) as nat)) by {
        lemma_pow2_adds(6, 7 * (gl - 1) as nat);
        lemma2_to64();
    }
    assert(pow2(7 * gl) < pow2(w)) by {
        lemma_pow2_strictly_increases(7 * gl, w);
    }
    assert(pow2(w) == 2 * pow2((w - 1) as nat)) by {
        lemma_pow2_adds(1, (w - 1) as nat);
        lemma2_to64();
    }
    lemma_small_mod(u, pow2(w));
    assert(sleb_bits(s, w) == if sign_bit(s[gl - 1]) {
        (u + pow2(w) - pow2(7 * gl)) as nat
    } else {
        u
    });
    if sign_bit(s[gl - 1]) {
        // at least the sign contribution is present
        assert(64 * pow2(7 * (gl - 1) as nat) <= top * pow2(7 * (gl - 1) as nat)) by {
            lemma_mul_inequality(64, top as int, pow2(7 * (gl - 1) as nat) as int);
            lemma_mul_is_commutative(64, pow2(7 * (gl - 1) as nat) as int);
            lemma_mul_is_commutative(top as int, pow2(7 * (gl - 1) as nat) as int);
        }
        assert(u >= pow2((7 * gl - 1) as nat));
        assert(sleb_bits(s, w) >= pow2((w - 1) as nat));
        assert(sleb_value(s, w) == u - pow2(7 * gl));
    } else {
        // the top payload keeps the value below the sign threshold
        assert((top + 1) * pow2(7 * (gl - 1) as nat) <= 64 * pow2(7 * (gl - 1) as nat)) by {
            lemma_mul_inequality(top as int + 1, 64, pow2(7 * (gl - 1) as nat) as int);
            lemma_mul_is_commutative(top as int + 1, pow2(7 * (gl - 1) as nat) as int);
            lemma_mul_is_commutative(64, pow2(7 * (gl - 1) as nat) as int);
        }
        assert(u < pow2((7 * gl - 1) as nat));
        assert(sleb_bits(s, w) < pow2((w - 1) as nat));
    }
}

/// The signed encoding is minimal: no complete group sequence that decodes
/// at width `w` to the same value is shorter than what the signed encoder
/// emits for that value.
pub proof fn lemma_signed_minimal(s: Seq<u8>, w: nat)
    requires
        1 <= w <= 128,
        has_terminal(s),
        group_len(s) == s.len(),
    ensures
        s.len() >= sleb_fixed_groups(to_bits(sleb_value(s, w), w), w).len(),
{
    lemma_group_structure(s);
    let k = s.len();
    let v = sleb_value(s, w);
    let m = max_groups(w);
    lemma_sleb_fixed_len_le(to_bits(v, w), w);
    if 7 * k < w {
        lemma_groups_value_range(s, w);
        lemma_sleb_fixed_len_minimal(v, w, k);
    } else {
        assert(k >= m) by {
            lemma_fundamental_div_mod((w + 6) as int, 7);
        }
    }
}

/// A buffer of zero bytes holds zero.
proof fn lemma_le_value_zeros(s: Seq<u8>)
    requires
        forall|i: int| 0 <= i < s.len() ==> s[i] == 0,
    ensures
        le_value(s) == 0,
    decreases s.len(),
{
    if s.len() > 0 {
        assert(forall|i: int| 0 <= i < s.skip(1).len() ==> s.skip(1)[i] == s[i + 1]);
        lemma_le_value_zeros(s.skip(1));
    }
}

/// A buffer of all-ones bytes holds the all-ones value.
proof fn lemma_le_value_ones(s: Seq<u8>)
    requires
        forall|i: int| 0 <= i < s.len() ==> s[i] == 255,
    ensures
        le_value(s) == pow2(8 * s.len()) - 1,
    decreases s.len(),
{
    if s.len() == 0 {
        assert(pow2(0) == 1) by {
            lemma2_to64();
        }
    } else {
        assert(forall|i: int| 0 <= i < s.skip(1).len() ==> s.skip(1)[i] == s[i + 1]);
        lemma_le_value_ones(s.skip(1));
        lemma_pow2_adds(8, 8 * (s.len() - 1) as nat);
        lemma2_to64();
        assert(256 * (pow2(8 * (s.len() - 1) as nat) - 1) == pow2(8 * s.len()) - 256) by {
            lemma_mul_is_distributive_sub(256, pow2(8 * (s.len() - 1) as nat) as int, 1);
        }
    }
}

/// The top bit of the last byte of `x`'s buffer is `x`'s top bit.
proof fn lemma_le_bytes_last(x: nat, len: nat)
    requires
        1 <= len,
        x < pow2(8 * len),
    ensures
        (le_bytes(x, len)[len - 1] >= 128) == (x >= pow2((8 * len - 1) as nat)),
{
    lemma_pow2_pos(8 * (len - 1) as nat);
    lemma_pow2_pos((8 * len - 1) as nat);
    let pl = pow2(8 * (len - 1) as nat);
    let d = x / pl;
    lemma_le_bytes_append(x, (len - 1) as nat, 1);
    lemma_le_bytes_len(x, (len - 1) as nat);
    assert(le_bytes(d / 256, 0) =~= Seq::<u8>::empty());
    assert(le_bytes(d, 1) =~= seq![(d % 256) as u8]);
    assert(le_bytes(x, len)[len - 1] == (d % 256) as u8);
    assert(pow2(8 * len) == 256 * pl && pow2((8 * len - 1) as nat) == 128 * pl) by {
        lemma_pow2_adds(8, 8 * (len - 1) as nat);
        lemma_pow2_adds(7, 8 * (len - 1) as nat);
        lemma2_to64();
    }
    assert(d < 256) by {
        lemma_mul_is_commutative(pl as int, 256);
        lemma_multiply_divide_lt(x as int, pl as int, 256);
    }
    lemma_small_mod(d, 256);
    lemma_fundamental_div_mod(x as int, pl as int);
    if d >= 128 {
        assert(pl * d >= pl * 128) by {
            lemma_mul_inequality(128, d as int, pl as int);
            lemma_mul_is_commutative(pl as int, 128);
            lemma_mul_is_commutative(pl as int, d as int);
        }
    }
    if x >= 128 * pl {
        assert(d >= 128) by {
            lemma_div_is_ordered((128 * pl) as int, x as int, pl as int);
            lemma_div_by_multiple(128, pl as int);
        }
    }
}

/// What the unsigned arbitrary-width decode hands back reads as the
/// decoded magnitude: dropping redundant zero bytes keeps the number.
pub proof fn lemma_large_unsigned_value(s: Seq<u8>, cap: nat)
    requires
        has_terminal(s),
        large_fits(s, false, cap),
    ensures
        le_value(large_result(s, false, cap)) == uleb_value(s),
{
    lemma_group_structure(s);
    let gl = group_len(s);
    let raw = large_raw_len(s);
    let u = uleb_value(s);
    let full = large_full(s, false);
    lemma_le_bytes_len(u, raw);
    lemma_uleb_value_bound(s);
    lemma_pow2_pos(8 * raw);
    assert(u < pow2(8 * raw)) by {
        if 7 * gl < 8 * raw {
            lemma_pow2_strictly_increases(7 * gl, 8 * raw);
        }
    }
    if raw <= cap {
        assert(large_result(s, false, cap) =~= full);
        lemma_le_value_le_bytes(u, raw);
        lemma_small_mod(u, pow2(8 * raw));
    } else {
        lemma_pow2_pos(8 * cap);
        lemma_pow2_pos(8 * (raw - cap) as nat);
        let m = u / pow2(8 * cap);
        lemma_le_bytes_append(u, cap, (raw - cap) as nat);
        lemma_le_bytes_len(u, cap);
        lemma_le_bytes_len(m, (raw - cap) as nat);
        // the dropped bytes are all zero, so nothing stood above the cap
        assert forall|i: int| 0 <= i < raw - cap implies #[trigger] le_bytes(
            m,
            (raw - cap) as nat,
        )[i] == 0 by {
            assert(le_bytes(m, (raw - cap) as nat)[i] == full[i + cap]);
            assert(full[i + cap] == large_filler(s, false));
        }
        lemma_le_value_zeros(le_bytes(m, (raw - cap) as nat));
        lemma_le_value_le_bytes(m, (raw - cap) as nat);
        assert(m < pow2(8 * (raw - cap) as nat)) by {
            lemma_pow2_adds(8 * cap, 8 * (raw - cap) as nat);
            lemma_mul_is_commutative(pow2(8 * cap) as int, pow2(8 * (raw - cap) as nat) as int);
            lemma_multiply_divide_lt(u as int, pow2(8 * cap) as int, pow2(
                8 * (raw - cap) as nat,
            ) as int);
        }
        lemma_small_mod(m, pow2(8 * (raw - cap) as nat));
        assert(m == 0);
        assert(u < pow2(8 * cap)) by {
            lemma_small_div_converse(u as int, pow2(8 * cap) as int);
        }
        assert(large_result(s, false, cap) =~= le_bytes(u, cap));
        lemma_le_value_le_bytes(u, cap);
        lemma_small_mod(u, pow2(8 * cap));
    }
}

/// What the signed arbitrary-width decode hands back reads, as little-endian
/// two's complement, as the decoded value: a cut that fits cannot change
/// the number.
pub proof fn lemma_large_signed_value(s: Seq<u8>, cap: nat)
    requires
        has_terminal(s),
        large_fits(s, true, cap),
    ensures
        le_signed(large_result(s, true, cap)) == large_value(s, true),
{
    lemma_group_structure(s);
    let gl = group_len(s);
    let raw = large_raw_len(s);
    let u = uleb_value(s);
    let neg = large_neg(s, true);
    let uext = large_u_ext(s, true);
    let full = large_full(s, true);
    let v = large_value(s, true);
    lemma_le_bytes_len(uext, raw);
    lemma_uleb_value_bound(s);
    lemma_uleb_value_top(s);
    lemma_pow2_pos(8 * raw);
    lemma_pow2_pos((8 * raw - 1) as nat);
    lemma_pow2_pos(7 * gl);
    lemma_pow2_pos((7 * gl - 1) as nat);
    assert(raw >= 1 && 7 * gl <= 8 * raw && 8 * raw <= 7 * gl + 7) by {
        lemma_fundamental_div_mod((7 * gl + 7) as int, 8);
    }
    assert(pow2(7 * gl) <= pow2(8 * raw)) by {
        if 7 * gl < 8 * raw {
            lemma_pow2_strictly_increases(7 * gl, 8 * raw);
        }
    }
    assert(pow2((7 * gl - 1) as nat) <= pow2((8 * raw - 1) as nat)) by {
        if 7 * gl < 8 * raw {
            lemma_pow2_strictly_increases((7 * gl - 1) as nat, (8 * raw - 1) as nat);
        }
    }
    assert(pow2(7 * gl) == 2 * pow2((7 * gl - 1) as nat) && pow2(8 * raw) == 2 * pow2(
        (8 * raw - 1) as nat,
    )) by {
        lemma_pow2_adds(1, (7 * gl - 1) as nat);
        lemma_pow2_adds(1, (8 * raw - 1) as nat);
        lemma2_to64();
    }
    assert(pow2((7 * gl - 1) as nat) == 64 * pow2(7 * (gl - 1) as nat)) by {
        lemma_pow2_adds(6, 7 * (gl - 1) as nat);
        lemma2_to64();
    }
    // the value's sign is the top bit of the untruncated buffer
    if neg {
        assert(64 * pow2(7 * (gl - 1) as nat) <= payload(s[gl - 1]) * pow2(
            7 * (gl - 1) as nat,
        )) by {
            lemma_mul_inequality(64, payload(s[gl - 1]) as int, pow2(7 * (gl - 1) as nat) as int);
            lemma_mul_is_commutative(64, pow2(7 * (gl - 1) as nat) as int);
            lemma_mul_is_commutative(payload(s[gl - 1]) as int, pow2(7 * (gl - 1) as nat) as int);
        }
        assert(u >= pow2((7 * gl - 1) as nat));
        assert(uext >= pow2((8 * raw - 1) as nat));
    } else {
        assert((payload(s[gl - 1]) + 1) * pow2(7 * (gl - 1) as nat) <= 64 * pow2(
            7 * (gl - 1) as nat,
        )) by {
            lemma_mul_inequality(
                payload(s[gl - 1]) as int + 1,
                64,
                pow2(7 * (gl - 1) as nat) as int,
            );
            lemma_mul_is_commutative(payload(s[gl - 1]) as int + 1, pow2(
                7 * (gl - 1) as nat,
            ) as int);
            lemma_mul_is_commutative(64, pow2(7 * (gl - 1) as nat) as int);
        }
        assert(u < pow2((7 * gl - 1) as nat));
        assert(uext < pow2((8 * raw - 1) as nat));
    }
    assert(uext < pow2(8 * raw));
    if raw <= cap {
        // nothing was cut: the buffer's own sign bit is the value's
        assert(large_result(s, true, cap) =~= full);
        lemma_le_value_le_bytes(uext, raw);
        lemma_small_mod(uext, pow2(8 * raw));
        lemma_le_bytes_last(uext, raw);
        assert(full.last() == full[raw - 1]);
        assert((full.last() >= 128) == neg);
    } else {
        lemma_pow2_pos(8 * cap);
        lemma_pow2_pos(8 * (raw - cap) as nat);
        assert(large_sign_kept(s, cap));
        let m = uext / pow2(8 * cap);
        let kv = uext % pow2(8 * cap);
        lemma_le_bytes_append(uext, cap, (raw - cap) as nat);
        lemma_le_bytes_len(uext, cap);
        lemma_le_bytes_len(m, (raw - cap) as nat);
        assert forall|i: int| 0 <= i < raw - cap implies #[trigger] le_bytes(
            m,
            (raw - cap) as nat,
        )[i] == large_filler(s, true) by {
            assert(le_bytes(m, (raw - cap) as nat)[i] == full[i + cap]);
            assert(full[i + cap] == large_filler(s, true));
        }
        assert(m < pow2(8 * (raw - cap) as nat)) by {
            lemma_pow2_adds(8 * cap, 8 * (raw - cap) as nat);
            lemma_mul_is_commutative(pow2(8 * cap) as int, pow2(8 * (raw - cap) as nat) as int);
            lemma_multiply_divide_lt(uext as int, pow2(8 * cap) as int, pow2(
                8 * (raw - cap) as nat,
            ) as int);
        }
        lemma_le_value_le_bytes(m, (raw - cap) as nat);
        lemma_small_mod(m, pow2(8 * (raw - cap) as nat));
        lemma_fundamental_div_mod(uext as int, pow2(8 * cap) as int);
        if cap == 0 {
            // an empty cut stands only for zero
            assert(!neg);
            lemma_le_value_zeros(le_bytes(m, (raw - cap) as nat));
            assert(pow2(0) == 1) by {
                lemma2_to64();
            }
            lemma_div_basics(uext as int);
            assert(m == uext);
            assert(uext == 0);
            assert(large_result(s, true, cap) =~= Seq::<u8>::empty());
        } else {
            assert(large_result(s, true, cap) =~= le_bytes(uext, cap));
            let kept = le_bytes(uext, cap);
            lemma_le_value_le_bytes(uext, cap);
            assert(le_value(kept) == kv);
            assert(kept.last() == full[cap - 1]);
            assert((kept.last() >= 128) == neg);
            if neg {
                lemma_le_value_ones(le_bytes(m, (raw - cap) as nat));
                assert(m == pow2(8 * (raw - cap) as nat) - 1);
                assert(uext == kv + pow2(8 * raw) - pow2(8 * cap)) by {
                    lemma_pow2_adds(8 * cap, 8 * (raw - cap) as nat);
                    lemma_mul_is_distributive_sub(
                        pow2(8 * cap) as int,
                        pow2(8 * (raw - cap) as nat) as int,
                        1,
                    );
                }
                assert(le_signed(kept) == kv - pow2(8 * cap));
            } else {
                lemma_le_value_zeros(le_bytes(m, (raw - cap) as nat));
                assert(m == 0);
                lemma_mul_basics(pow2(8 * cap) as int);
                assert(uext == kv);
                assert(le_signed(kept) == kv);
            }
        }
    }
}

/// All the bytes of the all-ones value are ones.
proof fn lemma_le_bytes_ones(n: nat)
    ensures
        le_bytes((pow2(8 * n) - 1) as nat, n).len() == n,
        forall|i: int|
            0 <= i < n ==> #[trigger] le_bytes((pow2(8 * n) - 1) as nat, n)[i] == 255,
    decreases n,
{
    let x = (pow2(8 * n) - 1) as nat;
    lemma_pow2_pos(8 * n);
    lemma_le_bytes_len(x, n);
    if n > 0 {
        crate::arith::lemma_pow2_mask_split(8 * n, 8);
        assert(pow2(8) == 256) by {
            lemma2_to64();
        }
        assert(x % 256 == 255 && x / 256 == pow2((8 * n - 8) as nat) - 1);
        lemma_le_bytes_ones((n - 1) as nat);
        assert forall|i: int| 0 <= i < n implies #[trigger] le_bytes(x, n)[i] == 255 by {
            if i > 0 {
                assert(le_bytes(x, n)[i] == le_bytes(
                    (pow2(8 * (n - 1) as nat) - 1) as nat,
                    (n - 1) as nat,
                )[i - 1]);
            }
        }
    }
}

/// The signed arbitrary-width encoder never emits more groups than its
/// budget admits.
proof fn lemma_sleb_groups_len(v: int, b: nat)
    requires
        1 <= b,
    ensures
        1 <= sleb_groups(v, b).len() <= max_groups(b),
    decreases b,
{
    if b > 7 {
        let p = v % 128;
        let r = v / 128;
        if !(p >= 64 && r == -1) && !(p < 64 && r == 0) {
            lemma_sleb_groups_len(r, (b - 7) as nat);
            lemma_max_groups_step(b);
        }
    }
}

/// The signed arbitrary-width groups of `v` decode back to `v`, as long as
/// the budget does not cut the canonical encoding short.
proof fn lemma_sleb_groups_decode(v: int, b: nat)
    requires
        1 <= b,
        -(pow2((7 * max_groups(b) - 1) as nat) as int) <= v < pow2(
            (7 * max_groups(b) - 1) as nat,
        ),
    ensures
        ({
            let g = sleb_groups(v, b);
            &&& has_terminal(g)
            &&& group_len(g) == g.len()
            &&& 1 <= g.len()
            &&& large_neg(g, true) == (v < 0)
            &&& large_value(g, true) == v
        }),
    decreases b,
{
    let g = sleb_groups(v, b);
    let p = v % 128;
    let r = v / 128;
    let m = max_groups(b);
    lemma_pow2_pos((7 * m - 1) as nat);
    lemma_fundamental_div_mod(v, 128);
    lemma_pow2_pos(7);
    assert(pow2(7) == 128 && pow2(6) == 64) by {
        lemma2_to64();
    }
    if b <= 7 {
        assert(m == 1);
        assert(g =~= seq![p as u8]);
        assert(group_len(g) == 1 && has_terminal(g));
        if v >= 0 {
            lemma_small_mod(v as nat, 128);
            assert(p == v && p < 64);
        } else {
            lemma_mod_add_multiples_vanish(v, 128);
            lemma_small_mod((v + 128) as nat, 128);
            assert(p == v + 128 && p >= 64);
        }
        assert(uleb_value(g) == p);
        assert(large_neg(g, true) == (v < 0));
    } else if p >= 64 && r == -1 {
        assert(g =~= seq![p as u8]);
        assert(v == p - 128);
        assert(uleb_value(g) == p);
        assert(large_neg(g, true) && v < 0);
    } else if p < 64 && r == 0 {
        assert(g =~= seq![p as u8]);
        assert(v == p);
        assert(uleb_value(g) == p);
        assert(!large_neg(g, true) && v >= 0);
    } else {
        lemma_max_groups_step(b);
        assert(max_groups((b - 7) as nat) == m - 1);
        let pm = pow2((7 * m - 1) as nat);
        let pm7 = pow2((7 * (m - 1) - 1) as nat);
        lemma_pow2_pos((7 * (m - 1) - 1) as nat);
        assert(pm == 128 * pm7) by {
            lemma_pow2_adds(7, (7 * (m - 1) - 1) as nat);
        }
        assert(-(pm7 as int) <= r < pm7) by {
            lemma_div_is_ordered(-(pm as int), v, 128);
            lemma_fundamental_div_mod_converse(-(pm as int), 128, -(pm7 as int), 0);
            lemma_div_is_ordered(v, pm - 1, 128);
            lemma_fundamental_div_mod_converse(pm - 1, 128, pm7 - 1, 127);
        }
        lemma_sleb_groups_decode(r, (b - 7) as nat);
        let gr = sleb_groups(r, (b - 7) as nat);
        let b0 = (p + 128) as u8;
        assert(g =~= seq![b0] + gr);
        assert(g.skip(1) =~= gr);
        assert(!is_terminal(b0) && payload(b0) == p);
        assert(uleb_value(g) == p + 128 * uleb_value(gr));
        assert(group_len(g) == 1 + group_len(gr));
        let gl = group_len(g);
        let glr = group_len(gr);
        assert(g[gl - 1] == gr[glr - 1]);
        assert(large_neg(g, true) == large_neg(gr, true));
        assert((r < 0) == (v < 0));
        assert(pow2(7 * gl) == 128 * pow2(7 * glr)) by {
            lemma_pow2_adds(7, 7 * glr);
        }
        // the shifted value recombines linearly under the payload
        if r < 0 {
            assert(large_value(g, true) == p + 128 * uleb_value(gr) - 128 * pow2(7 * glr));
            assert(128 * uleb_value(gr) - 128 * pow2(7 * glr) == 128 * (uleb_value(gr) - pow2(
                7 * glr,
            ))) by {
                lemma_mul_is_distributive_sub(128, uleb_value(gr) as int, pow2(7 * glr) as int);
            }
            assert(large_value(g, true) == p + 128 * large_value(gr, true));
        } else {
            assert(large_value(g, true) == p + 128 * large_value(gr, true));
        }
    }
}

/// A signed stream whose value fits the cap's two's complement range fits
/// the cap: everything past it is pure sign filler, readable sign kept.
proof fn lemma_large_signed_fits(s: Seq<u8>, cap: nat)
    requires
        has_terminal(s),
        cap == 0 ==> large_value(s, true) == 0 && !large_neg(s, true),
        cap > 0 ==> -(pow2((8 * cap - 1) as nat) as int) <= large_value(s, true) < pow2(
            (8 * cap - 1) as nat,
        ),
    ensures
        large_fits(s, true, cap),
{
    lemma_group_structure(s);
    let gl = group_len(s);
    let raw = large_raw_len(s);
    let u = uleb_value(s);
    let neg = large_neg(s, true);
    let uext = large_u_ext(s, true);
    let full = large_full(s, true);
    let v = large_value(s, true);
    lemma_le_bytes_len(uext, raw);
    lemma_uleb_value_bound(s);
    lemma_pow2_pos(7 * gl);
    lemma_pow2_pos(8 * raw);
    assert(raw >= 1 && 7 * gl <= 8 * raw) by {
        lemma_fundamental_div_mod((7 * gl + 7) as int, 8);
    }
    assert(pow2(7 * gl) <= pow2(8 * raw)) by {
        if 7 * gl < 8 * raw {
            lemma_pow2_strictly_increases(7 * gl, 8 * raw);
        }
    }
    assert(neg == (v < 0));
    assert(uext == v + if neg {
        pow2(8 * raw) as int
    } else {
        0
    });
    if raw <= cap {
        assert(large_fits(s, true, cap));
    } else {
        lemma_pow2_pos(8 * cap);
        lemma_pow2_pos(8 * (raw - cap) as nat);
        lemma_pow2_pos((8 * cap - 1) as nat);
        let m = uext / pow2(8 * cap);
        lemma_le_bytes_append(uext, cap, (raw - cap) as nat);
        lemma_le_bytes_len(uext, cap);
        lemma_le_bytes_len(m, (raw - cap) as nat);
        assert(pow2(8 * raw) == pow2(8 * cap) * pow2(8 * (raw - cap) as nat)) by {
            lemma_pow2_adds(8 * cap, 8 * (raw - cap) as nat);
        }
        if cap == 0 {
            assert(uext == 0);
            lemma_le_bytes_zero(raw);
            assert(forall|i: int| 0 <= i < raw ==> #[trigger] full[i] == 0);
            assert(large_sign_kept(s, cap));
            assert(large_fits(s, true, cap));
        } else {
            assert(pow2(8 * cap) == 2 * pow2((8 * cap - 1) as nat)) by {
                lemma_pow2_adds(1, (8 * cap - 1) as nat);
                lemma2_to64();
            }
            if neg {
                // the whole tail is sign extension: all-ones bytes
                assert(m == pow2(8 * (raw - cap) as nat) - 1 && uext % pow2(8 * cap) == v + pow2(
                    8 * cap,
                )) by {
                    assert(uext == pow2(8 * cap) * (pow2(8 * (raw - cap) as nat) - 1) + (v + pow2(
                        8 * cap,
                    ))) by {
                        lemma_mul_is_distributive_sub(
                            pow2(8 * cap) as int,
                            pow2(8 * (raw - cap) as nat) as int,
                            1,
                        );
                    }
                    lemma_fundamental_div_mod_converse(
                        uext as int,
                        pow2(8 * cap) as int,
                        pow2(8 * (raw - cap) as nat) - 1,
                        v + pow2(8 * cap),
                    );
                }
                lemma_le_bytes_ones((raw - cap) as nat);
                assert forall|i: int| cap <= i < raw implies #[trigger] full[i] == large_filler(
                    s,
                    true,
                ) by {
                    assert(full[i] == le_bytes(m, (raw - cap) as nat)[i - cap]);
                }
                lemma_le_bytes_mod(uext, cap);
                lemma_le_bytes_last((v + pow2(8 * cap)) as nat, cap);
                assert(full[cap - 1] == le_bytes((v + pow2(8 * cap)) as nat, cap)[cap - 1]);
                assert(large_sign_kept(s, cap));
            } else {
                assert(m == 0) by {
                    lemma_basic_div(uext as int, pow2(8 * cap) as int);
                }
                lemma_le_bytes_zero((raw - cap) as nat);
                assert forall|i: int| cap <= i < raw implies #[trigger] full[i] == large_filler(
                    s,
                    true,
                ) by {
                    assert(full[i] == le_bytes(0, (raw - cap) as nat)[i - cap]);
                }
                lemma_small_mod(uext, pow2(8 * cap));
                lemma_le_bytes_mod(uext, cap);
                lemma_le_bytes_last(uext, cap);
                assert(full[cap - 1] == le_bytes(uext, cap)[cap - 1]);
                assert(large_sign_kept(s, cap));
            }
            assert(large_fits(s, true, cap));
        }
    }
}

/// Decoding an encoding gives the value back, arbitrary width and signed:
/// the groups the signed encoder emits for a two's complement buffer decode,
/// under the buffer's own byte length as the cap, to a buffer carrying the
/// same value. The one family of inputs left out: when the significant
/// length is a multiple of seven, the encoder's bit budget can cut the
/// canonical terminal group short, and the emitted stream then denotes a
/// different value.
pub proof fn lemma_large_signed_round_trip(x: Seq<u8>)
    requires
        x.len() >= 1,
        trimmed_len(x, signed_filler(x)) == 0 || (-(pow2(
            (7 * max_groups(8 * trimmed_len(x, signed_filler(x))) - 1) as nat,
        ) as int) <= le_signed(x) < pow2(
            (7 * max_groups(8 * trimmed_len(x, signed_filler(x))) - 1) as nat,
        )),
    ensures
        ({
            let g = sleb_groups(le_signed(x), 8 * trimmed_len(x, signed_filler(x)));
            &&& large_reaches_end(g, x.len())
            &&& large_fits(g, true, x.len())
            &&& le_signed(large_result(g, true, x.len())) == le_signed(x)
        }),
{
    let lt = trimmed_len(x, signed_filler(x));
    let v = le_signed(x);
    let g = sleb_groups(v, 8 * lt);
    let cap = x.len();
    crate::leb128_spec::lemma_trimmed_len_le(x, signed_filler(x));
    // the buffer's own width bounds its value
    lemma_le_value_bound(x.drop_last());
    assert(x =~= x.drop_last() + seq![x.last()]);
    lemma_le_value_append(x.drop_last(), seq![x.last()]);
    lemma_le_value_singleton(x.last());
    let ptl = pow2(8 * (cap - 1) as nat) as int;
    lemma_pow2_pos(8 * (cap - 1) as nat);
    lemma_pow2_pos((8 * cap - 1) as nat);
    assert(pow2((8 * cap - 1) as nat) == 128 * ptl && pow2(8 * cap) == 256 * ptl) by {
        lemma_pow2_adds(7, 8 * (cap - 1) as nat);
        lemma_pow2_adds(8, 8 * (cap - 1) as nat);
        lemma2_to64();
    }
    lemma_le_value_bound(x);
    assert(-(pow2((8 * cap - 1) as nat) as int) <= v < pow2((8 * cap - 1) as nat)) by {
        if x.last() >= 128 {
            assert(le_value(x) >= 128 * ptl) by {
                lemma_mul_inequality(128, x.last() as int, ptl);
                lemma_mul_is_commutative(128, ptl);
                lemma_mul_is_commutative(x.last() as int, ptl);
            }
        } else {
            assert(ptl * x.last() <= 127 * ptl) by {
                lemma_mul_inequality(x.last() as int, 127, ptl);
                lemma_mul_is_commutative(x.last() as int, ptl);
            }
            assert(le_value(x) < 128 * ptl);
        }
    }
    if lt == 0 {
        // nothing significant: the value is zero or minus one
        assert(pow2(0) == 1 && pow2(6) == 64 && pow2(7) == 128) by {
            lemma2_to64();
        }
        crate::leb128_spec::lemma_forced_trim(x, x.last() >= 128);
        assert(x.take(0) =~= Seq::<u8>::empty());
        assert(le_value(Seq::<u8>::empty()) == 0);
        assert(v == if x.last() >= 128 {
            -1int
        } else {
            0int
        });
        assert(-1 <= v < 1);
        let p = v % 128;
        assert(g =~= seq![p as u8]);
        if v < 0 {
            lemma_mod_add_multiples_vanish(v, 128);
            lemma_small_mod((v + 128) as nat, 128);
            assert(p == 127);
        } else {
            lemma_small_mod(0nat, 128);
            assert(p == 0);
        }
        assert(has_terminal(g) && group_len(g) == 1);
        assert(uleb_value(g) == p);
        assert(large_neg(g, true) == (v < 0));
        assert(large_value(g, true) == v);
    } else {
        lemma_sleb_groups_decode(v, 8 * lt);
        lemma_sleb_groups_len(v, 8 * lt);
    }
    // the group count never outruns the first over-cap flush
    assert(group_len(g) <= flush_limit(cap)) by {
        assert(g.len() <= max_groups(8 * cap)) by {
            if lt < cap {
                lemma_div_is_ordered((8 * lt + 6) as int, (8 * cap + 6) as int, 7);
            }
        }
        let qq = cap / 7;
        let rr = cap % 7;
        lemma_fundamental_div_mod(cap as int, 7);
        lemma_mod_bound(cap as int, 7);
        assert(max_groups(8 * cap) <= 8 * qq + 8) by {
            lemma_fundamental_div_mod((8 * rr + 6) as int, 7);
            lemma_mod_bound((8 * rr + 6) as int, 7);
            lemma_fundamental_div_mod_converse(
                (8 * cap + 6) as int,
                7,
                (8 * qq + (8 * rr + 6) / 7) as int,
                ((8 * rr + 6) % 7) as int,
            );
            assert((8 * rr + 6) / 7 <= 8) by {
                lemma_div_is_ordered((8 * rr + 6) as int, 62, 7);
                lemma_fundamental_div_mod_converse(62, 7, 8, 6);
            }
        }
    }
    assert(large_reaches_end(g, cap));
    lemma_large_signed_fits(g, cap);
    lemma_large_signed_value(g, cap);
}

/// What `k` groups can denote, signed: a value sign-extendable from
/// `7 * k` bits.
proof fn lemma_large_value_range(s: Seq<u8>)
    requires
        has_terminal(s),
    ensures
        -(pow2((7 * group_len(s) - 1) as nat) as int) <= large_value(s, true) < pow2(
            (7 * group_len(s) - 1) as nat,
        ),
{
    lemma_group_structure(s);
    let gl = group_len(s);
    let u = uleb_value(s);
    let top = payload(s[gl - 1]);
    lemma_uleb_value_bound(s);
    lemma_uleb_value_top(s);
    lemma_pow2_pos(7 * (gl - 1) as nat);
    assert(pow2((7 * gl - 1) as nat) == 64 * pow2(7 * (gl - 1) as nat)) by {
        lemma_pow2_adds(6, 7 * (gl - 1) as nat);
        lemma2_to64();
    }
    assert(pow2(7 * gl) == 2 * pow2((7 * gl - 1) as nat)) by {
        lemma_pow2_adds(1, (7 * gl - 1) as nat);
        lemma2_to64();
    }
    if large_neg(s, true) {
        assert(64 * pow2(7 * (gl - 1) as nat) <= top * pow2(7 * (gl - 1) as nat)) by {
            lemma_mul_inequality(64, top as int, pow2(7 * (gl - 1) as nat) as int);
            lemma_mul_is_commutative(64, pow2(7 * (gl - 1) as nat) as int);
            lemma_mul_is_commutative(top as int, pow2(7 * (gl - 1) as nat) as int);
        }
        assert(u >= pow2((7 * gl - 1) as nat));
    } else {
        assert((top + 1) * pow2(7 * (gl - 1) as nat) <= 64 * pow2(7 * (gl - 1) as nat)) by {
            lemma_mul_inequality(top as int + 1, 64, pow2(7 * (gl - 1) as nat) as int);
            lemma_mul_is_commutative(top as int + 1, pow2(7 * (gl - 1) as nat) as int);
            lemma_mul_is_commutative(64, pow2(7 * (gl - 1) as nat) as int);
        }
        assert(u < pow2((7 * gl - 1) as nat));
    }
}

/// A value that seven-bit groups can sign-extend from is emitted by the
/// arbitrary-width signed encoder in that many groups or fewer, whatever
/// its budget.
proof fn lemma_sleb_groups_len_minimal(v: int, b: nat, k: nat)
    requires
        1 <= k,
        -(pow2((7 * k - 1) as nat) as int) <= v < pow2((7 * k - 1) as nat),
    ensures
        sleb_groups(v, b).len() <= k,
    decreases k,
{
    let p = v % 128;
    let r = v / 128;
    lemma_fundamental_div_mod(v, 128);
    lemma_pow2_pos((7 * k - 1) as nat);
    assert(pow2(6) == 64) by {
        lemma2_to64();
    }
    if b <= 7 {
        assert(sleb_groups(v, b) =~= seq![p as u8]);
    } else if k == 1 {
        if v >= 0 {
            lemma_small_mod(v as nat, 128);
            assert(p < 64 && r == 0) by {
                lemma_basic_div(v, 128);
            }
        } else {
            lemma_mod_add_multiples_vanish(v, 128);
            lemma_small_mod((v + 128) as nat, 128);
            assert(p == v + 128 && p >= 64);
            assert(r == -1) by {
                lemma_fundamental_div_mod_converse(v, 128, -1, v + 128);
            }
        }
        assert(sleb_groups(v, b) =~= seq![p as u8]);
    } else {
        if (p >= 64 && r == -1) || (p < 64 && r == 0) {
            assert(sleb_groups(v, b).len() == 1);
        } else {
            let pk = pow2((7 * k - 1) as nat);
            let pk7 = pow2((7 * (k - 1) - 1) as nat);
            lemma_pow2_pos((7 * (k - 1) - 1) as nat);
            assert(pk == 128 * pk7) by {
                lemma_pow2_adds(7, (7 * (k - 1) - 1) as nat);
                lemma2_to64();
            }
            assert(-(pk7 as int) <= r < pk7) by {
                lemma_div_is_ordered(-(pk as int), v, 128);
                lemma_fundamental_div_mod_converse(-(pk as int), 128, -(pk7 as int), 0);
                lemma_div_is_ordered(v, pk - 1, 128);
                lemma_fundamental_div_mod_converse(pk - 1, 128, pk7 - 1, 127);
            }
            lemma_sleb_groups_len_minimal(r, (b - 7) as nat, (k - 1) as nat);
        }
    }
}

/// The signed arbitrary-width encoding is minimal: no complete group
/// sequence denoting the same signed value is shorter than what the
/// encoder emits for it, whatever the encoder's bit budget.
pub proof fn lemma_large_signed_minimal(s: Seq<u8>, b: nat)
    requires
        has_terminal(s),
        group_len(s) == s.len(),
    ensures
        s.len() >= sleb_groups(large_value(s, true), b).len(),
{
    lemma_group_structure(s);
    lemma_large_value_range(s);
    lemma_sleb_groups_len_minimal(large_value(s, true), b, s.len());
}

/// All the bytes of zero are zero.
proof fn lemma_le_bytes_zero(n: nat)
    ensures
        le_bytes(0, n).len() == n,
        forall|i: int| 0 <= i < n ==> #[trigger] le_bytes(0, n)[i] == 0,
    decreases n,
{
    lemma_le_bytes_len(0, n);
    if n > 0 {
        lemma_le_bytes_zero((n - 1) as nat);
        assert forall|i: int| 0 <= i < n implies #[trigger] le_bytes(0, n)[i] == 0 by {
            if i > 0 {
                assert(le_bytes(0, n)[i] == le_bytes(0, (n - 1) as nat)[i - 1]);
            }
        }
    }
}

} // verus!
