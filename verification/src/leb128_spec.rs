//! The mathematical model of the LEB128 wire format.
//!
//! A group is one byte: the low seven bits are payload, the high bit says
//! that more groups follow. Groups stand least significant first. A fixed
//! width decode accepts at most `max_groups(w)` groups; an arbitrary-width
//! decode turns the payload bits into a little-endian byte buffer.
use vstd::arithmetic::div_mod::*;
use vstd::arithmetic::mul::*;
use vstd::arithmetic::power2::*;
use vstd::prelude::*;

use crate::RwError;

verus! {

/// The seven payload bits of a group.
pub open spec fn payload(b: u8) -> nat {
    (b % 128) as nat
}

/// A group without the continuation flag ends the group sequence.
pub open spec fn is_terminal(b: u8) -> bool {
    b < 128
}

/// Bit six of a payload: the sign of a signed value's terminal group.
pub open spec fn sign_bit(b: u8) -> bool {
    payload(b) >= 64
}

/// Whether the stream holds a terminal group at all.
pub open spec fn has_terminal(s: Seq<u8>) -> bool
    decreases s.len(),
{
    s.len() > 0 && (is_terminal(s[0]) || has_terminal(s.skip(1)))
}

/// Bytes up to and including the first terminal group.
pub open spec fn group_len(s: Seq<u8>) -> nat
    decreases s.len(),
{
    if s.len() == 0 {
        0
    } else if is_terminal(s[0]) {
        1
    } else {
        1 + group_len(s.skip(1))
    }
}

/// The unsigned value carried by the group sequence at the head of `s`:
/// payloads least significant first, up to the first terminal group.
pub open spec fn uleb_value(s: Seq<u8>) -> nat
    decreases s.len(),
{
    if s.len() == 0 {
        0
    } else if is_terminal(s[0]) {
        payload(s[0])
    } else {
        payload(s[0]) + 128 * uleb_value(s.skip(1))
    }
}

/// The canonical (minimal) unsigned LEB128 group sequence of `n`.
pub open spec fn uleb_groups(n: nat) -> Seq<u8>
    decreases n,
{
    if n < 128 {
        seq![n as u8]
    } else {
        seq![(128 + n % 128) as u8] + uleb_groups(n / 128)
    }
}

/// The group sequence a width-`w` signed encode emits for the bit pattern
/// `u` (the value's two's complement in `w` bits, `u < pow2(w)`). A group is
/// terminal once the rest of the pattern is pure sign extension, or once the
/// bit budget is exhausted; in the latter case the payload holds just the
/// remaining pattern bits.
pub open spec fn sleb_fixed_groups(u: nat, w: nat) -> Seq<u8>
    decreases w,
{
    let p = u % 128;
    let r = u / 128;
    if w <= 7 {
        seq![p as u8]
    } else if p >= 64 && r == pow2((w - 7) as nat) - 1 {
        seq![p as u8]
    } else if p < 64 && r == 0 {
        seq![p as u8]
    } else {
        seq![(p + 128) as u8] + sleb_fixed_groups(r, (w - 7) as nat)
    }
}

/// The group sequence the arbitrary-width signed encode emits for the exact
/// integer `v` under a bit budget: canonical termination (the rest of the
/// value is pure sign), except that an exhausted budget forces a terminal
/// group. Division and remainder are Euclidean, so `p` is the low seven bits
/// of the two's complement and `r` the arithmetically shifted rest.
pub open spec fn sleb_groups(v: int, budget: nat) -> Seq<u8>
    decreases budget,
{
    let p = v % 128;
    let r = v / 128;
    if budget <= 7 {
        seq![p as u8]
    } else if p >= 64 && r == -1 {
        seq![p as u8]
    } else if p < 64 && r == 0 {
        seq![p as u8]
    } else {
        seq![(p + 128) as u8] + sleb_groups(r, (budget - 7) as nat)
    }
}

/// `k` groups that all carry the continuation flag, holding the low `7 * k`
/// bits of `u`: what the arbitrary-width encode emits for a full window.
pub open spec fn raw_groups(u: nat, k: nat) -> Seq<u8>
    decreases k,
{
    if k == 0 {
        Seq::empty()
    } else {
        seq![(128 + u % 128) as u8] + raw_groups(u / 128, (k - 1) as nat)
    }
}

/// How many groups a width-`w` decode ever consumes.
pub open spec fn max_groups(w: nat) -> nat {
    (w + 6) / 7
}

/// The first `k` bytes exist and all carry the continuation flag.
pub open spec fn all_cont(s: Seq<u8>, k: nat) -> bool {
    s.len() >= k && forall|i: int| 0 <= i < k ==> !is_terminal(#[trigger] s[i])
}

/// A width-`w` unsigned decode succeeds: a terminal group arrives within the
/// group budget and every payload bit lands below bit `w`.
pub open spec fn fixed_u_ok(s: Seq<u8>, w: nat) -> bool {
    has_terminal(s) && group_len(s) <= max_groups(w) && uleb_value(s) < pow2(w)
}

/// A width-`w` unsigned decode overflows, after consuming `max_groups(w)`
/// bytes: either the group budget runs out, or the last allowed group carries
/// payload bits at or above bit `w`.
pub open spec fn fixed_u_overflow(s: Seq<u8>, w: nat) -> bool {
    s.len() >= max_groups(w) && all_cont(s, (max_groups(w) - 1) as nat) && (is_terminal(
        s[max_groups(w) - 1],
    ) ==> uleb_value(s) >= pow2(w))
}

/// A width-`w` signed decode succeeds: a terminal group arrives within the
/// group budget. Payload bits at or above bit `w` do not fail; the
/// accumulator of width `w` drops them.
pub open spec fn fixed_s_ok(s: Seq<u8>, w: nat) -> bool {
    has_terminal(s) && group_len(s) <= max_groups(w)
}

/// A width-`w` signed decode overflows: the group budget runs out.
pub open spec fn fixed_s_overflow(s: Seq<u8>, w: nat) -> bool {
    all_cont(s, max_groups(w))
}

/// A fixed-width decode drains the source: the stream ends before a terminal
/// group and before the group budget.
pub open spec fn fixed_io(s: Seq<u8>, w: nat) -> bool {
    !has_terminal(s) && s.len() < max_groups(w)
}

/// The `w`-bit pattern a signed decode accumulates: the payload bits below
/// bit `w`, and, when the terminal group's sign bit is set and the shift has
/// not reached `w`, all higher bits of the pattern.
pub open spec fn sleb_bits(s: Seq<u8>, w: nat) -> nat {
    let g = group_len(s);
    let u = uleb_value(s) % pow2(w);
    if 0 < g <= s.len() && sign_bit(s[g - 1]) && 7 * g < w {
        (u + pow2(w) - pow2(7 * g)) as nat
    } else {
        u
    }
}

/// Reinterpret a `w`-bit pattern as a two's complement signed value.
pub open spec fn from_bits_signed(u: nat, w: nat) -> int {
    if u >= pow2((w - 1) as nat) {
        u - pow2(w)
    } else {
        u as int
    }
}

/// The signed value a width-`w` decode returns.
pub open spec fn sleb_value(s: Seq<u8>, w: nat) -> int {
    from_bits_signed(sleb_bits(s, w), w)
}

/// Exactly `len` little-endian bytes holding `n % pow2(8 * len)`.
pub open spec fn le_bytes(n: nat, len: nat) -> Seq<u8>
    decreases len,
{
    if len == 0 {
        Seq::empty()
    } else {
        seq![(n % 256) as u8] + le_bytes(n / 256, (len - 1) as nat)
    }
}

/// The unsigned value of a little-endian byte buffer.
pub open spec fn le_value(b: Seq<u8>) -> nat
    decreases b.len(),
{
    if b.len() == 0 {
        0
    } else {
        b[0] as nat + 256 * le_value(b.skip(1))
    }
}

/// The signed value of a little-endian two's complement byte buffer: the top
/// bit of the last byte is the sign.
pub open spec fn le_signed(b: Seq<u8>) -> int {
    if b.len() == 0 {
        0
    } else if b.last() >= 128 {
        le_value(b) - pow2(8 * b.len())
    } else {
        le_value(b) as int
    }
}

/// The buffer without its trailing filler bytes: its significant length.
pub open spec fn trimmed_len(b: Seq<u8>, filler: u8) -> nat
    decreases b.len(),
{
    if b.len() == 0 {
        0
    } else if b.last() == filler {
        trimmed_len(b.drop_last(), filler)
    } else {
        b.len()
    }
}

/// The byte a signed buffer's redundant tail is made of: `0xFF` under a set
/// sign bit, `0x00` otherwise.
pub open spec fn signed_filler(b: Seq<u8>) -> u8 {
    if b.len() > 0 && b.last() >= 128 {
        255
    } else {
        0
    }
}

pub proof fn lemma_le_bytes_len(n: nat, len: nat)
    ensures
        le_bytes(n, len).len() == len,
    decreases len,
{
    if len > 0 {
        lemma_le_bytes_len(n / 256, (len - 1) as nat);
    }
}

/// Only the low `8 * len` bits of `n` reach `le_bytes(n, len)`.
pub proof fn lemma_le_bytes_mod(n: nat, len: nat)
    ensures
        le_bytes(n, len) == le_bytes(n % pow2(8 * len), len),
    decreases len,
{
    if len == 0 {
        lemma_pow2_pos(8 * len);
        assert(le_bytes(n, len) =~= Seq::<u8>::empty());
        assert(le_bytes(n % pow2(8 * len), len) =~= Seq::<u8>::empty());
    } else {
        let m = n % pow2(8 * len);
        lemma_pow2_adds(8, (8 * len - 8) as nat);
        lemma2_to64();
        lemma_pow2_pos((8 * len - 8) as nat);
        lemma_breakdown(n as int, 256, pow2((8 * len - 8) as nat) as int);
        lemma_mod_mod(n as int, 256, pow2((8 * len - 8) as nat) as int);
        // the two heads agree, and the two tails are congruent
        assert(m % 256 == n % 256);
        assert(m / 256 == (n / 256) % pow2((8 * len - 8) as nat)) by {
            lemma_fundamental_div_mod_converse(
                m as int,
                256,
                ((n / 256) % pow2((8 * len - 8) as nat)) as int,
                (n % 256) as int,
            );
        }
        lemma_le_bytes_mod(n / 256, (len - 1) as nat);
        lemma_le_bytes_mod(m / 256, (len - 1) as nat);
        lemma_mod_twice((n / 256) as int, pow2((8 * (len - 1)) as nat) as int);
        assert(le_bytes(n / 256, (len - 1) as nat) == le_bytes(m / 256, (len - 1) as nat));
        assert(le_bytes(n, len) =~= le_bytes(m, len));
    }
}

/// Congruent values give the same bytes.
pub proof fn lemma_le_bytes_congruent(a: nat, b: nat, len: nat)
    requires
        a % pow2(8 * len) == b % pow2(8 * len),
    ensures
        le_bytes(a, len) == le_bytes(b, len),
{
    lemma_le_bytes_mod(a, len);
    lemma_le_bytes_mod(b, len);
}

/// Splitting the bytes of `n` at position `l1`.
pub proof fn lemma_le_bytes_append(n: nat, l1: nat, l2: nat)
    ensures
        le_bytes(n, l1 + l2) == le_bytes(n, l1) + le_bytes(n / pow2(8 * l1), l2),
    decreases l1,
{
    if l1 == 0 {
        assert(pow2(0) == 1) by {
            lemma2_to64();
        }
        lemma_div_basics_2(n as int);
        assert(n / pow2(0) == n);
        assert(le_bytes(n, 0) + le_bytes(n / pow2(0), l2) =~= le_bytes(n, l2));
    } else {
        lemma_le_bytes_append(n / 256, (l1 - 1) as nat, l2);
        lemma_pow2_adds(8, (8 * l1 - 8) as nat);
        lemma2_to64();
        lemma_pow2_pos((8 * l1 - 8) as nat);
        assert((n / 256) / pow2((8 * (l1 - 1)) as nat) == n / pow2(8 * l1)) by {
            lemma_div_denominator(n as int, 256, pow2((8 * l1 - 8) as nat) as int);
        }
        assert(le_bytes(n, l1 + l2) =~= le_bytes(n, l1) + le_bytes(n / pow2(8 * l1), l2));
    }
}

/// Reading back the bytes of `n` gives `n`, up to the held width.
pub proof fn lemma_le_value_le_bytes(n: nat, len: nat)
    ensures
        le_value(le_bytes(n, len)) == n % pow2(8 * len),
    decreases len,
{
    if len == 0 {
        assert(pow2(0) == 1) by {
            lemma2_to64();
        }
        lemma_mod_self_0(1);
        assert(n % 1 == 0) by {
            lemma_mod_multiples_basic(n as int, 1);
        }
    } else {
        lemma_le_value_le_bytes(n / 256, (len - 1) as nat);
        let tail = le_bytes(n / 256, (len - 1) as nat);
        assert((seq![(n % 256) as u8] + tail).skip(1) =~= tail);
        lemma_pow2_adds(8, (8 * len - 8) as nat);
        lemma2_to64();
        lemma_pow2_pos((8 * len - 8) as nat);
        lemma_breakdown(n as int, 256, pow2((8 * len - 8) as nat) as int);
    }
}

pub proof fn lemma_le_value_bound(s: Seq<u8>)
    ensures
        le_value(s) < pow2(8 * s.len()),
    decreases s.len(),
{
    if s.len() == 0 {
        lemma_pow2_pos(0);
    } else {
        lemma_le_value_bound(s.skip(1));
        lemma_pow2_adds(8, 8 * (s.len() - 1) as nat);
        lemma2_to64();
        let x = le_value(s.skip(1));
        assert(256 * x <= 256 * (pow2(8 * (s.len() - 1) as nat) - 1)) by {
            lemma_mul_inequality(x as int, pow2(8 * (s.len() - 1) as nat) - 1, 256);
            lemma_mul_is_commutative(x as int, 256);
            lemma_mul_is_commutative(pow2(8 * (s.len() - 1) as nat) - 1, 256);
        }
        assert(256 * (pow2(8 * (s.len() - 1) as nat) - 1) == pow2(8 * s.len()) - 256) by {
            lemma_mul_is_distributive_sub(256, pow2(8 * (s.len() - 1) as nat) as int, 1);
        }
    }
}

/// The value of a concatenation: the right part stands above the left.
pub proof fn lemma_le_value_append(a: Seq<u8>, b: Seq<u8>)
    ensures
        le_value(a + b) == le_value(a) + pow2(8 * a.len()) * le_value(b),
    decreases a.len(),
{
    if a.len() == 0 {
        assert(a + b =~= b);
        assert(pow2(0) == 1) by {
            lemma2_to64();
        }
        assert(le_value(a) == 0);
        lemma_mul_basics(le_value(b) as int);
        assert(pow2(0) * le_value(b) == 1 * le_value(b));
        assert(le_value(a + b) == le_value(a) + pow2(8 * a.len()) * le_value(b));
    } else {
        lemma_le_value_append(a.skip(1), b);
        assert((a + b).skip(1) =~= a.skip(1) + b);
        let x = le_value(a.skip(1) + b);
        let y = le_value(a.skip(1));
        let z = le_value(b);
        let pk = pow2(8 * (a.len() - 1) as nat);
        assert(le_value(a + b) == a[0] + 256 * x);
        assert(x == y + pk * z);
        assert(256 * (y + pk * z) == 256 * y + pow2(8 * a.len()) * z) by {
            lemma_mul_is_distributive_add(256, y as int, (pk * z) as int);
            lemma_mul_is_associative(256, pk as int, z as int);
            assert(256 * pk == pow2(8 * a.len())) by {
                lemma_pow2_adds(8, 8 * (a.len() - 1) as nat);
                lemma2_to64();
            }
        }
        assert(le_value(a + b) == a[0] + 256 * y + pow2(8 * a.len()) * z);
        assert(le_value(a) == a[0] + 256 * y);
    }
}

/// Dropping a trailing filler byte keeps the unsigned value (zero filler).
pub proof fn lemma_le_value_drop_zero(s: Seq<u8>)
    requires
        s.len() > 0,
        s.last() == 0,
    ensures
        le_value(s) == le_value(s.drop_last()),
{
    assert(s =~= s.drop_last() + seq![s.last()]);
    lemma_le_value_append(s.drop_last(), seq![s.last()]);
    assert(le_value(seq![s.last()]) == 0) by {
        assert(seq![s.last()].skip(1) =~= Seq::<u8>::empty());
        assert(le_value(seq![s.last()].skip(1)) == 0);
        assert(le_value(seq![s.last()]) == s.last() + 256 * le_value(seq![s.last()].skip(1)));
    }
    lemma_mul_basics(pow2(8 * s.drop_last().len()) as int);
    assert(le_value(s) == le_value(s.drop_last()) + pow2(8 * s.drop_last().len()) * le_value(
        seq![s.last()],
    ));
}

pub proof fn lemma_raw_groups_len(u: nat, k: nat)
    ensures
        raw_groups(u, k).len() == k,
    decreases k,
{
    if k > 0 {
        lemma_raw_groups_len(u / 128, (k - 1) as nat);
    }
}

/// Only the low `7 * k` bits of `u` reach `raw_groups(u, k)`.
pub proof fn lemma_raw_groups_mod(u: nat, k: nat)
    ensures
        raw_groups(u, k) == raw_groups(u % pow2(7 * k), k),
    decreases k,
{
    if k == 0 {
        lemma_pow2_pos(0);
        assert(raw_groups(u, k) =~= Seq::<u8>::empty());
        assert(raw_groups(u % pow2(7 * k), k) =~= Seq::<u8>::empty());
    } else {
        let m = u % pow2(7 * k);
        lemma_pow2_adds(7, (7 * k - 7) as nat);
        lemma2_to64();
        lemma_pow2_pos((7 * k - 7) as nat);
        lemma_breakdown(u as int, 128, pow2((7 * k - 7) as nat) as int);
        lemma_mod_mod(u as int, 128, pow2((7 * k - 7) as nat) as int);
        assert(m % 128 == u % 128);
        assert(m / 128 == (u / 128) % pow2((7 * k - 7) as nat)) by {
            lemma_fundamental_div_mod_converse(
                m as int,
                128,
                ((u / 128) % pow2((7 * k - 7) as nat)) as int,
                (u % 128) as int,
            );
        }
        lemma_raw_groups_mod(u / 128, (k - 1) as nat);
        lemma_raw_groups_mod(m / 128, (k - 1) as nat);
        lemma_mod_twice((u / 128) as int, pow2((7 * (k - 1)) as nat) as int);
        assert(raw_groups(u, k) =~= raw_groups(m, k));
    }
}

/// Splitting the continuation groups of `u` at group `k1`.
pub proof fn lemma_raw_groups_append(u: nat, k1: nat, k2: nat)
    ensures
        raw_groups(u, k1 + k2) == raw_groups(u, k1) + raw_groups(u / pow2(7 * k1), k2),
    decreases k1,
{
    if k1 == 0 {
        assert(pow2(0) == 1) by {
            lemma2_to64();
        }
        lemma_div_basics(u as int);
        assert(u / pow2(0) == u);
        assert(raw_groups(u, 0) + raw_groups(u / pow2(0), k2) =~= raw_groups(u, k2));
    } else {
        lemma_raw_groups_append(u / 128, (k1 - 1) as nat, k2);
        lemma_pow2_adds(7, (7 * k1 - 7) as nat);
        lemma2_to64();
        lemma_pow2_pos((7 * k1 - 7) as nat);
        assert((u / 128) / pow2((7 * (k1 - 1)) as nat) == u / pow2(7 * k1)) by {
            lemma_div_denominator(u as int, 128, pow2((7 * k1 - 7) as nat) as int);
        }
        assert(raw_groups(u, k1 + k2) =~= raw_groups(u, k1) + raw_groups(u / pow2(7 * k1), k2));
    }
}

/// While more significant bits remain, the canonical groups of `v` open
/// with plain continuation groups.
pub proof fn lemma_uleb_groups_split(v: nat, k: nat)
    requires
        v / pow2(7 * k) > 0,
    ensures
        uleb_groups(v) == raw_groups(v, k) + uleb_groups(v / pow2(7 * k)),
    decreases k,
{
    lemma_pow2_pos(7 * k);
    if k == 0 {
        assert(pow2(0) == 1) by {
            lemma2_to64();
        }
        lemma_div_basics(v as int);
        assert(v / pow2(0) == v);
        assert(raw_groups(v, 0) + uleb_groups(v / pow2(0)) =~= uleb_groups(v));
    } else {
        lemma_pow2_adds(7, (7 * k - 7) as nat);
        lemma2_to64();
        lemma_pow2_pos((7 * k - 7) as nat);
        assert((v / 128) / pow2((7 * (k - 1)) as nat) == v / pow2(7 * k)) by {
            lemma_div_denominator(v as int, 128, pow2((7 * k - 7) as nat) as int);
        }
        assert(v >= 128) by {
            if v < 128 {
                lemma_pow2_strictly_increases(7, 7 * k);
                lemma_basic_div(v as int, pow2(7 * k) as int);
            }
        }
        lemma_uleb_groups_split(v / 128, (k - 1) as nat);
        assert(uleb_groups(v) =~= raw_groups(v, k) + uleb_groups(v / pow2(7 * k)));
    }
}

/// The shape of a stream with a terminal group: the bytes before the first
/// terminal all continue, and the group length points at the terminal.
pub proof fn lemma_group_structure(s: Seq<u8>)
    requires
        has_terminal(s),
    ensures
        1 <= group_len(s) <= s.len(),
        is_terminal(s[group_len(s) - 1]),
        forall|i: int| 0 <= i < group_len(s) - 1 ==> !is_terminal(#[trigger] s[i]),
    decreases s.len(),
{
    if !is_terminal(s[0]) {
        lemma_group_structure(s.skip(1));
        assert forall|i: int| 0 <= i < group_len(s) - 1 implies !is_terminal(#[trigger] s[i]) by {
            if i > 0 {
                assert(s[i] == s.skip(1)[i - 1]);
            }
        }
        assert(s[group_len(s) - 1] == s.skip(1)[group_len(s.skip(1)) - 1]);
    }
}

/// The signed value of a byte buffer whose sign is told from outside: the
/// arbitrary-width signed encode remembers the sign of the original last
/// byte while it trims.
pub open spec fn forced_signed(b: Seq<u8>, neg: bool) -> int {
    le_value(b) - if neg {
        pow2(8 * b.len()) as int
    } else {
        0
    }
}

pub proof fn lemma_trimmed_len_le(b: Seq<u8>, filler: u8)
    ensures
        trimmed_len(b, filler) <= b.len(),
    decreases b.len(),
{
    if b.len() > 0 && b.last() == filler {
        lemma_trimmed_len_le(b.drop_last(), filler);
    }
}

/// Trimming trailing filler bytes keeps the signed value, sign carried
/// alongside.
pub proof fn lemma_forced_trim(b: Seq<u8>, neg: bool)
    ensures
        forced_signed(b, neg) == forced_signed(
            b.take(
                trimmed_len(
                    b,
                    if neg {
                        255
                    } else {
                        0
                    },
                ) as int,
            ),
            neg,
        ),
    decreases b.len(),
{
    let filler: u8 = if neg {
        255
    } else {
        0
    };
    let t = trimmed_len(b, filler);
    lemma_trimmed_len_le(b, filler);
    if b.len() == 0 {
        assert(b.take(t as int) =~= b);
    } else if b.last() == filler {
        let dl = b.drop_last();
        assert(b =~= dl + seq![b.last()]);
        lemma_le_value_append(dl, seq![b.last()]);
        assert(le_value(seq![b.last()]) == b.last()) by {
            assert(seq![b.last()].skip(1) =~= Seq::<u8>::empty());
            assert(le_value(seq![b.last()].skip(1)) == 0);
            assert(le_value(seq![b.last()]) == b.last() + 256 * le_value(seq![b.last()].skip(1)));
        }
        lemma_pow2_adds(8 * dl.len(), 8);
        lemma2_to64();
        assert(forced_signed(b, neg) == forced_signed(dl, neg)) by {
            if neg {
                assert(le_value(b) == le_value(dl) + pow2(8 * dl.len()) * 255);
                assert(pow2(8 * b.len()) == pow2(8 * dl.len()) * 256);
            } else {
                assert(le_value(b) == le_value(dl) + pow2(8 * dl.len()) * 0);
                lemma_mul_basics(pow2(8 * dl.len()) as int);
            }
        }
        lemma_forced_trim(dl, neg);
        assert(trimmed_len(b, filler) == trimmed_len(dl, filler));
        lemma_trimmed_len_le(dl, filler);
        assert(dl.take(t as int) =~= b.take(t as int));
    } else {
        assert(b.take(t as int) =~= b);
    }
}

/// While more significant bytes remain, the signed arbitrary-width groups
/// of `v` open with plain continuation groups carrying the low bits.
pub proof fn lemma_sleb_groups_split(v: int, b: nat, k: nat)
    requires
        b >= 7 * k + 8,
        v >= pow2(7 * k) || v + pow2(7 * k) <= 0,
    ensures
        sleb_groups(v, b) == raw_groups((v % (pow2(7 * k) as int)) as nat, k) + sleb_groups(
            v / (pow2(7 * k) as int),
            (b - 7 * k) as nat,
        ),
    decreases k,
{
    lemma_pow2_pos(7 * k);
    if k == 0 {
        assert(pow2(0) == 1) by {
            lemma2_to64();
        }
        lemma_div_basics(v);
        assert(v % 1 == 0) by {
            lemma_mod_multiples_basic(v, 1);
        }
        assert(raw_groups((v % (pow2(0) as int)) as nat, 0) =~= Seq::<u8>::empty());
        assert(raw_groups((v % (pow2(0) as int)) as nat, 0) + sleb_groups(v / (pow2(0) as int), b)
            =~= sleb_groups(v, b));
    } else {
        let pk = pow2(7 * k) as int;
        let pk7 = pow2((7 * k - 7) as nat) as int;
        lemma_pow2_pos((7 * k - 7) as nat);
        assert(pk == 128 * pk7) by {
            lemma_pow2_adds(7, (7 * k - 7) as nat);
            lemma2_to64();
        }
        let p = v % 128;
        let r = v / 128;
        lemma_fundamental_div_mod(v, 128);
        // the head group carries the low seven bits and continues
        assert(r >= pk7 || r + pk7 <= 0) by {
            if v >= pk {
                lemma_div_is_ordered(pk, v, 128);
                assert(pk / 128 == pk7) by {
                    lemma_div_by_multiple(pk7, 128);
                    lemma_mul_is_commutative(pk7, 128);
                }
            } else {
                lemma_div_is_ordered(v, -pk, 128);
                assert((-pk) / 128 == -pk7) by {
                    lemma_fundamental_div_mod_converse(-pk, 128, -pk7, 0);
                }
            }
        }
        assert(!(p >= 64 && r == -1) && !(p < 64 && r == 0));
        assert(sleb_groups(v, b) == seq![(p + 128) as u8] + sleb_groups(r, (b - 7) as nat));
        // the low bits split the same way one level down
        let mq = v / pk;
        let mm = v % pk;
        lemma_fundamental_div_mod(v, pk);
        assert(mm == 128 * (r - pk7 * mq) + p) by {
            lemma_mul_is_associative(128, pk7, mq);
            lemma_mul_is_distributive_sub(128, r, pk7 * mq);
        }
        assert(0 <= r - pk7 * mq < pk7) by {
            assert(mm / 128 == r - pk7 * mq && mm % 128 == p) by {
                lemma_fundamental_div_mod_converse(mm, 128, r - pk7 * mq, p);
            }
            lemma_pow2_adds(7, (7 * k - 7) as nat);
            lemma2_to64();
            lemma_div_is_ordered(mm, pk - 1, 128);
            assert((pk - 1) / 128 == pk7 - 1) by {
                lemma_fundamental_div_mod_converse(pk - 1, 128, pk7 - 1, 127);
                lemma_mul_is_distributive_sub_other_way(128, pk7, 1);
            }
        }
        assert(mm / 128 == r - pk7 * mq && mm % 128 == p) by {
            lemma_fundamental_div_mod_converse(mm, 128, r - pk7 * mq, p);
        }
        assert(r % pk7 == r - pk7 * mq && r / pk7 == mq) by {
            lemma_mul_is_commutative(pk7, mq);
            lemma_fundamental_div_mod_converse(r, pk7, mq, r - pk7 * mq);
        }
        lemma_sleb_groups_split(r, (b - 7) as nat, (k - 1) as nat);
        assert(raw_groups(mm as nat, k) == seq![(p + 128) as u8] + raw_groups(
            (mm / 128) as nat,
            (k - 1) as nat,
        ));
        assert(sleb_groups(v, b) =~= raw_groups(mm as nat, k) + sleb_groups(
            mq,
            (b - 7 * k) as nat,
        ));
    }
}

pub proof fn lemma_le_value_singleton(x: u8)
    ensures
        le_value(seq![x]) == x,
{
    assert(seq![x].skip(1) =~= Seq::<u8>::empty());
    assert(le_value(seq![x].skip(1)) == 0);
    assert(le_value(seq![x]) == x + 256 * le_value(seq![x].skip(1)));
}

/// The first `8 * f1` continuation groups of a longer pump are the pump of
/// the first `7 * f1` bytes.
pub proof fn lemma_raw_groups_take(vs: Seq<u8>, f1: nat, f2: nat)
    requires
        f1 <= f2,
        7 * f2 <= vs.len(),
    ensures
        raw_groups(le_value(vs.take((7 * f2) as int)), 8 * f2).take((8 * f1) as int) == raw_groups(
            le_value(vs.take((7 * f1) as int)),
            8 * f1,
        ),
{
    let a = vs.take((7 * f1) as int);
    let mid = vs.subrange((7 * f1) as int, (7 * f2) as int);
    assert(vs.take((7 * f2) as int) =~= a + mid);
    lemma_le_value_append(a, mid);
    let u1 = le_value(a);
    let u2 = le_value(vs.take((7 * f2) as int));
    lemma_le_value_bound(a);
    lemma_pow2_pos(8 * a.len());
    assert(8 * a.len() == 7 * (8 * f1));
    lemma_raw_groups_mod(u2, 8 * f1);
    lemma_raw_groups_mod(u1, 8 * f1);
    assert(u2 % pow2(7 * (8 * f1)) == u1 % pow2(7 * (8 * f1))) by {
        lemma_mod_multiples_vanish(
            le_value(mid) as int,
            u1 as int,
            pow2(8 * a.len()) as int,
        );
        lemma_mul_is_commutative(pow2(8 * a.len()) as int, le_value(mid) as int);
    }
    assert(raw_groups(u2, 8 * f1) == raw_groups(u1, 8 * f1));
    lemma_raw_groups_append(u2, 8 * f1, 8 * (f2 - f1) as nat);
    lemma_raw_groups_len(u1, 8 * f1);
    lemma_raw_groups_len(u2 / pow2(7 * (8 * f1)), 8 * (f2 - f1) as nat);
    assert(8 * f1 + 8 * ((f2 - f1) as nat) == 8 * f2);
    assert(raw_groups(u2, 8 * f2).take((8 * f1) as int) =~= raw_groups(u1, 8 * f1));
}

/// Pushing one more full window: the pumped groups of `7 * (f + 1)` bytes
/// are the pumped groups of `7 * f` bytes followed by the window's groups.
pub proof fn lemma_pump_flush(vs: Seq<u8>, f: nat)
    requires
        7 * (f + 1) <= vs.len(),
    ensures
        raw_groups(le_value(vs.take((7 * (f + 1)) as int)), 8 * (f + 1)) == raw_groups(
            le_value(vs.take((7 * f) as int)),
            8 * f,
        ) + raw_groups(le_value(vs.subrange((7 * f) as int, (7 * (f + 1)) as int)), 8),
{
    let a = vs.take((7 * f) as int);
    let w = vs.subrange((7 * f) as int, (7 * (f + 1)) as int);
    assert(vs.take((7 * (f + 1)) as int) =~= a + w);
    lemma_le_value_append(a, w);
    let u = le_value(a);
    let wv = le_value(w);
    let u2 = le_value(a + w);
    lemma_le_value_bound(a);
    lemma_le_value_bound(w);
    lemma_pow2_pos(8 * a.len());
    assert(8 * a.len() == 7 * (8 * f));
    lemma_raw_groups_append(u2, 8 * f, 8);
    lemma_raw_groups_mod(u2, 8 * f);
    lemma_raw_groups_mod(u, 8 * f);
    assert(u2 % pow2(7 * (8 * f)) == u % pow2(7 * (8 * f))) by {
        lemma_mod_multiples_vanish(wv as int, u as int, pow2(8 * a.len()) as int);
        lemma_mul_is_commutative(pow2(8 * a.len()) as int, wv as int);
    }
    assert(u2 / pow2(7 * (8 * f)) == wv) by {
        lemma_mul_is_commutative(pow2(8 * a.len()) as int, wv as int);
        lemma_fundamental_div_mod_converse(
            u2 as int,
            pow2(8 * a.len()) as int,
            wv as int,
            u as int,
        );
    }
    assert(raw_groups(u2, 8 * (f + 1)) =~= raw_groups(u, 8 * f) + raw_groups(wv, 8));
}

/// The whole behaviour of an arbitrary-width encode: the target group
/// sequence reaches the sink whole, an empty input is refused untouched,
/// and a refused byte leaves a prefix.
pub open spec fn large_write_post(
    a0: Seq<u8>,
    a1: Seq<u8>,
    target: Seq<u8>,
    empty_input: bool,
    r: Result<(), RwError>,
) -> bool {
    match r {
        Ok(_) => !empty_input && a1 == a0 + target,
        Err(RwError::InvalidInput) => empty_input && a1 == a0,
        Err(RwError::IoFailure) => !empty_input && (exists|j: int|
            0 <= j <= target.len() && a1 == a0 + #[trigger] target.take(j)),
        Err(_) => false,
    }
}

pub proof fn lemma_uleb_value_bound(s: Seq<u8>)
    ensures
        uleb_value(s) < pow2(7 * group_len(s)),
    decreases s.len(),
{
    lemma_pow2_pos(7 * group_len(s));
    if s.len() == 0 {
    } else if is_terminal(s[0]) {
        assert(pow2(7) == 128) by {
            lemma2_to64();
        }
    } else {
        lemma_uleb_value_bound(s.skip(1));
        let g = group_len(s.skip(1));
        assert(pow2(7 * (g + 1)) == 128 * pow2(7 * g)) by {
            lemma_pow2_adds(7, 7 * g);
            lemma2_to64();
        }
        assert(128 * uleb_value(s.skip(1)) <= 128 * (pow2(7 * g) - 1)) by {
            lemma_mul_inequality(uleb_value(s.skip(1)) as int, pow2(7 * g) - 1, 128);
            lemma_mul_is_commutative(uleb_value(s.skip(1)) as int, 128);
            lemma_mul_is_commutative(pow2(7 * g) - 1, 128);
        }
        assert(128 * (pow2(7 * g) - 1) == 128 * pow2(7 * g) - 128) by {
            lemma_mul_is_distributive_sub(128, pow2(7 * g) as int, 1);
        }
    }
}

/// What a signed decode returns lies in the width's two's complement
/// range.
pub proof fn lemma_sleb_value_range(s: Seq<u8>, w: nat)
    requires
        1 <= w,
    ensures
        -(pow2((w - 1) as nat) as int) <= sleb_value(s, w) < pow2((w - 1) as nat),
        sleb_bits(s, w) < pow2(w),
{
    lemma_pow2_pos(w);
    lemma_pow2_pos((w - 1) as nat);
    lemma_pow2_pos(7 * group_len(s));
    let u = uleb_value(s) % pow2(w);
    lemma_mod_bound(uleb_value(s) as int, pow2(w) as int);
    let g = group_len(s);
    if 0 < g <= s.len() && sign_bit(s[g - 1]) && 7 * g < w {
        lemma_uleb_value_bound(s);
        lemma_mod_decreases(uleb_value(s), pow2(w));
        lemma_pow2_strictly_increases(7 * g, w);
        assert(u <= uleb_value(s));
        assert(sleb_bits(s, w) < pow2(w));
    } else {
        assert(sleb_bits(s, w) < pow2(w));
    }
    assert(pow2(w) == 2 * pow2((w - 1) as nat)) by {
        lemma_pow2_adds(1, (w - 1) as nat);
        lemma2_to64();
    }
}

/// The unsigned value of a big-endian byte buffer.
pub open spec fn be_value(b: Seq<u8>) -> nat {
    le_value(b.reverse())
}

/// Exactly `len` big-endian bytes holding `n % pow2(8 * len)`.
pub open spec fn be_bytes(n: nat, len: nat) -> Seq<u8> {
    le_bytes(n, len).reverse()
}

/// The two's complement bit pattern of `v` in `w` bits.
pub open spec fn to_bits(v: int, w: nat) -> nat {
    (v % (pow2(w) as int)) as nat
}

/// How many full seven-byte windows the arbitrary-width encode pumps out of
/// a buffer of `last` significant bytes.
pub open spec fn pump_windows(last: nat) -> nat {
    if last == 0 {
        0
    } else {
        ((last - 1) as nat) / 7
    }
}

/// What writing `out` to a sink leaves behind: all of it on success, a
/// prefix of it when the sink refused a byte.
pub open spec fn sink_write_post(
    a0: Seq<u8>,
    a1: Seq<u8>,
    out: Seq<u8>,
    r: Result<(), RwError>,
) -> bool {
    match r {
        Ok(_) => a1 == a0 + out,
        Err(RwError::IoFailure) => exists|j: int| 0 <= j <= out.len() && a1 == a0 + #[trigger] out.take(j),
        Err(_) => false,
    }
}

/// An arbitrary-width decode flushes its window every eight groups, seven
/// bytes at a time; the first flush that would pass the cap fails. This is
/// how many groups can be consumed before that flush.
pub open spec fn flush_limit(cap: nat) -> nat {
    8 * (cap / 7 + 1)
}

/// An arbitrary-width decode drains the source: no terminal group arrives
/// before the stream ends, and no flush fails first.
pub open spec fn large_io(s: Seq<u8>, cap: nat) -> bool {
    !has_terminal(s) && s.len() < flush_limit(cap)
}

/// An arbitrary-width decode fails at a window flush: the groups keep coming
/// until a flush would pass the cap.
pub open spec fn large_flush_fail(s: Seq<u8>, cap: nat) -> bool {
    all_cont(s, flush_limit(cap))
}

/// An arbitrary-width decode reaches its terminal group.
pub open spec fn large_reaches_end(s: Seq<u8>, cap: nat) -> bool {
    has_terminal(s) && group_len(s) <= flush_limit(cap)
}

/// Whether a signed arbitrary-width decode saw a set sign bit.
pub open spec fn large_neg(s: Seq<u8>, signed: bool) -> bool {
    signed && 0 < group_len(s) <= s.len() && sign_bit(s[group_len(s) - 1])
}

/// The bytes the payload bits fill before the cap is applied: whole bytes
/// for all the payload bits read.
pub open spec fn large_raw_len(s: Seq<u8>) -> nat {
    (7 * group_len(s) + 7) / 8
}

/// The decoded magnitude with the sign extension applied through the raw
/// byte length.
pub open spec fn large_u_ext(s: Seq<u8>, signed: bool) -> nat {
    if large_neg(s, signed) {
        (uleb_value(s) + pow2(8 * large_raw_len(s)) - pow2(7 * group_len(s))) as nat
    } else {
        uleb_value(s)
    }
}

/// The byte buffer before the cap is applied.
pub open spec fn large_full(s: Seq<u8>, signed: bool) -> Seq<u8> {
    le_bytes(large_u_ext(s, signed), large_raw_len(s))
}

/// The byte that is redundant past the cap: `0xFF` for a negative signed
/// value, `0x00` otherwise.
pub open spec fn large_filler(s: Seq<u8>, signed: bool) -> u8 {
    if large_neg(s, signed) {
        255
    } else {
        0
    }
}

/// After a signed truncation, the kept buffer must still read back with
/// the decoded value's sign: its last byte's top bit is the sign bit, and
/// an empty buffer can only stand for a non-negative (hence zero) value.
pub open spec fn large_sign_kept(s: Seq<u8>, cap: nat) -> bool {
    if cap == 0 {
        !large_neg(s, true)
    } else {
        (large_full(s, true)[cap - 1] >= 128) == large_neg(s, true)
    }
}

/// Whether the decoded value fits the cap: every byte past the cap is
/// redundant, and, for a signed decode that is actually cut, the kept
/// buffer still carries the value's sign.
pub open spec fn large_fits(s: Seq<u8>, signed: bool, cap: nat) -> bool {
    &&& forall|i: int|
        cap <= i < large_raw_len(s) ==> #[trigger] large_full(s, signed)[i] == large_filler(
            s,
            signed,
        )
    &&& (signed && cap < large_raw_len(s) ==> large_sign_kept(s, cap))
}

/// The integer an arbitrary-width decode denotes: the payload bits,
/// sign-extended when a signed decode saw a set sign bit.
pub open spec fn large_value(s: Seq<u8>, signed: bool) -> int {
    uleb_value(s) - if large_neg(s, signed) {
        pow2(7 * group_len(s)) as int
    } else {
        0
    }
}

/// How many bytes the decode returns: the raw length, cut at the cap.
pub open spec fn large_kept(s: Seq<u8>, cap: nat) -> nat {
    if large_raw_len(s) <= cap {
        large_raw_len(s)
    } else {
        cap
    }
}

/// The byte buffer an arbitrary-width decode returns.
pub open spec fn large_result(s: Seq<u8>, signed: bool, cap: nat) -> Seq<u8> {
    large_full(s, signed).take(large_kept(s, cap) as int)
}

/// The whole behaviour of an arbitrary-width decode with byte cap `cap` on a
/// source whose remaining bytes were `s0`, with `s1` what it still holds
/// afterwards.
pub open spec fn large_post(
    s0: Seq<u8>,
    s1: Seq<u8>,
    signed: bool,
    cap: nat,
    r: Result<Seq<u8>, RwError>,
) -> bool {
    match r {
        Ok(out) => large_reaches_end(s0, cap) && large_fits(s0, signed, cap) && out
            == large_result(s0, signed, cap) && s1 == s0.skip(group_len(s0) as int),
        Err(RwError::TooLarge) => (large_flush_fail(s0, cap) && s1 == s0.skip(
            flush_limit(cap) as int,
        )) || (large_reaches_end(s0, cap) && !large_fits(s0, signed, cap) && s1 == s0.skip(
            group_len(s0) as int,
        )),
        Err(RwError::IoFailure) => large_io(s0, cap) && s1 == Seq::<u8>::empty(),
        Err(_) => false,
    }
}

/// The whole behaviour of a width-`w` unsigned decode on a source whose
/// remaining bytes were `s0`: which outcome comes for which stream, what
/// value is returned, and what the source still holds afterwards (`s1`).
pub open spec fn fixed_u_post(s0: Seq<u8>, s1: Seq<u8>, w: nat, r: Result<u128, RwError>) -> bool {
    match r {
        Ok(v) => fixed_u_ok(s0, w) && v as nat == uleb_value(s0) && s1 == s0.skip(
            group_len(s0) as int,
        ),
        Err(RwError::Overflow) => fixed_u_overflow(s0, w) && s1 == s0.skip(max_groups(w) as int),
        Err(RwError::IoFailure) => fixed_io(s0, w) && s1 == Seq::<u8>::empty(),
        Err(_) => false,
    }
}

/// The whole behaviour of a width-`w` signed decode, as `fixed_u_post`.
pub open spec fn fixed_s_post(s0: Seq<u8>, s1: Seq<u8>, w: nat, r: Result<i128, RwError>) -> bool {
    match r {
        Ok(v) => fixed_s_ok(s0, w) && v as int == sleb_value(s0, w) && s1 == s0.skip(
            group_len(s0) as int,
        ),
        Err(RwError::Overflow) => fixed_s_overflow(s0, w) && s1 == s0.skip(max_groups(w) as int),
        Err(RwError::IoFailure) => fixed_io(s0, w) && s1 == Seq::<u8>::empty(),
        Err(_) => false,
    }
}

} // verus!
