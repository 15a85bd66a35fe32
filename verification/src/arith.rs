//! Small executable powers of two and the arithmetic facts about them that
//! the codec proofs lean on.
use vstd::arithmetic::div_mod::*;
use vstd::arithmetic::power2::*;
use vstd::prelude::*;

verus! {

/// `pow2(128)` written out, so that `u128` bounds can be stated.
pub proof fn lemma_pow2_128()
    ensures
        pow2(128) == 0x100000000000000000000000000000000,
{
    lemma2_to64();
    lemma_pow2_adds(64, 64);
}

/// `pow2(w) - 1`: the mask of the low `w` bits.
pub fn pow2_mask_u128(w: u32) -> (r: u128)
    requires
        w <= 128,
    ensures
        r as nat == pow2(w as nat) - 1,
{
    proof {
        lemma2_to64();
    }
    let mut r: u128 = 0;
    let mut i: u32 = 0;
    while i < w
        invariant
            i <= w <= 128,
            r as nat == pow2(i as nat) - 1,
        decreases w - i,
    {
        proof {
            lemma_pow2_adds(i as nat, 1);
            lemma2_to64();
            lemma_pow2_128();
            if (i + 1) < 128 {
                lemma_pow2_strictly_increases((i + 1) as nat, 128);
            }
        }
        r = r * 2 + 1;
        i = i + 1;
    }
    r
}

/// `pow2(e)` as a byte, for `e <= 7`.
pub fn pow2_u8(e: u32) -> (r: u8)
    requires
        e <= 7,
    ensures
        r as nat == pow2(e as nat),
{
    proof {
        lemma2_to64();
    }
    let mut r: u8 = 1;
    let mut i: u32 = 0;
    while i < e
        invariant
            i <= e <= 7,
            r as nat == pow2(i as nat),
        decreases e - i,
    {
        proof {
            lemma_pow2_adds(i as nat, 1);
            lemma2_to64();
            lemma_pow2_strictly_increases((i + 1) as nat, 8);
        }
        r = r * 2;
        i = i + 1;
    }
    r
}

/// `pow2(e)` as a `u64`, for `e <= 63`.
pub fn pow2_u64(e: u32) -> (r: u64)
    requires
        e <= 63,
    ensures
        r as nat == pow2(e as nat),
{
    proof {
        lemma2_to64();
    }
    let mut r: u64 = 1;
    let mut i: u32 = 0;
    while i < e
        invariant
            i <= e <= 63,
            r as nat == pow2(i as nat),
        decreases e - i,
    {
        proof {
            lemma_pow2_adds(i as nat, 1);
            lemma2_to64();
            lemma_pow2_strictly_increases((i + 1) as nat, 64);
            lemma2_to64_rest();
        }
        r = r * 2;
        i = i + 1;
    }
    r
}

/// Splitting the low-`w` mask at bit `s`: the high part is the low-`(w - s)`
/// mask and the low part is the low-`s` mask.
pub proof fn lemma_pow2_mask_split(w: nat, s: nat)
    requires
        s <= w,
    ensures
        (pow2(w) - 1) / pow2(s) as int == pow2((w - s) as nat) - 1,
        (pow2(w) - 1) % pow2(s) as int == pow2(s) - 1,
{
    lemma_pow2_adds(s, (w - s) as nat);
    lemma_pow2_pos(s);
    lemma_pow2_pos((w - s) as nat);
    let a = pow2((w - s) as nat) as int;
    let b = pow2(s) as int;
    assert((a - 1) * b + (b - 1) == a * b - 1) by (nonlinear_arith);
    lemma_fundamental_div_mod_converse(
        pow2(w) - 1,
        pow2(s) as int,
        pow2((w - s) as nat) - 1,
        pow2(s) - 1,
    );
}

} // verus!
