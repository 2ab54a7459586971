//! Bit prefixes of fixed-width keys, modelled as integer division.
use vstd::prelude::*;
use vstd::arithmetic::div_mod::{
    lemma_div_denominator,
    lemma_div_is_ordered,
    lemma_fundamental_div_mod,
};
use vstd::arithmetic::power2::{lemma2_to64, lemma_pow2_adds, lemma_pow2_pos, pow2};
use vstd::bits::lemma_u32_shr_is_div;

verus! {

/// The top `l` bits of a `w`-bit key `k`, right-aligned.
pub open spec fn pfx(k: int, w: nat, l: nat) -> int {
    k / pow2((w - l) as nat) as int
}

/// `k >> (w - l)` computes the `l`-bit prefix of `k`.
pub proof fn lemma_shr_prefix(k: u32, w: u32, l: u32)
    requires
        1 <= l <= w <= 32,
    ensures
        (k >> ((w - l) as u32)) as int == pfx(k as int, w as nat, l as nat),
        0 <= pfx(k as int, w as nat, l as nat) <= k,
{
    lemma_u32_shr_is_div(k, (w - l) as u32);
    lemma_pow2_pos((w - l) as nat);
    lemma_div_is_ordered(k as int, k as int, pow2((w - l) as nat) as int);
    assert(k as int / pow2((w - l) as nat) as int <= k) by (nonlinear_arith)
        requires pow2((w - l) as nat) >= 1, k >= 0;
}

/// The full-length prefix of a key is the key itself.
pub proof fn lemma_prefix_full(k: int, w: nat)
    ensures
        pfx(k, w, w) == k,
{
    lemma2_to64();
    assert((w - w) as nat == 0);
    assert(k / 1 == k);
}

/// Keys below `2^w` have the empty prefix `0`.
pub proof fn lemma_prefix_zero(k: int, w: nat)
    requires
        0 <= k < pow2(w),
    ensures
        pfx(k, w, 0) == 0,
{
    lemma_pow2_pos(w);
    assert(k / pow2(w) as int == 0) by (nonlinear_arith)
        requires 0 <= k < pow2(w);
}

/// A prefix of length `l` is the prefix of length `l + 1` without its last bit.
pub proof fn lemma_prefix_parent(k: int, w: nat, l: nat)
    requires
        l < w,
        k >= 0,
    ensures
        pfx(k, w, l) == pfx(k, w, l + 1) / 2,
        pfx(k, w, l + 1) == 2 * pfx(k, w, l) || pfx(k, w, l + 1) == 2 * pfx(k, w, l) + 1,
{
    let s = (w - l - 1) as nat;
    lemma_pow2_adds(s, 1);
    lemma2_to64();
    lemma_pow2_pos(s);
    lemma_div_denominator(k, pow2(s) as int, 2);
    assert((w - l) as nat == s + 1);
    let c = pfx(k, w, l + 1);
    lemma_fundamental_div_mod(c, 2);
}

/// Keys that share a prefix share every shorter prefix.
pub proof fn lemma_prefix_shorter(a: int, b: int, w: nat, l: nat, m: nat)
    requires
        m <= l <= w,
        a >= 0,
        b >= 0,
        pfx(a, w, l) == pfx(b, w, l),
    ensures
        pfx(a, w, m) == pfx(b, w, m),
    decreases l - m,
{
    if m < l {
        lemma_prefix_parent(a, w, (l - 1) as nat);
        lemma_prefix_parent(b, w, (l - 1) as nat);
        lemma_prefix_shorter(a, b, w, (l - 1) as nat, m);
    }
}

/// A smaller prefix means a smaller key.
pub proof fn lemma_prefix_order(a: int, b: int, w: nat, l: nat)
    requires
        l <= w,
        pfx(a, w, l) < pfx(b, w, l),
    ensures
        a < b,
{
    lemma_pow2_pos((w - l) as nat);
    if a >= b {
        lemma_div_is_ordered(b, a, pow2((w - l) as nat) as int);
    }
}

/// Keys below `2^w` have a one-bit prefix of `0` or `1`.
pub proof fn lemma_prefix_top_bit(k: int, w: nat)
    requires
        w >= 1,
        0 <= k < pow2(w),
    ensures
        pfx(k, w, 1) == 0 || pfx(k, w, 1) == 1,
{
    lemma_prefix_zero(k, w);
    lemma_prefix_parent(k, w, 0);
}

} // verus!
