//! The arithmetic that the contracts of the operations are stated in: the
//! reduction to a width, the signed reading of a bit pattern, and the facts
//! about them that the proofs use.

use vstd::arithmetic::div_mod::lemma_mod_bound;
use vstd::arithmetic::div_mod::lemma_mod_multiples_vanish;
use vstd::arithmetic::div_mod::lemma_small_mod;
use vstd::arithmetic::power2::lemma_pow2_adds;
use vstd::arithmetic::power2::lemma_pow2_pos;
use vstd::arithmetic::power2::lemma_pow2_unfold;
use vstd::arithmetic::power2::pow2;
use vstd::prelude::*;

verus! {

/// The integer `v` reduced to `w` bits: the number from 0 to `2^w - 1` that
/// differs from `v` by a multiple of `2^w`.
pub open spec fn wrap(v: int, w: nat) -> nat {
    (v % (pow2(w) as int)) as nat
}

/// The signed reading of the `w`-bit pattern `v`: the patterns with the top
/// bit set stand for `v - 2^w`.
pub open spec fn signed_value(v: nat, w: nat) -> int {
    if w >= 1 && v >= pow2((w - 1) as nat) {
        v - pow2(w)
    } else {
        v as int
    }
}

/// The quotient of `a` by `b` rounded toward zero.
pub open spec fn trunc_div(a: int, b: int) -> int {
    if a >= 0 {
        if b > 0 {
            a / b
        } else {
            -(a / (-b))
        }
    } else {
        if b > 0 {
            -((-a) / b)
        } else {
            (-a) / (-b)
        }
    }
}

/// The remainder that goes with [`trunc_div`]: it has the sign of `a`.
pub open spec fn trunc_rem(a: int, b: int) -> int {
    a - b * trunc_div(a, b)
}

/// The bit pattern of width `w` with every bit of `v` inverted.
pub open spec fn not_value(v: nat, w: nat) -> int {
    pow2(w) - 1 - v
}

/// The two's complement of `v` at width `w`.
pub open spec fn neg_value(v: nat, w: nat) -> nat {
    wrap(-(v as int), w)
}

/// The sum of `a` and `b`, wrapping at width `w`.
pub open spec fn add_value(a: nat, b: nat, w: nat) -> nat {
    wrap((a + b) as int, w)
}

/// The difference of `a` and `b`, wrapping at width `w`.
pub open spec fn sub_value(a: nat, b: nat, w: nat) -> nat {
    wrap(a - b, w)
}

/// The product of `a` and `b`, wrapping at width `w`.
pub open spec fn mul_value(a: nat, b: nat, w: nat) -> nat {
    wrap((a * b) as int, w)
}

/// The quotient of `a` by `b`, both read as signed at width `w`, rounded
/// toward zero and reduced to the width.
pub open spec fn sdiv_value(a: nat, b: nat, w: nat) -> nat {
    wrap(trunc_div(signed_value(a, w), signed_value(b, w)), w)
}

/// The remainder of `a` by `b`, both read as signed at width `w`: it has
/// the sign of `a`, and is reduced to the width.
pub open spec fn srem_value(a: nat, b: nat, w: nat) -> nat {
    wrap(trunc_rem(signed_value(a, w), signed_value(b, w)), w)
}

/// `v` shifted left by `s` bits at width `w`: the bits that leave at the
/// top are dropped.
pub open spec fn shl_value(v: nat, s: nat, w: nat) -> nat {
    wrap((v * pow2(s)) as int, w)
}

/// `v` shifted right by `s` bits, with zeros coming in at the top.
pub open spec fn lshr_value(v: nat, s: nat) -> nat {
    v / pow2(s)
}

/// `v` shifted right by `s` bits at width `w`, with copies of the sign bit
/// coming in at the top: the signed reading divided by `2^s` and rounded
/// down.
pub open spec fn ashr_value(v: nat, s: nat, w: nat) -> nat {
    wrap(signed_value(v, w) / (pow2(s) as int), w)
}

/// A reduced number is below `2^w`, and a number below `2^w` is its own
/// reduction.
pub proof fn lemma_wrap_bound(v: int, w: nat)
    ensures
        wrap(v, w) < pow2(w),
        0 <= v < pow2(w) ==> wrap(v, w) == v,
{
    lemma_pow2_pos(w);
    lemma_mod_bound(v, pow2(w) as int);
    if 0 <= v < pow2(w) {
        lemma_small_mod(v as nat, pow2(w));
    }
}

/// Adding a multiple of `2^(w + e)` does not change the reduction to `w`
/// bits.
pub proof fn lemma_wrap_multiple(v: int, k: int, w: nat, e: nat)
    ensures
        wrap(v + k * pow2(w + e), w) == wrap(v, w),
{
    lemma_pow2_adds(w, e);
    lemma_pow2_pos(w);
    let m = pow2(w) as int;
    let q = pow2(e) as int;
    assert(k * (m * q) == m * (k * q)) by (nonlinear_arith);
    lemma_mod_multiples_vanish(k * q, v, m);
}

/// Reducing first to `w + e` bits and then to `w` bits is reducing to `w`
/// bits.
pub proof fn lemma_wrap_wrap(v: int, w: nat, e: nat)
    ensures
        wrap(wrap(v, w + e) as int, w) == wrap(v, w),
{
    let big = pow2(w + e) as int;
    lemma_pow2_pos(w + e);
    vstd::arithmetic::div_mod::lemma_fundamental_div_mod(v, big);
    let q = v / big;
    assert(v % big == v + (-q) * big) by (nonlinear_arith)
        requires
            v == big * q + v % big,
    ;
    lemma_wrap_multiple(v, -q, w, e);
}

/// Numbers that differ by a multiple of `2^w` have the same reduction.
pub proof fn lemma_wrap_congruent(a: int, b: int, k: int, w: nat)
    requires
        a == b + k * pow2(w),
    ensures
        wrap(a, w) == wrap(b, w),
{
    lemma_wrap_multiple(b, k, w, 0);
    assert(pow2(w + 0) == pow2(w));
}

/// `2^w` is twice `2^(w - 1)`.
pub proof fn lemma_pow2_half(w: nat)
    requires
        w >= 1,
    ensures
        pow2(w) == 2 * pow2((w - 1) as nat),
        pow2((w - 1) as nat) > 0,
{
    lemma_pow2_unfold(w);
    lemma_pow2_pos((w - 1) as nat);
}

/// The magnitude of the signed reading of a `w`-bit pattern, as the
/// `w`-bit pattern that negation in place produces.
pub open spec fn magnitude(v: nat, w: nat) -> nat {
    if signed_value(v, w) < 0 {
        wrap(-(v as int), w)
    } else {
        v
    }
}

/// The magnitude is the absolute value of the signed reading.
pub proof fn lemma_magnitude(v: nat, w: nat)
    requires
        w >= 1,
        v < pow2(w),
    ensures
        magnitude(v, w) == (if signed_value(v, w) < 0 {
            -signed_value(v, w)
        } else {
            signed_value(v, w)
        }),
        magnitude(v, w) <= pow2((w - 1) as nat),
        magnitude(v, w) < pow2(w),
        v > 0 ==> magnitude(v, w) > 0,
{
    lemma_pow2_half(w);
    if signed_value(v, w) < 0 {
        lemma_wrap_congruent(-(v as int), pow2(w) - v, -1, w);
        lemma_wrap_bound(pow2(w) - v, w);
    }
}

/// Signed division by way of magnitudes: divide the magnitudes, and negate
/// the quotient where the signs differ.
pub proof fn lemma_sdiv_magnitudes(a: nat, b: nat, w: nat)
    requires
        w >= 1,
        a < pow2(w),
        0 < b < pow2(w),
    ensures
        ({
            let q = magnitude(a, w) / magnitude(b, w);
            let differ = (signed_value(a, w) < 0) != (signed_value(b, w) < 0);
            wrap(trunc_div(signed_value(a, w), signed_value(b, w)), w) == (if differ {
                wrap(-(q as int), w)
            } else {
                q
            })
        }),
{
    lemma_magnitude(a, w);
    lemma_magnitude(b, w);
    let ma = magnitude(a, w) as int;
    let mb = magnitude(b, w) as int;
    let q = ma / mb;
    vstd::arithmetic::div_mod::lemma_div_nonincreasing(ma, mb);
    vstd::arithmetic::div_mod::lemma_div_pos_is_pos(ma, mb);
    lemma_wrap_bound(q, w);
}

/// Signed remainder by way of magnitudes: take the remainder of the
/// magnitudes, and negate it where the dividend is negative.
pub proof fn lemma_srem_magnitudes(a: nat, b: nat, w: nat)
    requires
        w >= 1,
        a < pow2(w),
        0 < b < pow2(w),
    ensures
        ({
            let r = magnitude(a, w) % magnitude(b, w);
            wrap(trunc_rem(signed_value(a, w), signed_value(b, w)), w) == (if signed_value(a, w)
                < 0 {
                wrap(-(r as int), w)
            } else {
                r
            })
        }),
{
    lemma_magnitude(a, w);
    lemma_magnitude(b, w);
    let sa = signed_value(a, w);
    let sb = signed_value(b, w);
    let ma = magnitude(a, w) as int;
    let mb = magnitude(b, w) as int;
    let q = ma / mb;
    let r = ma % mb;
    vstd::arithmetic::div_mod::lemma_fundamental_div_mod(ma, mb);
    lemma_mod_bound(ma, mb);
    lemma_wrap_bound(r, w);
    assert(mb * (-q) == -(mb * q)) by (nonlinear_arith);
    assert((-mb) * q == -(mb * q)) by (nonlinear_arith);
    assert((-mb) * (-q) == mb * q) by (nonlinear_arith);
    if sa >= 0 {
        assert(trunc_rem(sa, sb) == r);
    } else {
        assert(trunc_rem(sa, sb) == -r);
    }
}

/// The number of bits of `v`: the least `k` with `v < 2^k`.
pub open spec fn bit_length(v: nat) -> nat
    decreases v,
{
    if v == 0 {
        0
    } else {
        1 + bit_length(v / 2)
    }
}

/// A count `k` of bits that holds `v`, where one bit fewer would not, is
/// the number of bits of `v`.
pub proof fn lemma_bit_length(v: nat, k: nat)
    requires
        v < pow2(k),
        k == 0 || v >= pow2((k - 1) as nat),
    ensures
        bit_length(v) == k,
    decreases k,
{
    vstd::arithmetic::power2::lemma2_to64();
    if k == 0 {
    } else {
        vstd::arithmetic::power2::lemma_pow2_unfold(k);
        lemma_pow2_pos((k - 1) as nat);
        if k >= 2 {
            vstd::arithmetic::power2::lemma_pow2_unfold((k - 1) as nat);
        }
        lemma_bit_length(v / 2, (k - 1) as nat);
    }
}

/// A number is below two to the number of its bits, and not below half of
/// that unless it is zero.
pub proof fn lemma_bit_length_bounds(v: nat)
    ensures
        v < pow2(bit_length(v)),
        bit_length(v) > 0 ==> v >= pow2((bit_length(v) - 1) as nat),
    decreases v,
{
    vstd::arithmetic::power2::lemma2_to64();
    if v > 0 {
        lemma_bit_length_bounds(v / 2);
        vstd::arithmetic::power2::lemma_pow2_unfold(bit_length(v));
        if bit_length(v) >= 2 {
            vstd::arithmetic::power2::lemma_pow2_unfold((bit_length(v) - 1) as nat);
        }
    }
}

} // verus!
