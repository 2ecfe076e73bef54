//! The natural number that a little-endian sequence of digits stands for,
//! and the facts about it that the digit-level algorithms rest on.

use crate::digit::Digit;
use crate::digit::digit_base;
use crate::digit::lemma_pow2_64;
use crate::digit::nat_bit;
use vstd::arithmetic::div_mod::lemma_fundamental_div_mod_converse;
use vstd::arithmetic::power2::lemma_pow2_adds;
use vstd::arithmetic::power2::lemma_pow2_pos;
use vstd::arithmetic::power2::pow2;
use vstd::prelude::*;

verus! {

/// The weight of the digit at index `i`: `2^(64 i)`.
pub open spec fn weight(i: nat) -> nat {
    pow2(64 * i)
}

/// The value of the digits `s`, the least significant first:
/// `s[0] + s[1] 2^64 + s[2] 2^128 + ...`.
pub open spec fn limbs_value(s: Seq<Digit>) -> nat
    decreases s.len(),
{
    if s.len() == 0 {
        0
    } else {
        limbs_value(s.drop_last()) + s.last().0 as nat * weight((s.len() - 1) as nat)
    }
}

/// The weights are positive and each is `2^64` times the one before.
pub proof fn lemma_weight(i: nat)
    ensures
        weight(i) > 0,
        weight(i + 1) == weight(i) * digit_base(),
        weight(0) == 1,
        weight(1) == digit_base(),
{
    lemma_pow2_64();
    lemma_pow2_pos(64 * i);
    lemma_pow2_adds(64 * i, 64);
    assert(64 * (i + 1) == 64 * i + 64);
}

/// The weight of a sum of indices is the product of the weights.
pub proof fn lemma_weight_adds(i: nat, j: nat)
    ensures
        weight(i + j) == weight(i) * weight(j),
{
    lemma_pow2_adds(64 * i, 64 * j);
    assert(64 * (i + j) == 64 * i + 64 * j);
}

/// A single digit stands for its own word.
pub proof fn lemma_limbs_single(d: Digit)
    ensures
        limbs_value(seq![d]) == d.0,
{
    let s = seq![d];
    assert(s.drop_last() =~= Seq::<Digit>::empty());
    assert(limbs_value(s.drop_last()) == 0);
    lemma_weight(0);
}

/// Taking one digit more adds that digit at its weight.
pub proof fn lemma_limbs_step(s: Seq<Digit>, i: int)
    requires
        0 <= i < s.len(),
    ensures
        limbs_value(s.take(i + 1)) == limbs_value(s.take(i)) + s[i].0 as nat * weight(i as nat),
{
    assert(s.take(i + 1).drop_last() =~= s.take(i));
}

/// Appending a digit adds it at the weight of its index.
pub proof fn lemma_limbs_push(s: Seq<Digit>, d: Digit)
    ensures
        limbs_value(s.push(d)) == limbs_value(s) + d.0 as nat * weight(s.len()),
{
    assert(s.push(d).drop_last() =~= s);
}

/// `n` digits stand for a value below `2^(64 n)`.
pub proof fn lemma_limbs_bound(s: Seq<Digit>)
    ensures
        limbs_value(s) < weight(s.len()),
    decreases s.len(),
{
    if s.len() == 0 {
        lemma_weight(0);
    } else {
        let n = (s.len() - 1) as nat;
        lemma_limbs_bound(s.drop_last());
        lemma_weight(n);
        let top = s.last().0 as nat;
        let w = weight(n);
        assert(top * w + w <= digit_base() * w) by (nonlinear_arith)
            requires
                top + 1 <= digit_base(),
        ;
        assert(w * digit_base() == digit_base() * w) by (nonlinear_arith);
    }
}

/// The value splits at any index into a low part and a high part.
pub proof fn lemma_limbs_split(s: Seq<Digit>, k: int)
    requires
        0 <= k <= s.len(),
    ensures
        limbs_value(s) == limbs_value(s.take(k)) + weight(k as nat) * limbs_value(s.skip(k)),
    decreases s.len(),
{
    if k == s.len() {
        assert(s.take(k) =~= s);
        assert(s.skip(k) =~= Seq::<Digit>::empty());
        assert(weight(k as nat) * 0 == 0) by (nonlinear_arith);
    } else {
        let n = (s.len() - 1) as nat;
        let t = s.drop_last();
        lemma_limbs_split(t, k);
        assert(t.take(k) =~= s.take(k));
        assert(s.skip(k).drop_last() =~= t.skip(k));
        assert(s.skip(k).last() == s.last());
        let m = (n - k) as nat;
        lemma_weight_adds(k as nat, m);
        let top = s.last().0 as nat;
        let wk = weight(k as nat);
        let wm = weight(m);
        let hi = limbs_value(t.skip(k));
        assert(limbs_value(s.skip(k)) == hi + top * wm);
        assert(wk * (hi + top * wm) == wk * hi + top * (wk * wm)) by (nonlinear_arith);
    }
}

/// Replacing the digit at index `i` changes the value by the difference of
/// the two digits at that weight.
pub proof fn lemma_limbs_update(s: Seq<Digit>, i: int, d: Digit)
    requires
        0 <= i < s.len(),
    ensures
        limbs_value(s.update(i, d)) + s[i].0 as nat * weight(i as nat) == limbs_value(s)
            + d.0 as nat * weight(i as nat),
{
    let u = s.update(i, d);
    lemma_limbs_split(s, i + 1);
    lemma_limbs_split(u, i + 1);
    lemma_limbs_step(s, i);
    lemma_limbs_step(u, i);
    assert(u.take(i) =~= s.take(i));
    assert(u.skip(i + 1) =~= s.skip(i + 1));
}

/// Digits that are all zero stand for zero.
pub proof fn lemma_limbs_zero(s: Seq<Digit>)
    requires
        forall|i: int| 0 <= i < s.len() ==> (#[trigger] s[i]).0 == 0,
    ensures
        limbs_value(s) == 0,
    decreases s.len(),
{
    if s.len() > 0 {
        lemma_limbs_zero(s.drop_last());
        assert(s.last().0 == 0);
        assert(0 * weight((s.len() - 1) as nat) == 0) by (nonlinear_arith);
    }
}

/// Two digit sequences of one length that stand for the same value are the
/// same sequence.
pub proof fn lemma_limbs_injective(a: Seq<Digit>, b: Seq<Digit>)
    requires
        a.len() == b.len(),
        limbs_value(a) == limbs_value(b),
    ensures
        a =~= b,
    decreases a.len(),
{
    if a.len() > 0 {
        let n = (a.len() - 1) as nat;
        let w = weight(n);
        lemma_weight(n);
        lemma_limbs_bound(a.drop_last());
        lemma_limbs_bound(b.drop_last());
        let la = limbs_value(a.drop_last());
        let lb = limbs_value(b.drop_last());
        let ta = a.last().0 as int;
        let tb = b.last().0 as int;
        assert(ta * w == w * ta) by (nonlinear_arith);
        assert(tb * w == w * tb) by (nonlinear_arith);
        lemma_fundamental_div_mod_converse(limbs_value(a) as int, w as int, ta, la as int);
        lemma_fundamental_div_mod_converse(limbs_value(b) as int, w as int, tb, lb as int);
        assert(ta == tb);
        assert(la == lb);
        lemma_limbs_injective(a.drop_last(), b.drop_last());
        assert(a.last() == b.last());
        assert forall|i: int| 0 <= i < a.len() implies a[i] == b[i] by {
            if i < n {
                assert(a[i] == a.drop_last()[i]);
                assert(b[i] == b.drop_last()[i]);
            }
        }
    }
}

/// A value is zero only where every digit is zero.
pub proof fn lemma_limbs_zero_converse(s: Seq<Digit>)
    requires
        limbs_value(s) == 0,
    ensures
        forall|i: int| 0 <= i < s.len() ==> (#[trigger] s[i]).0 == 0,
{
    let z = Seq::new(s.len(), |i: int| Digit(0));
    lemma_limbs_zero(z);
    lemma_limbs_injective(s, z);
}

/// Keeping the lowest `k` bits of the top digit keeps the lowest
/// `64 (n - 1) + k` bits of the value.
pub proof fn lemma_limbs_mask_top(s: Seq<Digit>, k: nat, masked: Digit)
    requires
        s.len() >= 1,
        k <= 64,
        masked.0 == s.last().0 as nat % pow2(k),
    ensures
        limbs_value(s.update(s.len() - 1, masked)) == limbs_value(s) % pow2(
            (64 * (s.len() - 1) + k) as nat,
        ),
{
    let n = (s.len() - 1) as nat;
    let w = weight(n) as int;
    let m = pow2(k) as int;
    let top = s.last().0 as int;
    let low = limbs_value(s.drop_last()) as int;
    let u = s.update(s.len() - 1, masked);
    assert(u.drop_last() =~= s.drop_last());
    lemma_weight(n);
    lemma_pow2_pos(k);
    lemma_limbs_bound(s.drop_last());
    lemma_pow2_adds(64 * n, k);
    let q = top / m;
    let r = top % m;
    vstd::arithmetic::div_mod::lemma_fundamental_div_mod(top, m);
    assert(0 <= r < m);
    assert(top == m * q + r);
    assert(low + top * w == q * (w * m) + (low + r * w)) by (nonlinear_arith)
        requires
            top == m * q + r,
    ;
    assert(low + r * w < w * m) by (nonlinear_arith)
        requires
            0 <= low < w,
            0 <= r < m,
    ;
    assert(0 <= low + r * w) by (nonlinear_arith)
        requires
            0 <= low,
            0 <= r,
            0 < w,
    ;
    lemma_fundamental_div_mod_converse(low + top * w, w * m, q, low + r * w);
}

/// Digits that are all `2^64 - 1` stand for `2^(64 n) - 1`.
pub proof fn lemma_limbs_all_set(s: Seq<Digit>)
    requires
        forall|i: int| 0 <= i < s.len() ==> (#[trigger] s[i]).0 == u64::MAX,
    ensures
        limbs_value(s) + 1 == weight(s.len()),
    decreases s.len(),
{
    if s.len() == 0 {
        lemma_weight(0);
    } else {
        let n = (s.len() - 1) as nat;
        lemma_limbs_all_set(s.drop_last());
        lemma_weight(n);
        assert(s.last().0 == u64::MAX);
        let w = weight(n) as int;
        assert(w - 1 + 0xFFFF_FFFF_FFFF_FFFF * w + 1 == w * 0x1_0000_0000_0000_0000)
            by (nonlinear_arith);
    }
}

/// Inverting every bit of `n` digits turns the value `v` into
/// `2^(64 n) - 1 - v`.
pub proof fn lemma_limbs_complement(s: Seq<Digit>, t: Seq<Digit>)
    requires
        s.len() == t.len(),
        forall|i: int| 0 <= i < s.len() ==> (#[trigger] t[i]).0 == u64::MAX - s[i].0,
    ensures
        limbs_value(s) + limbs_value(t) + 1 == weight(s.len()),
    decreases s.len(),
{
    if s.len() == 0 {
        lemma_weight(0);
    } else {
        let n = (s.len() - 1) as nat;
        lemma_limbs_complement(s.drop_last(), t.drop_last());
        lemma_weight(n);
        assert(t.last().0 == u64::MAX - s.last().0);
        let w = weight(n) as int;
        let a = s.last().0 as int;
        assert(a * w + (0xFFFF_FFFF_FFFF_FFFF - a) * w + w == w * 0x1_0000_0000_0000_0000)
            by (nonlinear_arith);
    }
}

/// The value is its lowest digit plus `2^64` times the value of the rest.
pub proof fn lemma_limbs_front(s: Seq<Digit>)
    requires
        s.len() >= 1,
    ensures
        limbs_value(s) == s[0].0 + digit_base() * limbs_value(s.skip(1)),
{
    lemma_limbs_split(s, 1);
    assert(s.take(1) =~= seq![s[0]]);
    lemma_limbs_single(s[0]);
    lemma_weight(0);
}

/// Where two digit sequences agree above index `i` and differ at `i`, the
/// one with the smaller digit there stands for the smaller value.
pub proof fn lemma_limbs_less(a: Seq<Digit>, b: Seq<Digit>, i: int)
    requires
        a.len() == b.len(),
        0 <= i < a.len(),
        forall|k: int| i < k < a.len() ==> a[k] == b[k],
        a[i].0 < b[i].0,
    ensures
        limbs_value(a) < limbs_value(b),
{
    lemma_limbs_split(a, i + 1);
    lemma_limbs_split(b, i + 1);
    assert(a.skip(i + 1) =~= b.skip(i + 1));
    lemma_limbs_step(a, i);
    lemma_limbs_step(b, i);
    lemma_limbs_bound(a.take(i));
    lemma_weight(i as nat);
    let w = weight(i as nat) as int;
    let x = a[i].0 as int;
    let y = b[i].0 as int;
    assert(x * w + w <= y * w) by (nonlinear_arith)
        requires
            x + 1 <= y,
            w > 0,
    ;
}

/// Dividing by `2^p` and then by 2 is dividing by `2^(p + 1)`, so a number
/// shifted right by `p` is twice the number shifted by `p + 1`, plus its
/// bit `p`.
pub proof fn lemma_shift_bit(v: nat, p: nat)
    ensures
        v / pow2(p) == 2 * (v / pow2(p + 1)) + (if nat_bit(v, p) {
            1nat
        } else {
            0nat
        }),
{
    lemma_pow2_pos(p);
    lemma_pow2_adds(p, 1);
    lemma_pow2_64();
    let x = (v / pow2(p)) as int;
    vstd::arithmetic::div_mod::lemma_div_denominator(v as int, pow2(p) as int, 2);
    vstd::arithmetic::div_mod::lemma_fundamental_div_mod(x, 2);
}

/// Bit `pos` of the value is bit `pos mod 64` of the digit at index
/// `pos / 64`.
pub proof fn lemma_limbs_bit(s: Seq<Digit>, pos: nat)
    requires
        pos < 64 * s.len(),
    ensures
        nat_bit(limbs_value(s), pos) == nat_bit(s[(pos / 64) as int].0 as nat, pos % 64),
{
    let k = (pos / 64) as int;
    let j = pos % 64;
    let v = limbs_value(s) as int;
    lemma_limbs_split(s, k);
    lemma_limbs_front(s.skip(k));
    lemma_limbs_bound(s.take(k));
    lemma_weight(k as nat);
    lemma_pow2_64();
    lemma_pow2_pos(j);
    lemma_pow2_adds(64 * (k as nat), j);
    lemma_pow2_adds(j, (64 - j) as nat);
    lemma_pow2_pos((63 - j) as nat);
    lemma_pow2_adds(1, (63 - j) as nat);
    let wk = weight(k as nat) as int;
    let low = limbs_value(s.take(k)) as int;
    let d = s[k].0 as int;
    let high = limbs_value(s.skip(k).skip(1)) as int;
    let pj = pow2(j) as int;
    let half = pow2((63 - j) as nat) as int;
    assert(s.skip(k)[0] == s[k]);
    assert(pow2(pos) == wk * pj);
    // v / wk == d + 2^64 * high
    let upper = d + 0x1_0000_0000_0000_0000 * high;
    assert(v == upper * wk + low) by (nonlinear_arith)
        requires
            v == low + wk * upper,
    ;
    lemma_fundamental_div_mod_converse(v, wk, upper, low);
    vstd::arithmetic::div_mod::lemma_div_denominator(v, wk, pj);
    assert(v / (wk * pj) == upper / pj);
    // upper / pj == d / pj + 2 * half * high
    assert(0x1_0000_0000_0000_0000 == pj * (2 * half)) by (nonlinear_arith)
        requires
            pow2(64) == pj * pow2((64 - j) as nat),
            pow2((64 - j) as nat) == 2 * half,
            pow2(64) == 0x1_0000_0000_0000_0000,
    ;
    let dq = d / pj;
    let dr = d % pj;
    vstd::arithmetic::div_mod::lemma_fundamental_div_mod(d, pj);
    assert(upper == (dq + 2 * half * high) * pj + dr) by (nonlinear_arith)
        requires
            upper == d + 0x1_0000_0000_0000_0000 * high,
            0x1_0000_0000_0000_0000 == pj * (2 * half),
            d == pj * dq + dr,
    ;
    vstd::arithmetic::div_mod::lemma_mod_bound(d, pj);
    lemma_fundamental_div_mod_converse(upper, pj, dq + 2 * half * high, dr);
    assert(2 * half * high == 2 * (half * high)) by (nonlinear_arith);
    vstd::arithmetic::div_mod::lemma_mod_multiples_vanish(half * high, dq, 2);
    assert((dq + 2 * (half * high)) % 2 == dq % 2);
}

/// The top bit of a `w`-bit pattern is set exactly where the pattern is at
/// least `2^(w - 1)`.
pub proof fn lemma_top_bit(v: nat, w: nat)
    requires
        w >= 1,
        v < pow2(w),
    ensures
        nat_bit(v, (w - 1) as nat) == (v >= pow2((w - 1) as nat)),
{
    let h = pow2((w - 1) as nat) as int;
    lemma_pow2_pos((w - 1) as nat);
    vstd::arithmetic::power2::lemma_pow2_unfold(w);
    if v >= h {
        lemma_fundamental_div_mod_converse(v as int, h, 1, v - h);
    } else {
        lemma_fundamental_div_mod_converse(v as int, h, 0, v as int);
    }
}

/// Reducing a number to `w` bits keeps its bits below `w`.
pub proof fn lemma_bit_of_mod(v: nat, w: nat, pos: nat)
    requires
        pos < w,
    ensures
        nat_bit(v % pow2(w), pos) == nat_bit(v, pos),
{
    let pw = pow2(w) as int;
    let pp = pow2(pos) as int;
    let half = pow2((w - pos - 1) as nat) as int;
    lemma_pow2_pos(w);
    lemma_pow2_pos(pos);
    lemma_pow2_pos((w - pos - 1) as nat);
    lemma_pow2_adds(pos, (w - pos) as nat);
    lemma_pow2_adds(1, (w - pos - 1) as nat);
    lemma_pow2_64();
    let q = v as int / pw;
    let r = v as int % pw;
    vstd::arithmetic::div_mod::lemma_fundamental_div_mod(v as int, pw);
    vstd::arithmetic::div_mod::lemma_mod_bound(v as int, pw);
    let rq = r / pp;
    let rr = r % pp;
    vstd::arithmetic::div_mod::lemma_fundamental_div_mod(r, pp);
    vstd::arithmetic::div_mod::lemma_mod_bound(r, pp);
    assert(pw == pp * (2 * half));
    assert(v == (rq + 2 * (half * q)) * pp + rr) by (nonlinear_arith)
        requires
            v == pw * q + r,
            r == pp * rq + rr,
            pw == pp * (2 * half),
    ;
    lemma_fundamental_div_mod_converse(v as int, pp, rq + 2 * (half * q), rr);
    vstd::arithmetic::div_mod::lemma_mod_multiples_vanish(half * q, rq, 2);
}

/// Setting a clear bit below `w` of a number below `2^w` leaves it below
/// `2^w`.
pub proof fn lemma_set_bit_bound(v: nat, w: nat, pos: nat)
    requires
        pos < w,
        v < pow2(w),
        !nat_bit(v, pos),
    ensures
        v + pow2(pos) < pow2(w),
{
    let pp = pow2(pos) as int;
    let rest = pow2((w - pos - 1) as nat) as int;
    lemma_pow2_pos(pos);
    lemma_pow2_pos((w - pos - 1) as nat);
    lemma_pow2_adds(pos, 1);
    lemma_pow2_adds(pos + 1, (w - pos - 1) as nat);
    lemma_pow2_64();
    lemma_shift_bit(v, pos);
    let h = v as int / (pow2(pos + 1) as int);
    let lo = v as int % pp;
    vstd::arithmetic::div_mod::lemma_fundamental_div_mod(v as int, pp);
    vstd::arithmetic::div_mod::lemma_mod_bound(v as int, pp);
    vstd::arithmetic::div_mod::lemma_div_pos_is_pos(v as int, pow2(pos + 1) as int);
    assert(v as int / pp == 2 * h);
    assert(h < rest) by (nonlinear_arith)
        requires
            v == pp * (2 * h) + lo,
            lo >= 0,
            v < (pp * 2) * rest,
            pp > 0,
    ;
    assert(v + pp < (pp * 2) * rest) by (nonlinear_arith)
        requires
            v == pp * (2 * h) + lo,
            lo < pp,
            h + 1 <= rest,
            pp > 0,
    ;
}

/// The three bitwise operations on words act bit by bit.
pub proof fn lemma_u64_bitwise(x: u64, y: u64, j: u64)
    requires
        j < 64,
    ensures
        nat_bit((x & y) as nat, j as nat) == (nat_bit(x as nat, j as nat) && nat_bit(
            y as nat,
            j as nat,
        )),
        nat_bit((x | y) as nat, j as nat) == (nat_bit(x as nat, j as nat) || nat_bit(
            y as nat,
            j as nat,
        )),
        nat_bit((x ^ y) as nat, j as nat) == (nat_bit(x as nat, j as nat) != nat_bit(
            y as nat,
            j as nat,
        )),
{
    crate::digit::lemma_u64_bit(x, j);
    crate::digit::lemma_u64_bit(y, j);
    crate::digit::lemma_u64_bit(x & y, j);
    crate::digit::lemma_u64_bit(x | y, j);
    crate::digit::lemma_u64_bit(x ^ y, j);
    assert((((x & y) >> j) & 1 == 1) == (((x >> j) & 1 == 1) && ((y >> j) & 1 == 1)))
        by (bit_vector);
    assert((((x | y) >> j) & 1 == 1) == (((x >> j) & 1 == 1) || ((y >> j) & 1 == 1)))
        by (bit_vector);
    assert((((x ^ y) >> j) & 1 == 1) == (((x >> j) & 1 == 1) != ((y >> j) & 1 == 1)))
        by (bit_vector);
}

} // verus!
