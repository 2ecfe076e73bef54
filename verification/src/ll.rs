//! Digit-level kernels: the arithmetic on digit sequences that the
//! operations on values are made of. Each is stated over the natural number
//! that the digits stand for.

use crate::digit::Digit;
use crate::digit::digit_base;
use crate::digit::lemma_pow2_64;
use crate::digit::lemma_u64_bit;
use crate::digit::nat_bit;
use crate::limbs::lemma_limbs_bit;
use crate::limbs::lemma_limbs_bound;
use crate::limbs::lemma_limbs_front;
use crate::limbs::lemma_limbs_less;
use crate::limbs::lemma_limbs_split;
use crate::limbs::lemma_limbs_step;
use crate::limbs::lemma_limbs_zero;
use crate::limbs::lemma_shift_bit;
use crate::limbs::lemma_weight;
use crate::limbs::lemma_weight_adds;
use crate::limbs::limbs_value;
use crate::limbs::weight;
use vstd::arithmetic::div_mod::lemma_add_mod_noop;
use vstd::arithmetic::div_mod::lemma_fundamental_div_mod_converse;
use vstd::arithmetic::div_mod::lemma_mod_bound;
use vstd::arithmetic::div_mod::lemma_small_mod;
use vstd::arithmetic::power2::lemma_pow2_adds;
use vstd::arithmetic::power2::lemma_pow2_pos;
use vstd::arithmetic::power2::pow2;
use vstd::bits::lemma_u64_low_bits_mask_is_mod;
use vstd::bits::lemma_u64_shl_is_mul;
use vstd::bits::lemma_u64_shr_is_div;
use vstd::bits::low_bits_mask;
use vstd::prelude::*;

verus! {

/// Adds two digits and a carry: the result is the low 64 bits of
/// `a + b + carry`, and `carry` becomes what is left above them.
pub fn carry_add(a: Digit, b: Digit, carry: &mut Digit) -> (r: Digit)
    ensures
        r.0 + final(carry).0 * digit_base() == a.0 + b.0 + old(carry).0,
        old(carry).0 <= 1 ==> final(carry).0 <= 1,
{
    let t: u128 = a.0 as u128 + b.0 as u128 + carry.0 as u128;
    assert(t == (t >> 64) * 0x1_0000_0000_0000_0000 + (t & 0xFFFF_FFFF_FFFF_FFFF)) by (bit_vector);
    assert((t & 0xFFFF_FFFF_FFFF_FFFF) <= 0xFFFF_FFFF_FFFF_FFFF) by (bit_vector);
    assert((t >> 64) <= 0xFFFF_FFFF_FFFF_FFFF) by (bit_vector);
    let lo = (t & 0xFFFF_FFFF_FFFF_FFFF) as u64;
    let hi = (t >> 64) as u64;
    *carry = Digit(hi);
    Digit(lo)
}

/// Subtracts a digit and a borrow from a digit: the result is
/// `a - b - borrow` modulo `2^64`, and `borrow` becomes 1 where the true
/// difference is negative and 0 where it is not.
pub fn borrow_sub(a: Digit, b: Digit, borrow: &mut Digit) -> (r: Digit)
    requires
        old(borrow).0 <= 1,
    ensures
        r.0 - final(borrow).0 * digit_base() == a.0 - b.0 - old(borrow).0,
        final(borrow).0 == (if a.0 - b.0 - old(borrow).0 < 0 {
            1int
        } else {
            0int
        }),
{
    let first = a.0.wrapping_sub(b.0);
    let under_first = a.0 < b.0;
    let second = first.wrapping_sub(borrow.0);
    let under_second = first < borrow.0;
    if under_first || under_second {
        *borrow = Digit(1);
    } else {
        *borrow = Digit(0);
    }
    Digit(second)
}

/// Multiplies two digits and adds a third and a carry: the result is the low
/// 64 bits of `a + b * c + carry`, and `carry` becomes the high 64 bits.
pub fn carry_mul_add(a: Digit, b: Digit, c: Digit, carry: &mut Digit) -> (r: Digit)
    ensures
        r.0 + final(carry).0 * digit_base() == a.0 + b.0 * c.0 + old(carry).0,
{
    let x = b.0 as u128;
    let y = c.0 as u128;
    assert(x * y <= 0xFFFF_FFFF_FFFF_FFFE_0000_0000_0000_0001) by (nonlinear_arith)
        requires
            x <= 0xFFFF_FFFF_FFFF_FFFF,
            y <= 0xFFFF_FFFF_FFFF_FFFF,
    ;
    let t: u128 = x * y + a.0 as u128 + carry.0 as u128;
    assert(t == (t >> 64) * 0x1_0000_0000_0000_0000 + (t & 0xFFFF_FFFF_FFFF_FFFF)) by (bit_vector);
    assert((t & 0xFFFF_FFFF_FFFF_FFFF) <= 0xFFFF_FFFF_FFFF_FFFF) by (bit_vector);
    assert((t >> 64) <= 0xFFFF_FFFF_FFFF_FFFF) by (bit_vector);
    let lo = (t & 0xFFFF_FFFF_FFFF_FFFF) as u64;
    let hi = (t >> 64) as u64;
    *carry = Digit(hi);
    Digit(lo)
}

/// One step of a ripple: where the digits below index `i` already balance
/// and the digit at `i` balances with the carries, the digits below `i + 1`
/// balance too.
pub proof fn lemma_ripple_step(
    low_out: int,
    low_in: int,
    d_out: int,
    d_in: int,
    carry_in: int,
    carry_out: int,
    i: nat,
)
    requires
        low_out + carry_in * weight(i) == low_in,
        d_out + carry_out * digit_base() == d_in + carry_in,
    ensures
        low_out + d_out * weight(i) + carry_out * weight(i + 1) == low_in + d_in * weight(i),
{
    lemma_weight(i);
    let w = weight(i) as int;
    let b = digit_base() as int;
    assert((d_out + carry_out * b) * w == d_out * w + carry_out * (w * b)) by (nonlinear_arith);
    assert((d_in + carry_in) * w == d_in * w + carry_in * w) by (nonlinear_arith);
}

/// Adds the digits `rhs` to the digits `lhs` in place and returns the carry
/// out of the top digit.
pub fn add_assign_digits(lhs: &mut [Digit], rhs: &[Digit]) -> (carry: Digit)
    requires
        old(lhs)@.len() == rhs@.len(),
    ensures
        final(lhs)@.len() == old(lhs)@.len(),
        limbs_value(final(lhs)@) + carry.0 * weight(rhs@.len()) == limbs_value(old(lhs)@)
            + limbs_value(rhs@),
        carry.0 <= 1,
{
    let n = rhs.len();
    let ghost before = lhs@;
    let mut carry = Digit(0);
    let mut i: usize = 0;
    proof {
        lemma_weight(0);
    }
    while i < n
        invariant
            i <= n,
            n == rhs@.len(),
            lhs@.len() == n,
            before.len() == n,
            carry.0 <= 1,
            forall|k: int| i <= k < n ==> lhs@[k] == before[k],
            limbs_value(lhs@.take(i as int)) + carry.0 * weight(i as nat) == limbs_value(
                before.take(i as int),
            ) + limbs_value(rhs@.take(i as int)),
        decreases n - i,
    {
        let ghost prev = lhs@;
        let ghost carry_in = carry.0;
        let d = carry_add(lhs[i], rhs[i], &mut carry);
        lhs[i] = d;
        proof {
            assert(lhs@.take(i as int) =~= prev.take(i as int));
            lemma_limbs_step(lhs@, i as int);
            lemma_limbs_step(before, i as int);
            lemma_limbs_step(rhs@, i as int);
            lemma_ripple_step(
                limbs_value(prev.take(i as int)) as int,
                (limbs_value(before.take(i as int)) + limbs_value(rhs@.take(i as int))) as int,
                d.0 as int,
                before[i as int].0 + rhs@[i as int].0,
                carry_in as int,
                carry.0 as int,
                i as nat,
            );
            assert((before[i as int].0 + rhs@[i as int].0) * weight(i as nat) == before[i as int].0
                * weight(i as nat) + rhs@[i as int].0 * weight(i as nat)) by (nonlinear_arith);
        }
        i += 1;
    }
    proof {
        assert(lhs@.take(n as int) =~= lhs@);
        assert(before.take(n as int) =~= before);
        assert(rhs@.take(n as int) =~= rhs@);
    }
    carry
}

/// Subtracts the digits `rhs` from the digits `lhs` in place and returns
/// the borrow out of the top digit.
pub fn sub_assign_digits(lhs: &mut [Digit], rhs: &[Digit]) -> (borrow: Digit)
    requires
        old(lhs)@.len() == rhs@.len(),
    ensures
        final(lhs)@.len() == old(lhs)@.len(),
        limbs_value(final(lhs)@) - borrow.0 * weight(rhs@.len()) == limbs_value(old(lhs)@)
            - limbs_value(rhs@),
        borrow.0 <= 1,
{
    let n = rhs.len();
    let ghost before = lhs@;
    let mut borrow = Digit(0);
    let mut i: usize = 0;
    proof {
        lemma_weight(0);
    }
    while i < n
        invariant
            i <= n,
            n == rhs@.len(),
            lhs@.len() == n,
            before.len() == n,
            borrow.0 <= 1,
            forall|k: int| i <= k < n ==> lhs@[k] == before[k],
            limbs_value(lhs@.take(i as int)) - borrow.0 * weight(i as nat) == limbs_value(
                before.take(i as int),
            ) - limbs_value(rhs@.take(i as int)),
        decreases n - i,
    {
        let ghost prev = lhs@;
        let ghost borrow_in = borrow.0;
        let d = borrow_sub(lhs[i], rhs[i], &mut borrow);
        lhs[i] = d;
        proof {
            assert(lhs@.take(i as int) =~= prev.take(i as int));
            lemma_limbs_step(lhs@, i as int);
            lemma_limbs_step(before, i as int);
            lemma_limbs_step(rhs@, i as int);
            assert((-(borrow_in as int)) * weight(i as nat) == -(borrow_in * weight(i as nat)))
                by (nonlinear_arith);
            lemma_ripple_step(
                limbs_value(prev.take(i as int)) as int,
                limbs_value(before.take(i as int)) - limbs_value(rhs@.take(i as int)),
                d.0 as int,
                before[i as int].0 - rhs@[i as int].0,
                -(borrow_in as int),
                -(borrow.0 as int),
                i as nat,
            );
            assert((before[i as int].0 - rhs@[i as int].0) * weight(i as nat) == before[i as int].0
                * weight(i as nat) - rhs@[i as int].0 * weight(i as nat)) by (nonlinear_arith);
            assert((-(borrow.0 as int)) * weight((i + 1) as nat) == -(borrow.0 * weight(
                (i + 1) as nat,
            ))) by (nonlinear_arith);
        }
        i += 1;
    }
    proof {
        assert(lhs@.take(n as int) =~= lhs@);
        assert(before.take(n as int) =~= before);
        assert(rhs@.take(n as int) =~= rhs@);
    }
    borrow
}

/// A number below `m` that differs from `x` by a multiple of `m` is `x`
/// modulo `m`.
pub proof fn lemma_mod_unique(v: int, x: int, k: int, m: int)
    requires
        0 <= v < m,
        v + k * m == x,
    ensures
        v == x % m,
{
    lemma_fundamental_div_mod_converse(x, m, k, v);
}

/// Adds `a * d * 2^(64 j)` to the digits `acc` in place, dropping what does
/// not fit their length.
pub fn mul_add_digit(acc: &mut [Digit], a: &[Digit], d: Digit, j: usize)
    requires
        old(acc)@.len() == a@.len(),
        j < a@.len(),
    ensures
        final(acc)@.len() == old(acc)@.len(),
        limbs_value(final(acc)@) == (limbs_value(old(acc)@) + limbs_value(a@) * d.0 * weight(
            j as nat,
        )) % (weight(a@.len()) as int),
{
    let n = a.len();
    let ghost before = acc@;
    let ghost dv = d.0 as int;
    let ghost wj = weight(j as nat) as int;
    let mut carry = Digit(0);
    let mut i: usize = 0;
    proof {
        assert(a@.take(0) =~= Seq::<Digit>::empty());
        assert(0 * dv * wj == 0) by (nonlinear_arith);
        assert(0 * weight(j as nat) == 0) by (nonlinear_arith);
    }
    while i < n - j
        invariant
            i <= n - j,
            j < n,
            n == a@.len(),
            acc@.len() == n,
            before.len() == n,
            dv == d.0,
            wj == weight(j as nat),
            forall|k: int| i + j <= k < n ==> acc@[k] == before[k],
            limbs_value(acc@.take(i + j)) + carry.0 * weight((i + j) as nat) == limbs_value(
                before.take(i + j),
            ) + limbs_value(a@.take(i as int)) * dv * wj,
        decreases n - j - i,
    {
        let ghost prev = acc@;
        let ghost carry_in = carry.0;
        let x = carry_mul_add(acc[i + j], a[i], d, &mut carry);
        acc[i + j] = x;
        proof {
            let p = i + j;
            assert(acc@.take(p) =~= prev.take(p));
            lemma_limbs_step(acc@, p);
            lemma_limbs_step(before, p);
            lemma_limbs_step(a@, i as int);
            lemma_weight_adds(i as nat, j as nat);
            let ai = a@[i as int].0 as int;
            let bp = before[p].0 as int;
            let wi = weight(i as nat) as int;
            let at = limbs_value(a@.take(i as int)) as int;
            assert(ai * dv == a@[i as int].0 * d.0);
            lemma_ripple_step(
                limbs_value(prev.take(p)) as int,
                limbs_value(before.take(p)) + at * dv * wj,
                x.0 as int,
                bp + ai * dv,
                carry_in as int,
                carry.0 as int,
                p as nat,
            );
            assert((bp + ai * dv) * (wi * wj) == bp * (wi * wj) + (ai * wi) * dv * wj)
                by (nonlinear_arith);
            assert((at + ai * wi) * dv * wj == at * dv * wj + (ai * wi) * dv * wj)
                by (nonlinear_arith);
        }
        i += 1;
    }
    proof {
        let m = (n - j) as int;
        assert(acc@.take(n as int) =~= acc@);
        assert(before.take(n as int) =~= before);
        lemma_limbs_split(a@, m);
        lemma_weight_adds(m as nat, j as nat);
        lemma_limbs_bound(acc@);
        let wn = weight(n as nat) as int;
        let wm = weight(m as nat) as int;
        let lo = limbs_value(a@.take(m)) as int;
        let hi = limbs_value(a@.skip(m)) as int;
        let c = carry.0 as int;
        let k = c + hi * dv;
        assert((lo + wm * hi) * dv * wj == lo * dv * wj + (hi * dv) * (wm * wj))
            by (nonlinear_arith);
        assert(c * wn + (hi * dv) * wn == k * wn) by (nonlinear_arith)
            requires
                k == c + hi * dv,
        ;
        lemma_mod_unique(
            limbs_value(acc@) as int,
            limbs_value(before) + limbs_value(a@) * dv * wj,
            k,
            wn,
        );
    }
}

/// Multiplies the digits `lhs` by the digits `rhs` in place, keeping the
/// low digits of the product: schoolbook multiplication.
pub fn mul_assign_digits(lhs: &mut [Digit], rhs: &[Digit])
    requires
        old(lhs)@.len() == rhs@.len(),
    ensures
        final(lhs)@.len() == old(lhs)@.len(),
        limbs_value(final(lhs)@) == (limbs_value(old(lhs)@) * limbs_value(rhs@)) % weight(
            rhs@.len(),
        ),
{
    let n = rhs.len();
    let ghost before = lhs@;
    let mut a: Vec<Digit> = Vec::with_capacity(n);
    let mut i: usize = 0;
    while i < n
        invariant
            i <= n,
            n == rhs@.len(),
            lhs@.len() == n,
            before.len() == n,
            a@.len() == i,
            forall|k: int| 0 <= k < i ==> a@[k] == before[k],
            forall|k: int| 0 <= k < i ==> (#[trigger] lhs@[k]).0 == 0,
            forall|k: int| i <= k < n ==> lhs@[k] == before[k],
        decreases n - i,
    {
        a.push(lhs[i]);
        lhs[i] = Digit(0);
        i += 1;
    }
    let ghost av = limbs_value(before) as int;
    let ghost wn = weight(n as nat) as int;
    proof {
        assert(a@ =~= before);
        lemma_limbs_zero(lhs@);
        assert(rhs@.take(0) =~= Seq::<Digit>::empty());
        lemma_weight(n as nat);
        assert(av * 0 == 0) by (nonlinear_arith);
        lemma_small_mod(0, wn as nat);
    }
    let mut j: usize = 0;
    while j < n
        invariant
            j <= n,
            n == rhs@.len(),
            lhs@.len() == n,
            a@.len() == n,
            av == limbs_value(a@),
            wn == weight(n as nat),
            wn > 0,
            limbs_value(lhs@) == (av * limbs_value(rhs@.take(j as int))) % wn,
        decreases n - j,
    {
        let ghost acc = limbs_value(lhs@) as int;
        mul_add_digit(lhs, a.as_slice(), rhs[j], j);
        proof {
            lemma_limbs_step(rhs@, j as int);
            let rt = limbs_value(rhs@.take(j as int)) as int;
            let rj = rhs@[j as int].0 as int;
            let wj = weight(j as nat) as int;
            let add = av * rj * wj;
            assert(av * (rt + rj * wj) == av * rt + av * rj * wj) by (nonlinear_arith);
            lemma_add_mod_noop(av * rt, add, wn);
            lemma_mod_bound(add, wn);
            lemma_mod_bound(av * rt, wn);
            vstd::arithmetic::div_mod::lemma_add_mod_noop_right(acc, add, wn);
            vstd::arithmetic::div_mod::lemma_add_mod_noop_right((av * rt) % wn, add, wn);
        }
        j += 1;
    }
    proof {
        assert(rhs@.take(n as int) =~= rhs@);
    }
}

/// Doubles the digits `v` in place and adds `carry_in`, which is 0 or 1;
/// returns the bit shifted out of the top digit.
pub fn double_digits(v: &mut [Digit], carry_in: Digit) -> (carry: Digit)
    requires
        carry_in.0 <= 1,
    ensures
        final(v)@.len() == old(v)@.len(),
        limbs_value(final(v)@) + carry.0 * weight(old(v)@.len()) == 2 * limbs_value(old(v)@)
            + carry_in.0,
        carry.0 <= 1,
{
    let n = v.len();
    let ghost before = v@;
    let mut carry = carry_in;
    let mut i: usize = 0;
    proof {
        lemma_weight(0);
    }
    while i < n
        invariant
            i <= n,
            v@.len() == n,
            before.len() == n,
            carry.0 <= 1,
            carry_in.0 <= 1,
            forall|k: int| i <= k < n ==> v@[k] == before[k],
            limbs_value(v@.take(i as int)) + carry.0 * weight(i as nat) == 2 * limbs_value(
                before.take(i as int),
            ) + carry_in.0,
        decreases n - i,
    {
        let ghost prev = v@;
        let ghost c0 = carry.0;
        let d = carry_add(v[i], v[i], &mut carry);
        v[i] = d;
        proof {
            assert(v@.take(i as int) =~= prev.take(i as int));
            lemma_limbs_step(v@, i as int);
            lemma_limbs_step(before, i as int);
            lemma_ripple_step(
                limbs_value(prev.take(i as int)) as int,
                2 * limbs_value(before.take(i as int)) + carry_in.0,
                d.0 as int,
                2 * before[i as int].0,
                c0 as int,
                carry.0 as int,
                i as nat,
            );
            assert((2 * before[i as int].0) * weight(i as nat) == 2 * (before[i as int].0 * weight(
                i as nat,
            ))) by (nonlinear_arith);
        }
        i += 1;
    }
    proof {
        assert(v@.take(n as int) =~= v@);
        assert(before.take(n as int) =~= before);
    }
    carry
}

/// Whether the digits `a` stand for a value below that of the digits `b`.
pub fn less_than_digits(a: &[Digit], b: &[Digit]) -> (r: bool)
    requires
        a@.len() == b@.len(),
    ensures
        r == (limbs_value(a@) < limbs_value(b@)),
{
    let n = a.len();
    let mut i: usize = n;
    while i > 0
        invariant
            i <= n,
            n == a@.len(),
            n == b@.len(),
            forall|k: int| i <= k < n ==> a@[k] == b@[k],
        decreases i,
    {
        i -= 1;
        if a[i].0 < b[i].0 {
            proof {
                lemma_limbs_less(a@, b@, i as int);
            }
            return true;
        }
        if a[i].0 > b[i].0 {
            proof {
                lemma_limbs_less(b@, a@, i as int);
            }
            return false;
        }
    }
    proof {
        assert(a@ =~= b@);
    }
    false
}

/// Whether bit `pos` of the value of the digits `a` is set.
pub fn bit_of_digits(a: &[Digit], pos: usize) -> (r: bool)
    requires
        pos < 64 * a@.len(),
    ensures
        r == nat_bit(limbs_value(a@), pos as nat),
{
    let d = a[pos / 64];
    let j = pos % 64;
    proof {
        lemma_limbs_bit(a@, pos as nat);
        lemma_u64_bit(d.0, j as u64);
    }
    (d.0 >> j) & 1 == 1
}

/// Copies the digits `src` over the digits `dst`.
pub fn copy_digits(dst: &mut [Digit], src: &[Digit])
    requires
        old(dst)@.len() == src@.len(),
    ensures
        final(dst)@ == src@,
{
    let n = src.len();
    let mut i: usize = 0;
    while i < n
        invariant
            i <= n,
            n == src@.len(),
            dst@.len() == n,
            forall|k: int| 0 <= k < i ==> dst@[k] == src@[k],
        decreases n - i,
    {
        dst[i] = src[i];
        i += 1;
    }
    assert(dst@ =~= src@);
}

/// `n` digits that are all zero.
pub fn zero_digits(n: usize) -> (v: Vec<Digit>)
    ensures
        v@.len() == n,
        limbs_value(v@) == 0,
        forall|k: int| 0 <= k < n ==> (#[trigger] v@[k]).0 == 0,
{
    let mut v: Vec<Digit> = Vec::with_capacity(n);
    let mut i: usize = 0;
    while i < n
        invariant
            i <= n,
            v@.len() == i,
            forall|k: int| 0 <= k < i ==> (#[trigger] v@[k]).0 == 0,
        decreases n - i,
    {
        v.push(Digit(0));
        i += 1;
    }
    proof {
        lemma_limbs_zero(v@);
    }
    v
}

/// One step of binary long division: from `high == q * b + r` with
/// `r < b`, the next bit of the dividend gives the next bit of the quotient.
pub proof fn lemma_division_step(high: int, q: int, b: int, r: int, bit: int, t: int)
    requires
        high == q * b + r,
        0 <= r < b,
        0 <= bit <= 1,
        t == 2 * r + bit,
    ensures
        t >= b ==> 2 * high + bit == (2 * q + 1) * b + (t - b) && 0 <= t - b < b,
        t < b ==> 2 * high + bit == (2 * q) * b + t,
{
    assert(2 * (q * b) == (2 * q) * b) by (nonlinear_arith);
    assert((2 * q + 1) * b == (2 * q) * b + b) by (nonlinear_arith);
}

/// Divides the digits `a`, which stand for a value of at most `bits` bits,
/// by the digits `b`, which must not stand for zero: binary long division,
/// from bit `bits - 1` of `a` down. Returns the digits of the quotient and
/// of the remainder.
pub fn divrem_digits(a: &[Digit], b: &[Digit], bits: usize) -> (qr: (Vec<Digit>, Vec<Digit>))
    requires
        a@.len() == b@.len(),
        limbs_value(b@) > 0,
        bits <= 64 * a@.len(),
        limbs_value(a@) < vstd::arithmetic::power2::pow2(bits as nat),
    ensures
        qr.0@.len() == a@.len(),
        qr.1@.len() == a@.len(),
        limbs_value(qr.0@) == limbs_value(a@) / limbs_value(b@),
        limbs_value(qr.1@) == limbs_value(a@) % limbs_value(b@),
{
    let n = a.len();
    let mut q = zero_digits(n);
    let mut r = zero_digits(n);
    let ghost av = limbs_value(a@);
    let ghost bv = limbs_value(b@) as int;
    let ghost wn = weight(n as nat) as int;
    let mut left: usize = bits;
    proof {
        lemma_limbs_bound(a@);
        lemma_limbs_bound(b@);
        lemma_weight(n as nat);
        vstd::arithmetic::div_mod::lemma_basic_div(
            av as int,
            vstd::arithmetic::power2::pow2(bits as nat) as int,
        );
        assert(0 * bv == 0) by (nonlinear_arith);
    }
    while left > 0
        invariant
            left <= 64 * n,
            n == a@.len(),
            n == b@.len(),
            q@.len() == n,
            r@.len() == n,
            av == limbs_value(a@),
            bv == limbs_value(b@),
            wn == weight(n as nat),
            0 < bv < wn,
            av < wn,
            av / vstd::arithmetic::power2::pow2(left as nat) == limbs_value(q@) * bv + limbs_value(
                r@,
            ),
            limbs_value(r@) < bv,
        decreases left,
    {
        left -= 1;
        let bit = bit_of_digits(a, left);
        let ghost qv = limbs_value(q@) as int;
        let ghost rv = limbs_value(r@) as int;
        let ghost high = (av / vstd::arithmetic::power2::pow2((left + 1) as nat)) as int;
        let ghost bitv: int = if bit {
            1
        } else {
            0
        };
        let ghost t = 2 * rv + bitv;
        proof {
            lemma_shift_bit(av, left as nat);
            lemma_division_step(high, qv, bv, rv, bitv, t);
            lemma_limbs_bound(q@);
            lemma_limbs_bound(r@);
            vstd::arithmetic::power2::lemma_pow2_pos(left as nat);
            vstd::arithmetic::div_mod::lemma_div_nonincreasing(
                av as int,
                vstd::arithmetic::power2::pow2(left as nat) as int,
            );
        }
        let over = double_digits(r.as_mut_slice(), Digit(if bit {
            1
        } else {
            0
        }));
        let take = over.0 == 1 || !less_than_digits(r.as_slice(), b);
        proof {
            lemma_limbs_bound(r@);
            assert(take == (t >= bv));
        }
        if take {
            let borrow = sub_assign_digits(r.as_mut_slice(), b);
            proof {
                lemma_limbs_bound(r@);
                assert(over.0 * wn - borrow.0 * wn == (over.0 - borrow.0) * wn)
                    by (nonlinear_arith);
                assert(limbs_value(r@) == t - bv) by (nonlinear_arith)
                    requires
                        limbs_value(r@) + (over.0 - borrow.0) * wn == t - bv,
                        0 <= t - bv < wn,
                        0 <= limbs_value(r@) < wn,
                        0 <= over.0 <= 1,
                        0 <= borrow.0 <= 1,
                ;
            }
        }
        let ghost qbit: int = if take {
            1
        } else {
            0
        };
        proof {
            // The new quotient fits, so doubling it shifts nothing out.
            let target = 2 * qv + qbit;
            let rest = limbs_value(r@) as int;
            assert(av / vstd::arithmetic::power2::pow2(left as nat) == target * bv + rest);
            assert(target <= target * bv) by (nonlinear_arith)
                requires
                    bv >= 1,
                    target >= 0,
            ;
            assert(target < wn);
        }
        let out = double_digits(q.as_mut_slice(), Digit(if take {
            1
        } else {
            0
        }));
        proof {
            lemma_limbs_bound(q@);
            assert(limbs_value(q@) == 2 * qv + qbit) by (nonlinear_arith)
                requires
                    limbs_value(q@) + out.0 * wn == 2 * qv + qbit,
                    0 <= 2 * qv + qbit < wn,
                    0 <= limbs_value(q@) < wn,
                    0 <= out.0 <= 1,
            ;
        }
    }
    proof {
        vstd::arithmetic::power2::lemma2_to64();
        assert(left == 0);
        assert(vstd::arithmetic::power2::pow2(0) == 1);
        assert(av / vstd::arithmetic::power2::pow2(left as nat) == av / 1);
        assert(av / 1 == av);
        assert(av as int == limbs_value(q@) * bv + limbs_value(r@));
        lemma_fundamental_div_mod_converse(
            av as int,
            bv,
            limbs_value(q@) as int,
            limbs_value(r@) as int,
        );
    }
    (q, r)
}

/// Shifting a word left by `bs` bits splits its product with `2^bs` into
/// the bits that leave at the top and the bits that stay.
pub proof fn lemma_u64_shl_split(x: u64, bs: u64)
    requires
        0 < bs < 64,
    ensures
        x * pow2(bs as nat) == (x >> ((64 - bs) as u64)) * digit_base() + (x << bs),
        (x >> ((64 - bs) as u64)) < pow2(bs as nat),
        (x >> ((64 - bs) as u64)) == x as nat / pow2((64 - bs) as nat),
{
    lemma_pow2_64();
    let c = (64 - bs) as u64;
    let hi = x >> c;
    let mask = ((1u64 << c) - 1) as u64;
    let rest = x & mask;
    let pc = pow2(c as nat) as int;
    let pb = pow2(bs as nat) as int;
    lemma_pow2_adds(c as nat, bs as nat);
    lemma_u64_bit(x, c);
    assert(low_bits_mask(c as nat) == mask);
    lemma_u64_low_bits_mask_is_mod(x, c as nat);
    lemma_mod_bound(x as int, pc);
    lemma_u64_shr_is_div(x, c);
    vstd::arithmetic::div_mod::lemma_fundamental_div_mod(x as int, pc);
    assert(x << bs == (x & mask) << bs) by (bit_vector)
        requires
            0 < bs < 64,
            c + bs == 64,
            mask + 1 == (1u64 << c),
    ;
    assert(rest * pb < pc * pb) by (nonlinear_arith)
        requires
            0 <= rest < pc,
            pb > 0,
    ;
    lemma_u64_shl_is_mul(rest, bs);
    assert(x * pb == hi * (pc * pb) + rest * pb) by (nonlinear_arith)
        requires
            x == pc * hi + rest,
    ;
    assert(hi < pb) by (nonlinear_arith)
        requires
            x == pc * hi + rest,
            0 <= rest,
            x < pc * pb,
            pc > 0,
            hi >= 0,
    ;
}

/// Shifts every digit of `v` left by `bits` bits, which is from 1 to 63,
/// carrying the bits that leave a digit into the next one; what leaves the
/// top digit is dropped.
pub fn shl_digits_by_bits(v: &mut [Digit], bits: usize)
    requires
        0 < bits < 64,
    ensures
        final(v)@.len() == old(v)@.len(),
        limbs_value(final(v)@) == (limbs_value(old(v)@) * pow2(bits as nat)) % weight(
            old(v)@.len(),
        ),
{
    let n = v.len();
    let ghost before = v@;
    let ghost m = pow2(bits as nat) as int;
    let mut carry: u64 = 0;
    let mut i: usize = 0;
    proof {
        lemma_weight(0);
        lemma_pow2_pos(bits as nat);
        assert(0 * m == 0) by (nonlinear_arith);
    }
    while i < n
        invariant
            i <= n,
            0 < bits < 64,
            v@.len() == n,
            before.len() == n,
            m == pow2(bits as nat),
            carry < m,
            forall|k: int| i <= k < n ==> v@[k] == before[k],
            limbs_value(v@.take(i as int)) + carry * weight(i as nat) == limbs_value(
                before.take(i as int),
            ) * m,
        decreases n - i,
    {
        let ghost prev = v@;
        let ghost carry_in = carry;
        let x = v[i].0;
        let shifted = x << bits;
        let out = x >> (64 - bits);
        proof {
            let b = bits as u64;
            lemma_u64_shl_split(x, b);
            lemma_u64_bit(x, b);
            assert(carry < (1u64 << b));
            assert(carry < (1u64 << b) ==> ((x << b) | carry) == (x << b) + carry) by (bit_vector)
                requires
                    0 < b < 64,
            ;
        }
        let d = Digit(shifted | carry);
        v[i] = d;
        carry = out;
        proof {
            assert(v@.take(i as int) =~= prev.take(i as int));
            lemma_limbs_step(v@, i as int);
            lemma_limbs_step(before, i as int);
            let bt = limbs_value(before.take(i as int)) as int;
            let wi = weight(i as nat) as int;
            lemma_ripple_step(
                limbs_value(prev.take(i as int)) as int,
                bt * m,
                d.0 as int,
                x * m,
                carry_in as int,
                carry as int,
                i as nat,
            );
            assert((bt + x * wi) * m == bt * m + (x * m) * wi) by (nonlinear_arith);
        }
        i += 1;
    }
    proof {
        assert(v@.take(n as int) =~= v@);
        assert(before.take(n as int) =~= before);
        lemma_limbs_bound(v@);
        lemma_weight(n as nat);
        lemma_mod_unique(
            limbs_value(v@) as int,
            limbs_value(before) * m,
            carry as int,
            weight(n as nat) as int,
        );
    }
}

/// Moves every digit of `v` up by `steps` places and fills the places
/// below with zeros; the digits that leave at the top are dropped.
pub fn shl_digits_by_digits(v: &mut [Digit], steps: usize)
    requires
        steps < old(v)@.len(),
    ensures
        final(v)@.len() == old(v)@.len(),
        limbs_value(final(v)@) == (limbs_value(old(v)@) * weight(steps as nat)) % weight(
            old(v)@.len(),
        ),
{
    let n = v.len();
    let ghost before = v@;
    let mut i: usize = n;
    while i > steps
        invariant
            steps <= i <= n,
            steps < n,
            v@.len() == n,
            before.len() == n,
            forall|k: int| i <= k < n ==> v@[k] == before[k - steps],
            forall|k: int| 0 <= k < i ==> v@[k] == before[k],
        decreases i,
    {
        i -= 1;
        v[i] = v[i - steps];
    }
    let mut j: usize = 0;
    while j < steps
        invariant
            j <= steps,
            steps < n,
            v@.len() == n,
            before.len() == n,
            forall|k: int| steps <= k < n ==> v@[k] == before[k - steps],
            forall|k: int| 0 <= k < j ==> (#[trigger] v@[k]).0 == 0,
        decreases steps - j,
    {
        v[j] = Digit(0);
        j += 1;
    }
    proof {
        let s = steps as int;
        let m = n - s;
        lemma_limbs_split(v@, s);
        lemma_limbs_zero(v@.take(s));
        assert(v@.skip(s) =~= before.take(m));
        lemma_limbs_split(before, m);
        lemma_weight_adds(m as nat, steps as nat);
        lemma_limbs_bound(v@);
        let ws = weight(steps as nat) as int;
        let wm = weight(m as nat) as int;
        let lo = limbs_value(before.take(m)) as int;
        let hi = limbs_value(before.skip(m)) as int;
        assert((lo + wm * hi) * ws == ws * lo + hi * (wm * ws)) by (nonlinear_arith);
        lemma_mod_unique(
            limbs_value(v@) as int,
            limbs_value(before) * ws,
            hi,
            weight(n as nat) as int,
        );
    }
}

/// Moves every digit of `v` down by `steps` places and fills the places
/// above with zeros.
pub fn shr_digits_by_digits(v: &mut [Digit], steps: usize)
    requires
        steps < old(v)@.len(),
    ensures
        final(v)@.len() == old(v)@.len(),
        limbs_value(final(v)@) == limbs_value(old(v)@) / weight(steps as nat),
{
    let n = v.len();
    let ghost before = v@;
    let mut i: usize = 0;
    while i < n - steps
        invariant
            i <= n - steps,
            steps < n,
            v@.len() == n,
            before.len() == n,
            forall|k: int| 0 <= k < i ==> v@[k] == before[k + steps],
            forall|k: int| i <= k < n ==> v@[k] == before[k],
        decreases n - steps - i,
    {
        v[i] = v[i + steps];
        i += 1;
    }
    let mut j: usize = n - steps;
    while j < n
        invariant
            n - steps <= j <= n,
            steps < n,
            v@.len() == n,
            before.len() == n,
            forall|k: int| 0 <= k < n - steps ==> v@[k] == before[k + steps],
            forall|k: int| n - steps <= k < j ==> (#[trigger] v@[k]).0 == 0,
        decreases n - j,
    {
        v[j] = Digit(0);
        j += 1;
    }
    proof {
        let s = steps as int;
        let m = n - s;
        lemma_limbs_split(v@, m);
        lemma_limbs_zero(v@.skip(m));
        assert(v@.take(m) =~= before.skip(s));
        lemma_limbs_split(before, s);
        lemma_limbs_bound(before.take(s));
        lemma_weight(steps as nat);
        let ws = weight(steps as nat) as int;
        let lo = limbs_value(before.take(s)) as int;
        let hi = limbs_value(before.skip(s)) as int;
        assert(weight(m as nat) * 0 == 0) by (nonlinear_arith);
        assert(lo + ws * hi == hi * ws + lo) by (nonlinear_arith);
        lemma_fundamental_div_mod_converse(limbs_value(before) as int, ws, hi, lo);
    }
}

/// Shifts every digit of `v` right by `bits` bits, which is from 1 to 63,
/// carrying the bits that leave a digit into the one below; zeros come in
/// at the top.
pub fn shr_digits_by_bits(v: &mut [Digit], bits: usize)
    requires
        0 < bits < 64,
    ensures
        final(v)@.len() == old(v)@.len(),
        limbs_value(final(v)@) == limbs_value(old(v)@) / pow2(bits as nat),
{
    let n = v.len();
    let ghost before = v@;
    let ghost m = pow2(bits as nat) as int;
    let ghost co = pow2((64 - bits) as nat) as int;
    let mut carry: u64 = 0;
    let ghost mut low: int = 0;
    let ghost mut source: u64 = 0;
    let mut i: usize = n;
    proof {
        let c = (64 - bits) as u64;
        assert(0u64 << c == 0) by (bit_vector);
        lemma_pow2_pos(bits as nat);
        lemma_pow2_pos((64 - bits) as nat);
        lemma_pow2_adds(bits as nat, (64 - bits) as nat);
        lemma_pow2_64();
        assert(v@.skip(n as int) =~= Seq::<Digit>::empty());
        assert(0 * m == 0) by (nonlinear_arith);
        assert(0 * co == 0) by (nonlinear_arith);
    }
    while i > 0
        invariant
            i <= n,
            0 < bits < 64,
            v@.len() == n,
            before.len() == n,
            m == pow2(bits as nat),
            co == pow2((64 - bits) as nat),
            m * co == digit_base(),
            m > 0,
            co > 0,
            0 <= low < m,
            carry == low * co,
            carry == source << ((64 - bits) as u64),
            forall|k: int| 0 <= k < i ==> v@[k] == before[k],
            limbs_value(v@.skip(i as int)) * m + low == limbs_value(before.skip(i as int)),
        decreases i,
    {
        i -= 1;
        let ghost prev = v@;
        let ghost low_in = low;
        let x = v[i].0;
        let kept = x >> bits;
        let out = x << (64 - bits);
        proof {
            let b = bits as u64;
            let c = (64 - bits) as u64;
            lemma_u64_shl_split(x, c);
            lemma_u64_shr_is_div(x, b);
            assert(((x >> b) | carry) == (x >> b) + carry) by (bit_vector)
                requires
                    0 < b < 64,
                    c + b == 64,
                    carry == source << c,
            ;
        }
        let d = Digit(kept | carry);
        v[i] = d;
        carry = out;
        proof {
            source = x;
            let xv = x as int;
            let q = xv / m;
            let r = xv % m;
            vstd::arithmetic::div_mod::lemma_fundamental_div_mod(xv, m);
            lemma_mod_bound(xv, m);
            low = r;
            // out == r * co
            assert(out as int == r * co) by (nonlinear_arith)
                requires
                    xv * co == q * (m * co) + out,
                    xv == m * q + r,
            ;
            assert(v@.skip(i as int + 1) =~= prev.skip(i as int + 1));
            lemma_limbs_front(v@.skip(i as int));
            lemma_limbs_front(before.skip(i as int));
            assert(v@.skip(i as int).skip(1) =~= v@.skip(i as int + 1));
            assert(before.skip(i as int).skip(1) =~= before.skip(i as int + 1));
            let hi_new = limbs_value(prev.skip(i as int + 1)) as int;
            let hi_old = limbs_value(before.skip(i as int + 1)) as int;
            assert(d.0 as int == q + low_in * co);
            assert((q + low_in * co + (m * co) * hi_new) * m + r == (m * q + r) + (m * co) * (
            hi_new * m + low_in)) by (nonlinear_arith);
        }
    }
    proof {
        assert(v@.skip(0) =~= v@);
        assert(before.skip(0) =~= before);
        lemma_fundamental_div_mod_converse(
            limbs_value(before) as int,
            m,
            limbs_value(v@) as int,
            low,
        );
    }
}

/// Multiplies the digits `v` by the digit `m` in place and adds the digit
/// `add`; returns the digit that leaves at the top.
pub fn mul_add_scalar(v: &mut [Digit], m: Digit, add: Digit) -> (carry: Digit)
    ensures
        final(v)@.len() == old(v)@.len(),
        limbs_value(final(v)@) + carry.0 * weight(old(v)@.len()) == limbs_value(old(v)@) * m.0
            + add.0,
{
    let n = v.len();
    let ghost before = v@;
    let ghost mv = m.0 as int;
    let mut carry = add;
    let mut i: usize = 0;
    proof {
        lemma_weight(0);
        assert(0 * mv == 0) by (nonlinear_arith);
    }
    while i < n
        invariant
            i <= n,
            v@.len() == n,
            before.len() == n,
            mv == m.0,
            forall|k: int| i <= k < n ==> v@[k] == before[k],
            limbs_value(v@.take(i as int)) + carry.0 * weight(i as nat) == limbs_value(
                before.take(i as int),
            ) * mv + add.0,
        decreases n - i,
    {
        let ghost prev = v@;
        let ghost carry_in = carry.0;
        let d = carry_mul_add(Digit(0), v[i], m, &mut carry);
        v[i] = d;
        proof {
            assert(v@.take(i as int) =~= prev.take(i as int));
            lemma_limbs_step(v@, i as int);
            lemma_limbs_step(before, i as int);
            let bt = limbs_value(before.take(i as int)) as int;
            let x = before[i as int].0 as int;
            let wi = weight(i as nat) as int;
            lemma_ripple_step(
                limbs_value(prev.take(i as int)) as int,
                bt * mv + add.0,
                d.0 as int,
                x * mv,
                carry_in as int,
                carry.0 as int,
                i as nat,
            );
            assert((bt + x * wi) * mv == bt * mv + (x * mv) * wi) by (nonlinear_arith);
        }
        i += 1;
    }
    proof {
        assert(v@.take(n as int) =~= v@);
        assert(before.take(n as int) =~= before);
    }
    carry
}

/// Divides the digits `v` by the digit `d`, which is not zero, in place;
/// returns the remainder.
pub fn div_rem_scalar(v: &mut [Digit], d: Digit) -> (rem: Digit)
    requires
        d.0 != 0,
    ensures
        final(v)@.len() == old(v)@.len(),
        limbs_value(final(v)@) == limbs_value(old(v)@) / (d.0 as nat),
        rem.0 == limbs_value(old(v)@) % (d.0 as nat),
{
    let n = v.len();
    let ghost before = v@;
    let ghost dv = d.0 as int;
    let mut rem: u64 = 0;
    let mut i: usize = n;
    proof {
        assert(v@.skip(n as int) =~= Seq::<Digit>::empty());
        assert(0 * dv == 0) by (nonlinear_arith);
    }
    while i > 0
        invariant
            i <= n,
            v@.len() == n,
            before.len() == n,
            dv == d.0,
            dv > 0,
            rem < dv,
            forall|k: int| 0 <= k < i ==> v@[k] == before[k],
            limbs_value(v@.skip(i as int)) * dv + rem == limbs_value(before.skip(i as int)),
        decreases i,
    {
        i -= 1;
        let ghost prev = v@;
        let ghost rem_in = rem as int;
        let x = v[i].0;
        let wide: u128 = (rem as u128) * 0x1_0000_0000_0000_0000u128 + x as u128;
        let q = wide / (d.0 as u128);
        let r = wide % (d.0 as u128);
        proof {
            assert(q * dv + r == wide) by {
                vstd::arithmetic::div_mod::lemma_fundamental_div_mod(wide as int, dv);
                assert(dv * (q as int) == q * dv) by (nonlinear_arith);
            }
            lemma_mod_bound(wide as int, dv);
            assert(q < 0x1_0000_0000_0000_0000) by (nonlinear_arith)
                requires
                    q * dv + r == rem_in * 0x1_0000_0000_0000_0000 + x,
                    0 <= rem_in < dv,
                    0 <= x < 0x1_0000_0000_0000_0000,
                    r >= 0,
                    q >= 0,
            ;
        }
        let digit = Digit(q as u64);
        v[i] = digit;
        rem = r as u64;
        proof {
            assert(v@.skip(i as int + 1) =~= prev.skip(i as int + 1));
            lemma_limbs_front(v@.skip(i as int));
            lemma_limbs_front(before.skip(i as int));
            assert(v@.skip(i as int).skip(1) =~= v@.skip(i as int + 1));
            assert(before.skip(i as int).skip(1) =~= before.skip(i as int + 1));
            let hi_new = limbs_value(prev.skip(i as int + 1)) as int;
            assert((q + 0x1_0000_0000_0000_0000 * hi_new) * dv + r == (q * dv + r)
                + 0x1_0000_0000_0000_0000 * (hi_new * dv)) by (nonlinear_arith);
        }
    }
    proof {
        assert(v@.skip(0) =~= v@);
        assert(before.skip(0) =~= before);
        lemma_fundamental_div_mod_converse(
            limbs_value(before) as int,
            dv,
            limbs_value(v@) as int,
            rem as int,
        );
    }
    Digit(rem)
}

} // verus!
