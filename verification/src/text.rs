//! The text form of a value: the digits that the characters of a string
//! stand for, and the number that digits spell in a radix.

use vstd::arithmetic::div_mod::lemma_fundamental_div_mod;
use vstd::arithmetic::div_mod::lemma_fundamental_div_mod_converse;
use vstd::arithmetic::div_mod::lemma_mod_bound;
use vstd::arithmetic::power2::lemma_pow2_adds;
use vstd::arithmetic::power2::lemma_pow2_pos;
use vstd::arithmetic::power2::pow2;
use vstd::prelude::*;

verus! {

/// The character `'_'`, which may stand between the digits of an input.
pub const SEPARATOR: u8 = 95;

/// What is handed out in place of a digit value for a byte that is neither
/// a numeral nor a letter.
pub const NO_DIGIT: u8 = 255;

/// The digit value that the byte `b` stands for: 0 to 9 for the numerals,
/// 10 to 35 for the letters of either case, and [`NO_DIGIT`] for any other
/// byte.
pub open spec fn byte_digit(b: u8) -> u8 {
    if 48 <= b <= 57 {
        (b - 48) as u8
    } else if 97 <= b <= 122 {
        (b - 87) as u8
    } else if 65 <= b <= 90 {
        (b - 55) as u8
    } else {
        NO_DIGIT
    }
}

/// Whether the byte `b` may stand in an input of radix `r`: it is the
/// separator or a digit of the radix.
pub open spec fn valid_byte(b: u8, r: nat) -> bool {
    b == SEPARATOR || byte_digit(b) < r
}

/// Whether every byte of `bytes` may stand in an input of radix `r`.
pub open spec fn all_valid(bytes: Seq<u8>, r: nat) -> bool {
    forall|i: int| 0 <= i < bytes.len() ==> valid_byte(#[trigger] bytes[i], r)
}

/// Whether `p` is the position of the first byte of `bytes` that may not
/// stand in an input of radix `r`.
pub open spec fn first_invalid(bytes: Seq<u8>, r: nat, p: int) -> bool {
    &&& 0 <= p < bytes.len()
    &&& !valid_byte(bytes[p], r)
    &&& forall|i: int| 0 <= i < p ==> valid_byte(#[trigger] bytes[i], r)
}

/// The digit values of the bytes `bytes` in their order, the separators
/// left out.
pub open spec fn digits_of(bytes: Seq<u8>) -> Seq<u8>
    decreases bytes.len(),
{
    if bytes.len() == 0 {
        Seq::empty()
    } else if bytes.last() == SEPARATOR {
        digits_of(bytes.drop_last())
    } else {
        digits_of(bytes.drop_last()).push(byte_digit(bytes.last()))
    }
}

/// The number that the digits `ds` spell in radix `r`, the most
/// significant digit first.
pub open spec fn radix_value(ds: Seq<u8>, r: nat) -> nat
    decreases ds.len(),
{
    if ds.len() == 0 {
        0
    } else {
        radix_value(ds.drop_last(), r) * r + ds.last() as nat
    }
}

/// The number that the digits `ds` of `bits` bits each spell, the least
/// significant digit first.
pub open spec fn bits_value(ds: Seq<u8>, bits: nat) -> nat
    decreases ds.len(),
{
    if ds.len() == 0 {
        0
    } else {
        bits_value(ds.drop_last(), bits) + ds.last() as nat * pow2(bits * (ds.len() - 1) as nat)
    }
}

/// `r` to the power `e`.
pub open spec fn radix_pow(r: nat, e: nat) -> nat
    decreases e,
{
    if e == 0 {
        1
    } else {
        radix_pow(r, (e - 1) as nat) * r
    }
}

/// Whether every digit of `ds` is a digit of radix `r`.
pub open spec fn digits_below(ds: Seq<u8>, r: nat) -> bool {
    forall|i: int| 0 <= i < ds.len() ==> (#[trigger] ds[i]) < r
}

/// The digits of `v` in radix `r`, the most significant first and without
/// leading zeros; the number 0 has the one digit 0.
pub open spec fn be_digits(v: nat, r: nat) -> Seq<u8>
    decreases v,
    via be_digits_decreases
{
    if r < 2 || r > 36 {
        seq![0u8]
    } else if v < r {
        seq![v as u8]
    } else {
        be_digits(v / r, r).push((v % r) as u8)
    }
}

#[via_fn]
proof fn be_digits_decreases(v: nat, r: nat) {
    if 2 <= r <= 36 && v >= r {
        vstd::arithmetic::div_mod::lemma_div_decreases(v as int, r as int);
        vstd::arithmetic::div_mod::lemma_div_pos_is_pos(v as int, r as int);
    }
}

/// The character code that stands for the digit value `d`: a numeral below
/// 10, and a letter of the asked case from 10 on.
pub open spec fn digit_byte(d: u8, upper: bool) -> u8 {
    if d < 10 {
        (48 + d) as u8
    } else if upper {
        (55 + d) as u8
    } else {
        (87 + d) as u8
    }
}

/// The text of the digits `ds`: one character for each.
pub open spec fn digits_text(ds: Seq<u8>, upper: bool) -> Seq<char> {
    Seq::new(ds.len(), |i: int| digit_byte(ds[i], upper) as char)
}

/// The text of the number `v` in radix `r`: its digits without leading
/// zeros, the letters in the asked case.
pub open spec fn number_text(v: nat, r: nat, upper: bool) -> Seq<char> {
    digits_text(be_digits(v, r), upper)
}

/// The first power of a radix is the radix.
pub proof fn lemma_radix_pow_one(r: nat)
    ensures
        radix_pow(r, 0) == 1,
        radix_pow(r, 1) == r,
{
    assert(radix_pow(r, 0) == 1);
    assert(radix_pow(r, 1) == radix_pow(r, 0) * r);
    assert(1 * r == r);
}

/// Powers of a radix of at least 1 are positive.
pub proof fn lemma_radix_pow_positive(r: nat, a: nat)
    requires
        r >= 1,
    ensures
        radix_pow(r, a) >= 1,
    decreases a,
{
    if a > 0 {
        lemma_radix_pow_positive(r, (a - 1) as nat);
        assert(radix_pow(r, (a - 1) as nat) * r >= 1) by (nonlinear_arith)
            requires
                radix_pow(r, (a - 1) as nat) >= 1,
                r >= 1,
        ;
    }
}

/// The power of a sum is the product of the powers.
pub proof fn lemma_radix_pow(r: nat, a: nat, b: nat)
    requires
        r >= 1,
    ensures
        radix_pow(r, a) >= 1,
        radix_pow(r, a + b) == radix_pow(r, a) * radix_pow(r, b),
    decreases b,
{
    lemma_radix_pow_positive(r, a);
    if b == 0 {
        assert(radix_pow(r, a) * 1 == radix_pow(r, a));
    } else {
        lemma_radix_pow(r, a, (b - 1) as nat);
        let x = radix_pow(r, a);
        let y = radix_pow(r, (b - 1) as nat);
        assert((x * y) * r == x * (y * r)) by (nonlinear_arith);
    }
}

/// Taking one byte more adds its digit, unless it is a separator.
pub proof fn lemma_digits_of_step(bytes: Seq<u8>, i: int)
    requires
        0 <= i < bytes.len(),
    ensures
        digits_of(bytes.take(i + 1)) == (if bytes[i] == SEPARATOR {
            digits_of(bytes.take(i))
        } else {
            digits_of(bytes.take(i)).push(byte_digit(bytes[i]))
        }),
{
    assert(bytes.take(i + 1).drop_last() =~= bytes.take(i));
}

/// The digits of valid bytes are digits of the radix.
pub proof fn lemma_digits_of_below(bytes: Seq<u8>, r: nat)
    requires
        all_valid(bytes, r),
    ensures
        digits_below(digits_of(bytes), r),
        digits_of(bytes).len() <= bytes.len(),
    decreases bytes.len(),
{
    if bytes.len() > 0 {
        let rest = bytes.drop_last();
        assert forall|i: int| 0 <= i < rest.len() implies valid_byte(#[trigger] rest[i], r) by {
            assert(rest[i] == bytes[i]);
        }
        lemma_digits_of_below(rest, r);
        assert(valid_byte(bytes[bytes.len() - 1], r));
    }
}

/// Taking one digit more multiplies by the radix and adds the digit.
pub proof fn lemma_radix_value_step(ds: Seq<u8>, r: nat, i: int)
    requires
        0 <= i < ds.len(),
    ensures
        radix_value(ds.take(i + 1), r) == radix_value(ds.take(i), r) * r + ds[i] as nat,
{
    assert(ds.take(i + 1).drop_last() =~= ds.take(i));
}

/// `n` digits of radix `r` spell a number below `r^n`.
pub proof fn lemma_radix_value_bound(ds: Seq<u8>, r: nat)
    requires
        r >= 1,
        digits_below(ds, r),
    ensures
        radix_value(ds, r) < radix_pow(r, ds.len()),
    decreases ds.len(),
{
    if ds.len() > 0 {
        let rest = ds.drop_last();
        assert forall|i: int| 0 <= i < rest.len() implies (#[trigger] rest[i]) < r by {
            assert(rest[i] == ds[i]);
        }
        lemma_radix_value_bound(rest, r);
        let v = radix_value(rest, r);
        let p = radix_pow(r, rest.len());
        assert(ds[ds.len() - 1] < r);
        assert(v * r + ds.last() < p * r) by (nonlinear_arith)
            requires
                v + 1 <= p,
                ds.last() < r,
        ;
    }
}

/// The number spelled by two runs of digits, one after the other.
pub proof fn lemma_radix_value_concat(a: Seq<u8>, b: Seq<u8>, r: nat)
    requires
        r >= 1,
    ensures
        radix_value(a + b, r) == radix_value(a, r) * radix_pow(r, b.len()) + radix_value(b, r),
    decreases b.len(),
{
    if b.len() == 0 {
        assert(a + b =~= a);
        assert(radix_value(a, r) * 1 == radix_value(a, r));
    } else {
        let rest = b.drop_last();
        assert((a + b).drop_last() =~= a + rest);
        assert((a + b).last() == b.last());
        lemma_radix_value_concat(a, rest, r);
        let x = radix_value(a, r);
        let p = radix_pow(r, rest.len());
        let y = radix_value(rest, r);
        assert(radix_pow(r, b.len()) == p * r);
        assert((x * p + y) * r == x * (p * r) + y * r) by (nonlinear_arith);
    }
}

/// A radix of at most 64 spells, with `n` digits, a number below `2^(6 n)`.
pub proof fn lemma_radix_pow_bits(r: nat, n: nat)
    requires
        1 <= r <= 64,
    ensures
        radix_pow(r, n) <= pow2(6 * n),
    decreases n,
{
    vstd::arithmetic::power2::lemma2_to64();
    if n > 0 {
        lemma_radix_pow_bits(r, (n - 1) as nat);
        lemma_pow2_adds(6 * (n - 1) as nat, 6);
        let p = radix_pow(r, (n - 1) as nat);
        let q = pow2(6 * (n - 1) as nat);
        assert(p * r <= q * 64) by (nonlinear_arith)
            requires
                p <= q,
                r <= 64,
        ;
    }
}

/// Taking one digit more adds it at the weight of its place.
pub proof fn lemma_bits_value_step(ds: Seq<u8>, bits: nat, i: int)
    requires
        0 <= i < ds.len(),
    ensures
        bits_value(ds.take(i + 1), bits) == bits_value(ds.take(i), bits) + ds[i] as nat * pow2(
            bits * (i as nat),
        ),
{
    assert(ds.take(i + 1).drop_last() =~= ds.take(i));
}

/// The number spelled least significant digit first is the lowest digit
/// plus `2^bits` times the number that the rest spells.
pub proof fn lemma_bits_value_front(ds: Seq<u8>, bits: nat)
    requires
        ds.len() >= 1,
    ensures
        bits_value(ds, bits) == ds[0] as nat + pow2(bits) * bits_value(ds.skip(1), bits),
    decreases ds.len(),
{
    vstd::arithmetic::power2::lemma2_to64();
    if ds.len() == 1 {
        assert(ds.drop_last() =~= Seq::<u8>::empty());
        assert(ds.skip(1) =~= Seq::<u8>::empty());
        assert(bits * 0 == 0);
        assert(pow2(bits) * 0 == 0) by (nonlinear_arith);
    } else {
        let rest = ds.drop_last();
        lemma_bits_value_front(rest, bits);
        assert(ds.skip(1).drop_last() =~= rest.skip(1));
        assert(ds.skip(1).last() == ds.last());
        let n = (ds.len() - 1) as nat;
        lemma_pow2_adds(bits, bits * (n - 1) as nat);
        assert(bits + bits * (n - 1) as nat == bits * n) by (nonlinear_arith)
            requires
                n >= 1,
        ;
        let top = ds.last() as nat;
        let p = pow2(bits);
        let w = pow2(bits * (n - 1) as nat);
        let inner = bits_value(rest.skip(1), bits);
        assert(p * (inner + top * w) == p * inner + top * (p * w)) by (nonlinear_arith);
    }
}

/// Digits read least significant first spell the number that their
/// reversal spells in radix `2^bits`.
pub proof fn lemma_bits_value_reverse(ds: Seq<u8>, bits: nat)
    ensures
        bits_value(ds.reverse(), bits) == radix_value(ds, pow2(bits)),
    decreases ds.len(),
{
    if ds.len() == 0 {
        assert(ds.reverse() =~= Seq::<u8>::empty());
    } else {
        let rest = ds.drop_last();
        let rev = ds.reverse();
        lemma_bits_value_front(rev, bits);
        assert(rev.skip(1) =~= rest.reverse());
        assert(rev[0] == ds.last());
        lemma_bits_value_reverse(rest, bits);
        let p = pow2(bits);
        let x = radix_value(rest, p);
        assert(p * x == x * p) by (nonlinear_arith);
    }
}

/// The digits of a number are digits of the radix, there is at least one of
/// them, and they spell the number.
pub proof fn lemma_be_digits(v: nat, r: nat)
    requires
        2 <= r <= 36,
    ensures
        be_digits(v, r).len() >= 1,
        digits_below(be_digits(v, r), r),
        radix_value(be_digits(v, r), r) == v,
    decreases v,
{
    if v < r {
        let s = seq![v as u8];
        assert(s.drop_last() =~= Seq::<u8>::empty());
        assert(radix_value(s.drop_last(), r) == 0);
        assert(0 * r == 0) by (nonlinear_arith);
    } else {
        lemma_fundamental_div_mod(v as int, r as int);
        lemma_mod_bound(v as int, r as int);
        vstd::arithmetic::div_mod::lemma_div_decreases(v as int, r as int);
        vstd::arithmetic::div_mod::lemma_div_pos_is_pos(v as int, r as int);
        let q = v / r;
        lemma_be_digits(q, r);
        let s = be_digits(q, r).push((v % r) as u8);
        assert(s.drop_last() =~= be_digits(q, r));
        assert forall|i: int| 0 <= i < s.len() implies (#[trigger] s[i]) < r by {
            if i < s.len() - 1 {
                assert(s[i] == be_digits(q, r)[i]);
            }
        }
        assert(q * r == r * q) by (nonlinear_arith);
    }
}

/// `n` digits of `bits` bits each spell a number below `2^(bits n)`.
pub proof fn lemma_bits_value_bound(ds: Seq<u8>, bits: nat)
    requires
        forall|i: int| 0 <= i < ds.len() ==> (#[trigger] ds[i]) < pow2(bits),
    ensures
        bits_value(ds, bits) < pow2(bits * ds.len()),
    decreases ds.len(),
{
    vstd::arithmetic::power2::lemma2_to64();
    if ds.len() == 0 {
        assert(bits * 0 == 0);
    } else {
        let n = (ds.len() - 1) as nat;
        let rest = ds.drop_last();
        assert forall|i: int| 0 <= i < rest.len() implies (#[trigger] rest[i]) < pow2(bits) by {
            assert(rest[i] == ds[i]);
        }
        lemma_bits_value_bound(rest, bits);
        lemma_pow2_adds(bits * n, bits);
        assert(bits * n + bits == bits * (n + 1)) by (nonlinear_arith);
        assert(ds[ds.len() - 1] < pow2(bits));
        let top = ds.last() as nat;
        let w = pow2(bits * n);
        let p = pow2(bits);
        assert(top * w + w <= w * p) by (nonlinear_arith)
            requires
                top + 1 <= p,
        ;
    }
}

/// The number spelled least significant digit first splits at any place
/// into a low part and a high part.
pub proof fn lemma_bits_value_split(ds: Seq<u8>, bits: nat, k: int)
    requires
        0 <= k <= ds.len(),
    ensures
        bits_value(ds, bits) == bits_value(ds.take(k), bits) + pow2(bits * (k as nat))
            * bits_value(ds.skip(k), bits),
    decreases ds.len(),
{
    if k == ds.len() {
        assert(ds.take(k) =~= ds);
        assert(ds.skip(k) =~= Seq::<u8>::empty());
        assert(pow2(bits * (k as nat)) * 0 == 0) by (nonlinear_arith);
    } else {
        let n = (ds.len() - 1) as nat;
        let rest = ds.drop_last();
        lemma_bits_value_split(rest, bits, k);
        assert(rest.take(k) =~= ds.take(k));
        assert(ds.skip(k).drop_last() =~= rest.skip(k));
        assert(ds.skip(k).last() == ds.last());
        let m = (n - k) as nat;
        lemma_pow2_adds(bits * (k as nat), bits * m);
        assert(bits * (k as nat) + bits * m == bits * n) by (nonlinear_arith)
            requires
                k + m == n,
                k >= 0,
        ;
        let top = ds.last() as nat;
        let wk = pow2(bits * (k as nat));
        let wm = pow2(bits * m);
        let hi = bits_value(rest.skip(k), bits);
        assert(wk * (hi + top * wm) == wk * hi + top * (wk * wm)) by (nonlinear_arith);
    }
}

/// The least number of 64-bit digits that hold `v`; at least one.
pub open spec fn min_digits(v: nat) -> nat
    decreases v,
{
    if v < 0x1_0000_0000_0000_0000 {
        1
    } else {
        1 + min_digits(v / 0x1_0000_0000_0000_0000)
    }
}

/// A count `n` of digits that holds `v`, where one digit fewer would not,
/// is the least such count.
pub proof fn lemma_min_digits(v: nat, n: nat)
    requires
        n >= 1,
        v < pow2(64 * n),
        n == 1 || v >= pow2(64 * (n - 1) as nat),
    ensures
        min_digits(v) == n,
    decreases n,
{
    vstd::arithmetic::power2::lemma2_to64();
    vstd::arithmetic::power2::lemma2_to64_rest();
    if n == 1 {
    } else {
        let b: int = 0x1_0000_0000_0000_0000;
        let m = (n - 1) as nat;
        lemma_pow2_adds(64 * (m - 1) as nat, 64);
        lemma_pow2_adds(64 * m, 64);
        lemma_pow2_pos(64 * (m - 1) as nat);
        let lo = pow2(64 * (m - 1) as nat) as int;
        let hi = pow2(64 * m) as int;
        let q = v as int / b;
        lemma_fundamental_div_mod(v as int, b);
        lemma_mod_bound(v as int, b);
        assert(v >= b) by (nonlinear_arith)
            requires
                v >= lo * b,
                lo >= 1,
                b > 0,
        ;
        assert(q < hi) by (nonlinear_arith)
            requires
                v == b * q + v as int % b,
                v as int % b >= 0,
                v < hi * b,
                b > 0,
        ;
        assert(q >= lo) by (nonlinear_arith)
            requires
                v == b * q + v as int % b,
                v as int % b < b,
                v >= lo * b,
                b > 0,
        ;
        lemma_min_digits(q as nat, m);
    }
}

/// A power of a radix grows with its exponent.
pub proof fn lemma_radix_pow_monotonic(r: nat, a: nat, b: nat)
    requires
        r >= 1,
        a <= b,
    ensures
        radix_pow(r, a) <= radix_pow(r, b),
{
    lemma_radix_pow(r, a, (b - a) as nat);
    lemma_radix_pow_positive(r, (b - a) as nat);
    let x = radix_pow(r, a);
    let y = radix_pow(r, (b - a) as nat);
    assert(x <= x * y) by (nonlinear_arith)
        requires
            y >= 1,
    ;
}

/// The note on an input that is empty.
pub open spec fn note_empty() -> Seq<char> {
    "Cannot parse an empty string into an ApInt."@
}

/// The note on an input that starts with a separator.
pub open spec fn note_leading() -> Seq<char> {
    "The input string starts with an underscore ('_') instead of a number. The use of underscores is explicitely for separation of digits."@
}

/// The note on an input that ends with a separator.
pub open spec fn note_trailing() -> Seq<char> {
    "The input string ends with an underscore ('_') instead of a number. The use of underscores is explicitely for separation of digits."@
}

/// The digits of `v` in radix `r`, the least significant first: the
/// digits of [`be_digits`] in the opposite order.
pub open spec fn le_digits(v: nat, r: nat) -> Seq<u8>
    decreases v,
    via le_digits_decreases
{
    if r < 2 || r > 36 {
        seq![0u8]
    } else if v < r {
        seq![v as u8]
    } else {
        seq![(v % r) as u8] + le_digits(v / r, r)
    }
}

#[via_fn]
proof fn le_digits_decreases(v: nat, r: nat) {
    if 2 <= r <= 36 && v >= r {
        vstd::arithmetic::div_mod::lemma_div_decreases(v as int, r as int);
        vstd::arithmetic::div_mod::lemma_div_pos_is_pos(v as int, r as int);
    }
}

/// The lowest `count` digits of `c` in radix `r`, the least significant
/// first, with zeros where `c` has fewer digits.
pub open spec fn le_padded(c: nat, r: nat, count: nat) -> Seq<u8>
    decreases count,
{
    if count == 0 || r < 2 {
        Seq::empty()
    } else {
        seq![(c % r) as u8] + le_padded(c / r, r, (count - 1) as nat)
    }
}

/// The digits least significant first are the digits most significant
/// first, read backwards.
pub proof fn lemma_le_digits_reverse(v: nat, r: nat)
    ensures
        le_digits(v, r).reverse() =~= be_digits(v, r),
    decreases v,
{
    if r < 2 || r > 36 || v < r {
    } else {
        vstd::arithmetic::div_mod::lemma_div_decreases(v as int, r as int);
        vstd::arithmetic::div_mod::lemma_div_pos_is_pos(v as int, r as int);
        lemma_le_digits_reverse(v / r, r);
        let head = seq![(v % r) as u8];
        let tail = le_digits(v / r, r);
        assert((head + tail).reverse() =~= tail.reverse().push((v % r) as u8));
    }
}

/// Above a run of `count` digits that spell `c`, the digits of
/// `q r^count + c` go on with the digits of `q`, where `q` is not zero.
pub proof fn lemma_le_digits_chunk(q: nat, c: nat, r: nat, count: nat)
    requires
        2 <= r <= 36,
        q >= 1,
        c < radix_pow(r, count),
    ensures
        le_digits(q * radix_pow(r, count) + c, r) =~= le_padded(c, r, count) + le_digits(q, r),
    decreases count,
{
    if count == 0 {
        assert(q * 1 + 0 == q);
    } else {
        let b = radix_pow(r, (count - 1) as nat);
        lemma_radix_pow_positive(r, (count - 1) as nat);
        let v = q * radix_pow(r, count) + c;
        let cq = c / r;
        let cr = c % r;
        lemma_fundamental_div_mod(c as int, r as int);
        lemma_mod_bound(c as int, r as int);
        vstd::arithmetic::div_mod::lemma_div_pos_is_pos(c as int, r as int);
        assert(v == (q * b + cq) * r + cr) by (nonlinear_arith)
            requires
                v == q * (b * r) + c,
                c == r * cq + cr,
        ;
        assert(q * b >= 1) by (nonlinear_arith)
            requires
                q >= 1,
                b >= 1,
        ;
        lemma_fundamental_div_mod_converse(v as int, r as int, (q * b + cq) as int, cr as int);
        assert(v >= r) by (nonlinear_arith)
            requires
                v == (q * b + cq) * r + cr,
                q * b >= 1,
                cq >= 0,
                cr >= 0,
                r >= 0,
        ;
        assert(cq < b) by (nonlinear_arith)
            requires
                c == r * cq + cr,
                cr >= 0,
                c < b * r,
                r > 0,
        ;
        lemma_le_digits_chunk(q, cq, r, (count - 1) as nat);
        assert(seq![cr as u8] + (le_padded(cq, r, (count - 1) as nat) + le_digits(q, r)) =~= (
        seq![cr as u8] + le_padded(cq, r, (count - 1) as nat)) + le_digits(q, r));
    }
}

/// A power of a power of two is a power of two.
pub proof fn lemma_radix_pow_pow2(bits: nat, count: nat)
    ensures
        radix_pow(pow2(bits), count) == pow2(bits * count),
    decreases count,
{
    vstd::arithmetic::power2::lemma2_to64();
    if count == 0 {
        assert(bits * 0 == 0);
    } else {
        lemma_radix_pow_pow2(bits, (count - 1) as nat);
        lemma_pow2_adds(bits * (count - 1) as nat, bits);
        assert(bits * (count - 1) as nat + bits == bits * count) by (nonlinear_arith)
            requires
                count >= 1,
        ;
    }
}

/// The character codes of the text of the digits `ds`.
pub open spec fn digits_bytes(ds: Seq<u8>, upper: bool) -> Seq<u8> {
    Seq::new(ds.len(), |i: int| digit_byte(ds[i], upper))
}

/// The digits of the text of digits are those digits: writing digits out
/// and reading them back changes nothing.
pub proof fn lemma_digits_of_text(ds: Seq<u8>, upper: bool)
    requires
        digits_below(ds, 36),
    ensures
        digits_of(digits_bytes(ds, upper)) =~= ds,
    decreases ds.len(),
{
    let bytes = digits_bytes(ds, upper);
    if ds.len() > 0 {
        let rest = ds.drop_last();
        assert(bytes.drop_last() =~= digits_bytes(rest, upper));
        assert forall|i: int| 0 <= i < rest.len() implies (#[trigger] rest[i]) < 36 by {
            assert(rest[i] == ds[i]);
        }
        lemma_digits_of_text(rest, upper);
        assert(ds[ds.len() - 1] < 36);
        assert(bytes.last() == digit_byte(ds.last(), upper));
    }
}

} // verus!
