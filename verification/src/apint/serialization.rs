use crate::apint::ApInt;
use crate::bitwidth::BitWidth;
use crate::digit::Digit;
use crate::digit::lemma_pow2_64;
use crate::digit::lemma_u64_bit;
use crate::errors::Error;
use crate::errors::ErrorKindView;
use crate::errors::ErrorView;
use crate::limbs::lemma_limbs_bound;
use crate::limbs::lemma_limbs_push;
use crate::limbs::lemma_weight;
use crate::limbs::limbs_value;
use crate::limbs::weight;
use crate::ll;
use crate::model::bit_length;
use crate::model::lemma_bit_length_bounds;
use crate::radix::Radix;
use crate::radix::is_pow2_radix;
use crate::radix::log2_radix;
use crate::text::NO_DIGIT;
use crate::text::SEPARATOR;
use crate::text::all_valid;
use crate::text::bits_value;
use crate::text::byte_digit;
use crate::text::digits_below;
use crate::text::digits_of;
use crate::text::first_invalid;
use crate::text::lemma_bits_value_front;
use crate::text::lemma_bits_value_reverse;
use crate::text::lemma_bits_value_split;
use crate::text::lemma_bits_value_step;
use crate::text::lemma_digits_of_below;
use crate::text::lemma_digits_of_step;
use crate::text::lemma_min_digits;
use crate::text::lemma_radix_pow_bits;
use crate::text::lemma_radix_pow_monotonic;
use crate::text::lemma_radix_pow_positive;
use crate::text::lemma_radix_value_bound;
use crate::text::lemma_radix_value_concat;
use crate::text::lemma_radix_value_step;
use crate::text::min_digits;
use crate::text::note_empty;
use crate::text::note_leading;
use crate::text::note_trailing;
use crate::text::radix_pow;
use crate::text::radix_value;
use crate::text::valid_byte;
use vstd::arithmetic::power2::lemma_pow2_adds;
use vstd::arithmetic::power2::lemma_pow2_pos;
use vstd::arithmetic::power2::lemma_pow2_strictly_increases;
use vstd::arithmetic::power2::pow2;
use vstd::bits::lemma_u64_shl_is_mul;
use vstd::prelude::*;
use vstd::string::StringSliceAdditionalSpecFns;

verus! {

/// Whether every digit of `ds` is below `2^bits`.
pub open spec fn digits_fit(ds: Seq<u8>, bits: nat) -> bool {
    forall|i: int| 0 <= i < ds.len() ==> (#[trigger] ds[i]) < pow2(bits)
}

/// A word below `2^k` and a word shifted left by `k` share no bit, so
/// their OR is their sum.
pub proof fn lemma_or_is_sum(d: u64, c: u64, k: u64)
    requires
        k < 64,
        d < pow2(k as nat),
    ensures
        (d | (c << k)) == d + (c << k),
{
    lemma_u64_bit(d, k);
    assert(d < (1u64 << k) ==> (d | (c << k)) == d + (c << k)) by (bit_vector)
        requires
            k < 64,
    ;
}

impl ApInt {
    /// The value spelled by the digits `v` of `bits` bits each, the least
    /// significant first, where `bits` divides 64: each run of `64 / bits`
    /// digits is packed into one digit of the value.
    pub fn from_bitwise_digits(v: &[u8], bits: usize) -> (r: ApInt)
        requires
            v@.len() >= 1,
            1 <= bits <= 8,
            64usize % bits == 0,
            digits_fit(v@, bits as nat),
            v@.len() * bits + 64 <= usize::MAX,
        ensures
            r.wf(),
            r@.width == 64 * ((v@.len() * bits + 63) / 64),
            r@.value == bits_value(v@, bits as nat),
    {
        let n = v.len();
        let per = 64 / bits;
        let mut data: Vec<Digit> = Vec::new();
        let mut start: usize = 0;
        proof {
            lemma_pow2_64();
            assert(v@.take(0) =~= Seq::<u8>::empty());
            let b = bits as u64;
            assert(1 <= b <= 8 && 64u64 % b == 0 ==> b == 1 || b == 2 || b == 4 || b == 8)
                by (bit_vector);
            assert(bits == 1 || bits == 2 || bits == 4 || bits == 8);
            assert(per * bits == 64);
            assert(n * bits >= 1) by (nonlinear_arith)
                requires
                    n >= 1,
                    bits >= 1,
            ;
            assert(per * 0 == 0);
        }
        while start < n
            invariant
                start <= n,
                n == v@.len(),
                1 <= bits <= 8,
                per * bits == 64,
                per >= 1,
                digits_fit(v@, bits as nat),
                start < n ==> start == per * data@.len(),
                start == n ==> data@.len() == (n * bits + 63) / 64,
                n * bits + 64 <= usize::MAX,
                limbs_value(data@) == bits_value(v@.take(start as int), bits as nat),
            decreases n - start,
        {
            let end = if n - start < per {
                n
            } else {
                start + per
            };
            let ghost chunk = v@.subrange(start as int, end as int);
            let mut acc: u64 = 0;
            let mut j: usize = end;
            proof {
                lemma_pow2_64();
                assert(v@.subrange(end as int, end as int) =~= Seq::<u8>::empty());
                assert(bits * (end - j) == 0) by (nonlinear_arith)
                    requires
                        end == j,
                ;
            }
            while j > start
                invariant
                    start <= j <= end,
                    end <= n,
                    end - start <= per,
                    n == v@.len(),
                    1 <= bits <= 8,
                    per * bits == 64,
                    digits_fit(v@, bits as nat),
                    acc == bits_value(v@.subrange(j as int, end as int), bits as nat),
                    acc < pow2((bits * (end - j)) as nat),
                decreases j,
            {
                j -= 1;
                let c = v[j] as u64;
                proof {
                    lemma_pow2_64();
                    let sub = v@.subrange(j as int, end as int);
                    let inner = v@.subrange(j as int + 1, end as int);
                    lemma_bits_value_front(sub, bits as nat);
                    assert(sub.skip(1) =~= inner);
                    assert(sub[0] == v@[j as int]);
                    let k = (bits * (end - j - 1)) as nat;
                    lemma_pow2_adds(k, bits as nat);
                    assert(k + bits == bits * (end - j)) by (nonlinear_arith)
                        requires
                            k == bits * (end - j - 1),
                    ;
                    assert(bits * (end - j) <= 64) by (nonlinear_arith)
                        requires
                            end - j <= per,
                            per * bits == 64,
                            bits >= 1,
                    ;
                    if bits * (end - j) < 64 {
                        lemma_pow2_strictly_increases((bits * (end - j)) as nat, 64);
                    }
                    let p = pow2(bits as nat) as int;
                    let w = pow2(k) as int;
                    assert(acc * p + p <= w * p) by (nonlinear_arith)
                        requires
                            acc + 1 <= w,
                            p >= 0,
                    ;
                    assert(v@[j as int] < pow2(bits as nat));
                    assert(w * p == pow2((bits * (end - j)) as nat));
                    assert(w * p <= 0x1_0000_0000_0000_0000);
                    assert(p >= 1);
                    assert(acc * p <= 0xFFFF_FFFF_FFFF_FFFF);
                    lemma_u64_shl_is_mul(acc, bits as u64);
                    lemma_or_is_sum(c, acc, bits as u64);
                    assert(((acc << bits) | c) == (c | (acc << bits))) by (bit_vector);
                    assert(p * acc == acc * p) by (nonlinear_arith);
                }
                acc = (acc << bits) | c;
            }
            proof {
                lemma_limbs_push(data@, Digit(acc));
                lemma_bits_value_split(v@.take(end as int), bits as nat, start as int);
                assert(v@.take(end as int).take(start as int) =~= v@.take(start as int));
                assert(v@.take(end as int).skip(start as int) =~= chunk);
                assert(bits * (per * data@.len()) == 64 * data@.len()) by (nonlinear_arith)
                    requires
                        per * bits == 64,
                ;
                let len = data@.len();
                if end == n {
                    assert((n * bits + 63) / 64 == len + 1) by (nonlinear_arith)
                        requires
                            start == per * len,
                            per * bits == 64,
                            0 < n - start <= per,
                            bits >= 1,
                    ;
                }
                assert(weight(len) * (acc as nat) == acc * weight(len)) by (nonlinear_arith);
                assert(per * (len + 1) == per * len + per) by (nonlinear_arith);
            }
            data.push(Digit(acc));
            start = end;
        }
        proof {
            assert(v@.take(n as int) =~= v@);
        }
        ApInt::from_digit_vec(data)
    }

    /// The value spelled by the digits `v` of `bits` bits each, the least
    /// significant first, where `bits` does not divide 64: the bits are
    /// gathered in a register, and a digit of the value is put out whenever
    /// the register holds 64 of them.
    pub fn from_inexact_bitwise_digits(v: &[u8], bits: usize) -> (r: ApInt)
        requires
            v@.len() >= 1,
            1 <= bits <= 8,
            64usize % bits != 0,
            digits_fit(v@, bits as nat),
            v@.len() * bits + 64 <= usize::MAX,
        ensures
            r.wf(),
            r@.width == 64 * ((v@.len() * bits + 63) / 64),
            r@.value == bits_value(v@, bits as nat),
    {
        let n = v.len();
        let len_digits = (n * bits + 63) / 64;
        let mut data: Vec<Digit> = Vec::with_capacity(len_digits);
        let mut d: u64 = 0;
        let mut dbits: usize = 0;
        let mut i: usize = 0;
        proof {
            lemma_pow2_64();
            lemma_weight(0);
            assert(v@.take(0) =~= Seq::<u8>::empty());
        }
        while i < n
            invariant
                i <= n,
                n == v@.len(),
                1 <= bits <= 8,
                digits_fit(v@, bits as nat),
                dbits < 64,
                d < pow2(dbits as nat),
                i * bits == 64 * data@.len() + dbits,
                n * bits + 64 <= usize::MAX,
                limbs_value(data@) + d * weight(data@.len()) == bits_value(
                    v@.take(i as int),
                    bits as nat,
                ),
            decreases n - i,
        {
            let c = v[i] as u64;
            let ghost k = dbits as nat;
            let ghost len = data@.len();
            let ghost d0 = d;
            proof {
                assert(v@[i as int] < pow2(bits as nat));
                lemma_bits_value_step(v@, bits as nat, i as int);
                lemma_pow2_adds(64 * len, k);
                lemma_pow2_adds(k, bits as nat);
                lemma_pow2_pos(k);
                assert(bits * (i as nat) == 64 * len + k) by (nonlinear_arith)
                    requires
                        i * bits == 64 * len + k,
                ;
                lemma_or_is_sum(d, c, dbits as u64);
                lemma_weight(len);
                assert((i + 1) * bits == i * bits + bits) by (nonlinear_arith);
            }
            let sum = d | (c << dbits);
            dbits += bits;
            if dbits >= 64 {
                proof {
                    ll::lemma_u64_shl_split(c, k as u64);
                    let hi = (c >> ((64 - k) as u64)) as int;
                    let wl = weight(len) as int;
                    let pk = pow2(k) as int;
                    lemma_limbs_push(data@, Digit(sum));
                    assert((sum + hi * 0x1_0000_0000_0000_0000) * wl == sum * wl + hi * (wl
                        * 0x1_0000_0000_0000_0000)) by (nonlinear_arith);
                    assert((d0 + c * pk) * wl == d0 * wl + c * (wl * pk)) by (nonlinear_arith);
                    // the bits of `c` that did not fit are fewer than the new count
                    let rest = (dbits - 64) as nat;
                    lemma_pow2_adds((64 - k) as nat, rest);
                    lemma_pow2_pos((64 - k) as nat);
                    let low = pow2((64 - k) as nat) as int;
                    vstd::arithmetic::div_mod::lemma_fundamental_div_mod(c as int, low);
                    vstd::arithmetic::div_mod::lemma_mod_bound(c as int, low);
                    assert(hi < pow2(rest)) by (nonlinear_arith)
                        requires
                            c == low * hi + c as int % low,
                            c as int % low >= 0,
                            c < low * pow2(rest),
                            low > 0,
                    ;
                }
                data.push(Digit(sum));
                dbits -= 64;
                d = c >> (bits - dbits);
            } else {
                proof {
                    let pk = pow2(k) as int;
                    let pb = pow2(bits as nat) as int;
                    let wl = weight(len) as int;
                    lemma_pow2_strictly_increases(dbits as nat, 64);
                    assert(c * pk + pk <= pk * pb) by (nonlinear_arith)
                        requires
                            c + 1 <= pb,
                            pk >= 0,
                    ;
                    lemma_u64_shl_is_mul(c, k as u64);
                    assert((d0 + c * pk) * wl == d0 * wl + c * (wl * pk)) by (nonlinear_arith);
                }
                d = sum;
            }
            i += 1;
        }
        proof {
            assert(v@.take(n as int) =~= v@);
            lemma_limbs_push(data@, Digit(d));
            assert(n * bits >= 1) by (nonlinear_arith)
                requires
                    n >= 1,
                    bits >= 1,
            ;
            if dbits == 0 {
                assert(d == 0);
                assert(0 * weight(data@.len()) == 0) by (nonlinear_arith);
            }
        }
        if dbits > 0 {
            data.push(Digit(d));
        }
        ApInt::from_digit_vec(data)
    }
}

/// The binary logarithms of the radices 2 to 36, times `2^13` and rounded
/// up. The entry for a radix stands at the index `radix - 2`.
pub const LB_2_36_I3F13: [u16; 35] = [
    8192,
    12985,
    16384,
    19022,
    21177,
    22998,
    24576,
    25969,
    27214,
    28340,
    29369,
    30315,
    31190,
    32006,
    32768,
    33485,
    34161,
    34800,
    35406,
    35982,
    36532,
    37058,
    37561,
    38043,
    38507,
    38953,
    39382,
    39797,
    40198,
    40585,
    40960,
    41324,
    41677,
    42020,
    42353,
];

/// An upper estimate of the number of bits of a number of `len` digits in
/// the given radix: the table entry times `len + 1`, divided by `2^13`.
/// `None` where the product does not fit a `usize`.
pub fn bit_budget(radix: Radix, len: usize) -> (r: Option<usize>)
    requires
        radix.wf(),
    ensures
        ({
            let product = LB_2_36_I3F13[radix.value() - 2] * (len + 1);
            &&& product <= usize::MAX ==> r == Some((product / 8192) as usize)
            &&& product > usize::MAX ==> r is None
        }),
{
    let entry = LB_2_36_I3F13[(radix.to_u8() - 2) as usize] as usize;
    let count = match len.checked_add(1) {
        Some(c) => c,
        None => {
            proof {
                assert(entry >= 1);
                assert(entry * (len + 1) > usize::MAX) by (nonlinear_arith)
                    requires
                        entry >= 1,
                        len + 1 > usize::MAX,
                ;
            }
            return None;
        },
    };
    match entry.checked_mul(count) {
        Some(product) => {
            proof {
                vstd::bits::lemma_usize_shr_is_div(product, 13);
                vstd::arithmetic::power2::lemma2_to64();
            }
            Some(product >> 13)
        },
        None => None,
    }
}

/// The digit value of the byte `b`.
pub fn digit_of_byte(b: u8) -> (d: u8)
    ensures
        d == byte_digit(b),
{
    if b >= 48 && b <= 57 {
        b - 48
    } else if b >= 97 && b <= 122 {
        b - 87
    } else if b >= 65 && b <= 90 {
        b - 55
    } else {
        NO_DIGIT
    }
}

/// The number that the digits `v[start..end]` spell in radix `r`, the most
/// significant first.
fn chunk_value(v: &[u8], start: usize, end: usize, r: u64) -> (c: u64)
    requires
        start <= end <= v@.len(),
        2 <= r <= 36,
        digits_below(v@, r as nat),
        radix_pow(r as nat, (end - start) as nat) <= u64::MAX,
    ensures
        c == radix_value(v@.subrange(start as int, end as int), r as nat),
{
    let ghost sub = v@.subrange(start as int, end as int);
    let ghost rv = r as nat;
    let mut acc: u64 = 0;
    let mut j: usize = start;
    proof {
        assert(sub.take(0) =~= Seq::<u8>::empty());
    }
    while j < end
        invariant
            start <= j <= end,
            end <= v@.len(),
            2 <= r <= 36,
            rv == r,
            sub == v@.subrange(start as int, end as int),
            digits_below(v@, rv),
            radix_pow(rv, (end - start) as nat) <= u64::MAX,
            acc == radix_value(sub.take(j - start), rv),
            acc < radix_pow(rv, (j - start) as nat),
        decreases end - j,
    {
        let d = v[j] as u64;
        proof {
            let k = (j - start) as nat;
            lemma_radix_value_step(sub, rv, j - start);
            assert(sub[j - start] == v@[j as int]);
            assert(v@[j as int] < rv);
            lemma_radix_pow_monotonic(rv, k + 1, (end - start) as nat);
            let p = radix_pow(rv, k);
            assert(radix_pow(rv, k + 1) == p * rv);
            assert(acc * r + d < p * rv) by (nonlinear_arith)
                requires
                    acc + 1 <= p,
                    d < rv,
                    r == rv,
            ;
        }
        acc = acc * r + d;
        j += 1;
    }
    proof {
        assert(sub.take(end - start) =~= sub);
    }
    acc
}

impl ApInt {
    /// The value spelled by the digits `v` of the given radix, the most
    /// significant first: the digits are taken in runs of as many as fit a
    /// 64-bit word, and for each run the value so far is multiplied by the
    /// radix base and the run is added. The value gets the least number of
    /// whole digits that hold it.
    pub fn from_radix_digits(v: &[u8], radix: Radix) -> (r: ApInt)
        requires
            v@.len() >= 1,
            radix.wf(),
            !is_pow2_radix(radix.value()),
            digits_below(v@, radix.value()),
            6 * v@.len() + 64 <= usize::MAX,
        ensures
            r.wf(),
            r@.value == radix_value(v@, radix.value()),
            r@.width == 64 * min_digits(r@.value),
    {
        let n = v.len();
        let capacity = match bit_budget(radix, n) {
            Some(bits) => bits / 64 + 1,
            None => 1,
        };
        let mut data: Vec<Digit> = Vec::with_capacity(capacity);
        let (base, power) = radix.get_radix_base();
        let r = radix.to_u8() as u64;
        let ghost rv = radix.value();
        let rest = n % power;
        let head = if rest == 0 {
            power
        } else {
            rest
        };
        proof {
            vstd::arithmetic::div_mod::lemma_fundamental_div_mod(n as int, power as int);
            vstd::arithmetic::div_mod::lemma_mod_bound(n as int, power as int);
            if rest == 0 {
                assert(n / power >= 1) by (nonlinear_arith)
                    requires
                        n == power * (n / power),
                        n >= 1,
                        power >= 1,
                        n / power >= 0,
                ;
                assert(n >= power) by (nonlinear_arith)
                    requires
                        n == power * (n / power),
                        n / power >= 1,
                        power >= 1,
                ;
            }
            lemma_radix_pow_monotonic(rv, head as nat, power as nat);
            if rest == 0 {
                vstd::arithmetic::div_mod::lemma_mod_sub_multiples_vanish(n as int, power as int);
            } else {
                vstd::arithmetic::div_mod::lemma_mod_multiples_basic(
                    n as int / (power as int),
                    power as int,
                );
                assert(n - rest == (n as int / (power as int)) * power) by (nonlinear_arith)
                    requires
                        n == power * (n as int / (power as int)) + rest,
                ;
            }
        }
        let first = chunk_value(v, 0, head, r);
        data.push(Digit(first));
        let mut pos: usize = head;
        proof {
            assert(v@.subrange(0, head as int) =~= v@.take(head as int));
            crate::limbs::lemma_limbs_single(Digit(first));
            assert(data@ =~= seq![Digit(first)]);
            lemma_radix_pow_positive(rv, power as nat);
        }
        while pos < n
            invariant
                head <= pos <= n,
                n == v@.len(),
                power >= 1,
                (n - pos) % (power as int) == 0,
                radix.wf(),
                rv == radix.value(),
                r == rv,
                digits_below(v@, rv),
                base == radix_pow(rv, power as nat),
                base >= 1,
                data@.len() >= 1,
                limbs_value(data@) == radix_value(v@.take(pos as int), rv),
                data@.len() == 1 || limbs_value(data@) >= weight((data@.len() - 1) as nat),
            decreases n - pos,
        {
            proof {
                // a whole run is left
                let left = (n - pos) as int;
                vstd::arithmetic::div_mod::lemma_fundamental_div_mod(left, power as int);
                assert(left >= power) by (nonlinear_arith)
                    requires
                        left == power * (left / (power as int)),
                        left >= 1,
                        power >= 1,
                ;
                vstd::arithmetic::div_mod::lemma_mod_sub_multiples_vanish(left, power as int);
            }
            let chunk = chunk_value(v, pos, pos + power, r);
            let ghost before = data@;
            let ghost old_value = limbs_value(data@);
            let carry = ll::mul_add_scalar(data.as_mut_slice(), Digit(base), Digit(chunk));
            proof {
                let sub = v@.subrange(pos as int, pos + power);
                lemma_radix_value_concat(v@.take(pos as int), sub, rv);
                assert(v@.take(pos as int) + sub =~= v@.take(pos + power));
                lemma_limbs_push(data@, carry);
                lemma_limbs_bound(data@);
                lemma_weight((data@.len() - 1) as nat);
                let len = data@.len();
                let wl = weight(len) as int;
                assert(old_value * base >= old_value) by (nonlinear_arith)
                    requires
                        base >= 1,
                        old_value >= 0,
                ;
                if carry.0 != 0 {
                    assert(carry.0 * wl >= wl) by (nonlinear_arith)
                        requires
                            carry.0 >= 1,
                            wl >= 0,
                    ;
                } else {
                    assert(carry.0 * wl == 0) by (nonlinear_arith)
                        requires
                            carry.0 == 0,
                    ;
                }
            }
            if carry.0 != 0 {
                data.push(carry);
            }
            pos += power;
        }
        proof {
            assert(v@.take(n as int) =~= v@);
            let value = limbs_value(data@);
            let len = data@.len();
            lemma_radix_value_bound(v@, rv);
            lemma_radix_pow_bits(rv, n as nat);
            lemma_limbs_bound(data@);
            if len > 1 {
                if 6 * n <= 64 * (len - 1) {
                    if 6 * n < 64 * (len - 1) {
                        lemma_pow2_strictly_increases((6 * n) as nat, (64 * (len - 1)) as nat);
                    }
                    assert(false);
                }
            }
            lemma_min_digits(value, len);
        }
        ApInt::from_digit_vec(data)
    }
}

/// The error that a parse of the text `chars`, whose bytes are `bytes`,
/// ends in for radix `r`, and `None` where the text is made of digits of
/// the radix and separators between them.
pub open spec fn parse_error(chars: Seq<char>, bytes: Seq<u8>, r: nat) -> Option<ErrorView> {
    let kind = ErrorKindView::InvalidStringRepr { input: chars, radix: r };
    if bytes.len() == 0 {
        Some(ErrorView::noted(kind, note_empty()))
    } else if bytes[0] == SEPARATOR {
        Some(ErrorView::noted(kind, note_leading()))
    } else if bytes.last() == SEPARATOR {
        Some(ErrorView::noted(kind, note_trailing()))
    } else if all_valid(bytes, r) {
        None
    } else {
        let p = choose|p: int| first_invalid(bytes, r, p);
        Some(
            ErrorView::plain(
                ErrorKindView::InvalidCharInStringRepr {
                    input: chars,
                    radix: r,
                    position: p as nat,
                    character: bytes[p] as char,
                },
            ),
        )
    }
}

/// The width that a parse without a target width gives to a number of
/// `count` digits and value `value` in radix `r`: for a radix that is a
/// power of two, the bits of all the digits, rounded up to whole 64-bit
/// digits; for any other radix, the least number of whole digits that hold
/// the value.
pub open spec fn parsed_width(count: nat, value: nat, r: nat) -> nat {
    if is_pow2_radix(r) {
        64 * ((count * log2_radix(r) + 63) / 64)
    } else {
        64 * min_digits(value)
    }
}

/// The digits of `v` in the opposite order.
pub fn reversed(v: &[u8]) -> (r: Vec<u8>)
    ensures
        r@ == v@.reverse(),
{
    let n = v.len();
    let mut r: Vec<u8> = Vec::with_capacity(n);
    let mut i: usize = 0;
    while i < n
        invariant
            i <= n,
            n == v@.len(),
            r@.len() == i,
            forall|k: int| 0 <= k < i ==> r@[k] == v@[n - 1 - k],
        decreases n - i,
    {
        r.push(v[n - 1 - i]);
        i += 1;
    }
    assert(r@ =~= v@.reverse());
    r
}

/// The digit values of the characters of `input`, the separators left out;
/// or the error that says why `input` cannot be parsed.
pub fn normalize_digits(radix: Radix, input: &str) -> (r: Result<Vec<u8>, Error>)
    requires
        radix.wf(),
    ensures
        match parse_error(input@, input.spec_bytes(), radix.value()) {
            Some(e) => r is Err && r->Err_0@ == e,
            None => r is Ok && r->Ok_0@ == digits_of(input.spec_bytes()) && r->Ok_0@.len() >= 1
                && digits_below(r->Ok_0@, radix.value()),
        },
{
    let bytes = input.as_bytes();
    let n = bytes.len();
    let ghost rv = radix.value();
    if n == 0 {
        return Err(
            Error::invalid_string_repr(input, radix).with_annotation(
                "Cannot parse an empty string into an ApInt.",
            ),
        );
    }
    if bytes[0] == SEPARATOR {
        return Err(
            Error::invalid_string_repr(input, radix).with_annotation(
                "The input string starts with an underscore ('_') instead of a number. The use of underscores is explicitely for separation of digits.",
            ),
        );
    }
    if bytes[n - 1] == SEPARATOR {
        return Err(
            Error::invalid_string_repr(input, radix).with_annotation(
                "The input string ends with an underscore ('_') instead of a number. The use of underscores is explicitely for separation of digits.",
            ),
        );
    }
    let mut v: Vec<u8> = Vec::with_capacity(n);
    let mut i: usize = 0;
    proof {
        assert(bytes@.take(0) =~= Seq::<u8>::empty());
    }
    while i < n
        invariant
            i <= n,
            n == bytes@.len(),
            n >= 1,
            bytes@ == input.spec_bytes(),
            bytes@[0] != SEPARATOR,
            bytes@[n - 1] != SEPARATOR,
            rv == radix.value(),
            radix.wf(),
            v@ == digits_of(bytes@.take(i as int)),
            i >= 1 ==> v@.len() >= 1,
            forall|k: int| 0 <= k < i ==> valid_byte(#[trigger] bytes@[k], rv),
        decreases n - i,
    {
        let b = bytes[i];
        proof {
            lemma_digits_of_step(bytes@, i as int);
        }
        if b != SEPARATOR {
            let d = digit_of_byte(b);
            if !radix.is_valid_byte(d) {
                proof {
                    assert(first_invalid(bytes@, rv, i as int));
                    assert(!valid_byte(bytes@[i as int], rv));
                    assert(!all_valid(bytes@, rv));
                    let p = choose|p: int| first_invalid(bytes@, rv, p);
                    assert(first_invalid(bytes@, rv, p));
                    if p < i {
                        assert(valid_byte(bytes@[p], rv));
                    }
                    if p > i {
                        assert(valid_byte(bytes@[i as int], rv));
                    }
                    assert(p == i);
                }
                return Err(Error::invalid_char_in_string_repr(input, radix, i, b as char));
            }
            v.push(d);
        }
        i += 1;
    }
    proof {
        assert(bytes@.take(n as int) =~= bytes@);
        assert(all_valid(bytes@, rv));
        lemma_digits_of_below(bytes@, rv);
    }
    Ok(v)
}

impl ApInt {
    /// Parses `input` as a number in the given radix. The characters are
    /// the numerals and the letters of either case, as far as the radix
    /// goes, with `'_'` allowed between them. The width of the value is
    /// chosen to fit: see [`parsed_width`].
    pub fn from_str_radix(radix: Radix, input: &str) -> (r: Result<ApInt, Error>)
        requires
            radix.wf(),
            6 * input.spec_bytes().len() + 64 <= usize::MAX,
        ensures
            match parse_error(input@, input.spec_bytes(), radix.value()) {
                Some(e) => r is Err && r->Err_0@ == e,
                None => {
                    let digits = digits_of(input.spec_bytes());
                    let value = radix_value(digits, radix.value());
                    &&& r is Ok
                    &&& r->Ok_0.wf()
                    &&& r->Ok_0@.value == value
                    &&& r->Ok_0@.width == parsed_width(digits.len(), value, radix.value())
                },
            },
    {
        let v = match normalize_digits(radix, input) {
            Ok(v) => v,
            Err(e) => {
                return Err(e);
            },
        };
        proof {
            lemma_digits_of_below(input.spec_bytes(), radix.value());
        }
        let result = match radix.exact_bits_per_digit() {
            Some(bits) => {
                let rev = reversed(v.as_slice());
                proof {
                    vstd::arithmetic::power2::lemma2_to64();
                    assert(pow2(bits as nat) == radix.value());
                    lemma_bits_value_reverse(v@, bits as nat);
                    assert forall|i: int| 0 <= i < rev@.len() implies (#[trigger] rev@[i]) < pow2(
                        bits as nat,
                    ) by {
                        assert(rev@[i] == v@[v@.len() - 1 - i]);
                    }
                    assert(rev@.len() * bits <= 5 * rev@.len()) by (nonlinear_arith)
                        requires
                            bits <= 5,
                            rev@.len() >= 0,
                    ;
                }
                if 64 % bits == 0 {
                    ApInt::from_bitwise_digits(rev.as_slice(), bits)
                } else {
                    ApInt::from_inexact_bitwise_digits(rev.as_slice(), bits)
                }
            },
            None => ApInt::from_radix_digits(v.as_slice(), radix),
        };
        Ok(result)
    }

    /// Parses `input` as a number in the given radix, as
    /// [`ApInt::from_str_radix`] does, into a value of the width
    /// `target_width`. A number that does not fit that width is rejected
    /// with `ValueExceedsBitWidth`, which names the number of bits that the
    /// number has.
    pub fn from_str_radix_with_width(radix: Radix, input: &str, target_width: BitWidth) -> (r:
        Result<ApInt, Error>)
        requires
            radix.wf(),
            target_width.wf(),
            6 * input.spec_bytes().len() + 64 <= usize::MAX,
        ensures
            match parse_error(input@, input.spec_bytes(), radix.value()) {
                Some(e) => r is Err && r->Err_0@ == e,
                None => {
                    let value = radix_value(digits_of(input.spec_bytes()), radix.value());
                    &&& value < pow2(target_width.bits()) ==> r is Ok && r->Ok_0.wf()
                        && r->Ok_0@.value == value && r->Ok_0.spec_width() == target_width
                    &&& value >= pow2(target_width.bits()) ==> r is Err && r->Err_0@
                        == ErrorView::plain(
                        ErrorKindView::ValueExceedsBitWidth {
                            parsed_bits: bit_length(value),
                            target_width: target_width.bits(),
                        },
                    )
                },
            },
    {
        let parsed = match ApInt::from_str_radix(radix, input) {
            Ok(parsed) => parsed,
            Err(e) => {
                return Err(e);
            },
        };
        let bits = parsed.required_bits();
        let target = target_width.to_usize();
        proof {
            let value = parsed@.value;
            if bits > 0 {
                lemma_bit_length_bounds(value);
            }
            lemma_bit_length_bounds(value);
            if bits <= target {
                if bits < target {
                    lemma_pow2_strictly_increases(bits as nat, target as nat);
                }
            } else {
                if target < bits - 1 {
                    lemma_pow2_strictly_increases(target as nat, (bits - 1) as nat);
                }
            }
        }
        if bits > target {
            return Err(Error::value_exceeds_bitwidth(bits, target));
        }
        proof {
            vstd::arithmetic::div_mod::lemma_small_mod(parsed@.value, pow2(target as nat));
        }
        Ok(parsed.with_width(target_width))
    }
}

} // verus!
