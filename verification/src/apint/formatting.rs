use crate::apint::ApInt;
use crate::digit::Digit;
use crate::digit::lemma_pow2_64;
use crate::limbs::lemma_limbs_front;
use crate::limbs::lemma_limbs_zero;
use crate::limbs::lemma_limbs_zero_converse;
use crate::limbs::limbs_value;
use crate::ll;
use crate::radix::Radix;
use crate::radix::is_pow2_radix;
use crate::radix::log2_radix;
use crate::text::digit_byte;
use crate::text::digits_text;
use crate::text::le_digits;
use crate::text::le_padded;
use crate::text::lemma_le_digits_chunk;
use crate::text::lemma_le_digits_reverse;
use crate::text::lemma_radix_pow_pow2;
use crate::text::number_text;
use crate::text::radix_pow;
use vstd::arithmetic::power2::pow2;
use vstd::prelude::*;

verus! {

/// The character code that stands for the digit value `d`.
pub fn byte_of_digit(d: u8, upper: bool) -> (b: u8)
    requires
        d < 36,
    ensures
        b == digit_byte(d, upper),
{
    if d < 10 {
        48 + d
    } else if upper {
        55 + d
    } else {
        87 + d
    }
}

/// Appends the lowest `count` digits of `c` in radix `r` to `out`, the
/// least significant first, with zeros where `c` has fewer digits.
fn emit_padded(out: &mut Vec<u8>, c: u64, r: u64, count: usize)
    requires
        2 <= r <= 36,
    ensures
        final(out)@ == old(out)@ + le_padded(c as nat, r as nat, count as nat),
{
    let ghost target = out@ + le_padded(c as nat, r as nat, count as nat);
    let mut cur = c;
    let mut j: usize = 0;
    while j < count
        invariant
            j <= count,
            2 <= r <= 36,
            target == out@ + le_padded(cur as nat, r as nat, (count - j) as nat),
        decreases count - j,
    {
        let ghost prev = out@;
        let d = (cur % r) as u8;
        out.push(d);
        proof {
            let rest = le_padded((cur / r) as nat, r as nat, (count - j - 1) as nat);
            assert(prev + (seq![d] + rest) =~= prev.push(d) + rest);
        }
        cur = cur / r;
        j += 1;
    }
    proof {
        assert(out@ + Seq::<u8>::empty() =~= out@);
    }
}

/// Appends the digits of `c` in radix `r` to `out`, the least significant
/// first, without zeros above the top digit.
fn emit_unpadded(out: &mut Vec<u8>, c: u64, r: u64)
    requires
        2 <= r <= 36,
    ensures
        final(out)@ == old(out)@ + le_digits(c as nat, r as nat),
{
    let ghost target = out@ + le_digits(c as nat, r as nat);
    let mut cur = c;
    while cur >= r
        invariant
            2 <= r <= 36,
            target == out@ + le_digits(cur as nat, r as nat),
        decreases cur,
    {
        let ghost prev = out@;
        let d = (cur % r) as u8;
        out.push(d);
        proof {
            let rest = le_digits((cur / r) as nat, r as nat);
            assert(prev + (seq![d] + rest) =~= prev.push(d) + rest);
        }
        cur = cur / r;
    }
    let ghost prev = out@;
    out.push(cur as u8);
    proof {
        assert(prev + seq![cur as u8] =~= prev.push(cur as u8));
    }
}

/// The text of the digits `out`, which stand least significant first: one
/// character for each, the most significant first.
fn text_of_digits(out: &Vec<u8>, r: u64, upper: bool) -> (s: String)
    requires
        2 <= r <= 36,
        forall|i: int| 0 <= i < out@.len() ==> (#[trigger] out@[i]) < r,
    ensures
        s@ == digits_text(out@.reverse(), upper),
{
    let n = out.len();
    let mut s = String::new();
    let mut j: usize = 0;
    while j < n
        invariant
            j <= n,
            n == out@.len(),
            2 <= r <= 36,
            forall|i: int| 0 <= i < out@.len() ==> (#[trigger] out@[i]) < r,
            s@.len() == j,
            forall|i: int| 0 <= i < j ==> s@[i] == digit_byte(out@[n - 1 - i], upper) as char,
        decreases n - j,
    {
        let b = byte_of_digit(out[n - 1 - j], upper);
        s.push(b as char);
        j += 1;
    }
    proof {
        assert(s@ =~= digits_text(out@.reverse(), upper));
    }
    s
}

/// The digits of a number are digits of the radix.
pub proof fn lemma_le_digits_below(v: nat, r: nat)
    requires
        2 <= r <= 36,
    ensures
        forall|i: int| 0 <= i < le_digits(v, r).len() ==> (#[trigger] le_digits(v, r)[i]) < r,
    decreases v,
{
    if v >= r {
        vstd::arithmetic::div_mod::lemma_div_decreases(v as int, r as int);
        vstd::arithmetic::div_mod::lemma_div_pos_is_pos(v as int, r as int);
        vstd::arithmetic::div_mod::lemma_mod_bound(v as int, r as int);
        lemma_le_digits_below(v / r, r);
        let tail = le_digits(v / r, r);
        let all = le_digits(v, r);
        assert forall|i: int| 0 <= i < all.len() implies (#[trigger] all[i]) < r by {
            if i > 0 {
                assert(all[i] == tail[i - 1]);
            }
        }
    }
}

impl ApInt {
    /// The digits of this value in a radix whose digits stand for a number
    /// of bits that divides 64, the least significant first: the digits
    /// above the top digit that is not zero are passed over, that digit is
    /// put out without leading zeros, and every digit below it in full.
    fn le_digits_by_bits(&self, radix: Radix, bits: usize) -> (out: Vec<u8>)
        requires
            self.wf(),
            radix.wf(),
            is_pow2_radix(radix.value()),
            bits == log2_radix(radix.value()),
            64usize % bits == 0,
        ensures
            out@ == le_digits(self@.value, radix.value()),
    {
        let digits = self.as_digit_slice();
        let n = digits.len();
        let r = radix.to_u8() as u64;
        let count = 64 / bits;
        let ghost rv = radix.value();
        // the top digit that is not zero
        let mut top: usize = n - 1;
        while top > 0 && digits[top].is_zero()
            invariant
                top < n,
                n == digits@.len(),
                forall|k: int| top < k < n ==> (#[trigger] digits@[k]).0 == 0,
            decreases top,
        {
            top -= 1;
        }
        let mut out: Vec<u8> = Vec::new();
        let mut i: usize = 0;
        proof {
            vstd::arithmetic::power2::lemma2_to64();
            lemma_pow2_64();
            assert(bits == 1 || bits == 2 || bits == 4);
            assert(count * bits == 64);
            assert(pow2(bits as nat) == rv);
            lemma_radix_pow_pow2(bits as nat, count as nat);
            assert(bits * count == 64) by (nonlinear_arith)
                requires
                    count * bits == 64,
            ;
            assert(digits@.skip(0) =~= digits@);
            assert(Seq::<u8>::empty() + le_digits(self@.value, rv) =~= le_digits(self@.value, rv));
        }
        while i < top
            invariant
                i <= top,
                top < n,
                n == digits@.len(),
                digits@ == self.digits(),
                2 <= r <= 36,
                r == rv,
                radix_pow(rv, count as nat) == 0x1_0000_0000_0000_0000,
                forall|k: int| top < k < n ==> (#[trigger] digits@[k]).0 == 0,
                top > 0 ==> digits@[top as int].0 != 0,
                le_digits(self@.value, rv) == out@ + le_digits(
                    limbs_value(digits@.skip(i as int)),
                    rv,
                ),
            decreases top - i,
        {
            let c = digits[i].0;
            let ghost prev = out@;
            proof {
                let rest = digits@.skip(i as int + 1);
                lemma_limbs_front(digits@.skip(i as int));
                assert(digits@.skip(i as int).skip(1) =~= rest);
                assert(digits@.skip(i as int)[0] == digits@[i as int]);
                let q = limbs_value(rest);
                if q == 0 {
                    lemma_limbs_zero_converse(rest);
                    assert(rest[top - i - 1] == digits@[top as int]);
                    assert(false);
                }
                lemma_le_digits_chunk(q, c as nat, rv, count as nat);
                assert(q * 0x1_0000_0000_0000_0000 + c == c + 0x1_0000_0000_0000_0000 * q);
                assert(prev + (le_padded(c as nat, rv, count as nat) + le_digits(q, rv)) =~= (prev
                    + le_padded(c as nat, rv, count as nat)) + le_digits(q, rv));
            }
            emit_padded(&mut out, c, r, count);
            i += 1;
        }
        let ghost prev = out@;
        proof {
            let rest = digits@.skip(top as int + 1);
            lemma_limbs_front(digits@.skip(top as int));
            assert(digits@.skip(top as int).skip(1) =~= rest);
            assert(digits@.skip(top as int)[0] == digits@[top as int]);
            lemma_limbs_zero(rest);
        }
        emit_unpadded(&mut out, digits[top].0, r);
        out
    }

    /// The digits of this value in any radix, the least significant first:
    /// the value is divided by the radix base again and again, and each
    /// remainder gives one run of digits.
    fn le_digits_by_division(&self, radix: Radix) -> (out: Vec<u8>)
        requires
            self.wf(),
            radix.wf(),
        ensures
            out@ == le_digits(self@.value, radix.value()),
    {
        let mut work = self.clone();
        let (base, power) = radix.get_radix_base();
        let r = radix.to_u8() as u64;
        let ghost rv = radix.value();
        let ghost target = le_digits(self@.value, rv);
        let mut out: Vec<u8> = Vec::new();
        proof {
            assert(Seq::<u8>::empty() + target =~= target);
            crate::text::lemma_radix_pow_monotonic(rv, 1, power as nat);
            crate::text::lemma_radix_pow_one(rv);
        }
        loop
            invariant_except_break
                target == out@ + le_digits(work@.value, rv),
            invariant
                work.wf_shape(),
                radix.wf(),
                rv == radix.value(),
                r == rv,
                base == radix_pow(rv, power as nat),
                base >= 2,
            ensures
                out@ == target,
            decreases work@.value,
        {
            let ghost before = work@.value;
            let ghost prev = out@;
            let rem = work.div_rem_digit(Digit(base));
            proof {
                vstd::arithmetic::div_mod::lemma_fundamental_div_mod(before as int, base as int);
                vstd::arithmetic::div_mod::lemma_mod_bound(before as int, base as int);
                vstd::arithmetic::div_mod::lemma_div_pos_is_pos(before as int, base as int);
            }
            if work.is_zero() {
                proof {
                    assert(base * 0 == 0);
                    assert(before == rem.0);
                }
                emit_unpadded(&mut out, rem.0, r);
                break ;
            }
            proof {
                let q = work@.value;
                lemma_le_digits_chunk(q, rem.0 as nat, rv, power as nat);
                assert(before == q * base + rem.0) by (nonlinear_arith)
                    requires
                        before == base * q + rem.0,
                ;
                assert(prev + (le_padded(rem.0 as nat, rv, power as nat) + le_digits(q, rv)) =~= (
                prev + le_padded(rem.0 as nat, rv, power as nat)) + le_digits(q, rv));
                assert(q < before) by (nonlinear_arith)
                    requires
                        before == base * q + rem.0,
                        q >= 1,
                        base >= 2,
                        rem.0 >= 0,
                ;
            }
            emit_padded(&mut out, rem.0, r, power);
        }
        out
    }

    /// Divides the digits of this value by the digit `d`, which is not
    /// zero, and returns the remainder.
    fn div_rem_digit(&mut self, d: Digit) -> (rem: Digit)
        requires
            old(self).wf_shape(),
            d.0 != 0,
        ensures
            final(self).wf_shape(),
            final(self).spec_width() == old(self).spec_width(),
            final(self)@.value == old(self)@.value / (d.0 as nat),
            rem.0 == old(self)@.value % (d.0 as nat),
    {
        match self.access_data_mut() {
            crate::apint::utils::DataAccessMut::Inl(digit) => {
                let x = digit.0;
                proof {
                    crate::limbs::lemma_limbs_single(*digit);
                    crate::limbs::lemma_limbs_single(Digit(x / d.0));
                }
                *digit = Digit(x / d.0);
                Digit(x % d.0)
            },
            crate::apint::utils::DataAccessMut::Ext(digits) => ll::div_rem_scalar(digits, d),
        }
    }

    /// The text of this value in the given radix, with the letters in the
    /// asked case.
    pub fn format_radix(&self, radix: Radix, upper: bool) -> (s: String)
        requires
            self.wf(),
            radix.wf(),
        ensures
            s@ == number_text(self@.value, radix.value(), upper),
    {
        let out = match radix.exact_bits_per_digit() {
            Some(bits) => {
                if 64 % bits == 0 {
                    self.le_digits_by_bits(radix, bits)
                } else {
                    self.le_digits_by_division(radix)
                }
            },
            None => self.le_digits_by_division(radix),
        };
        proof {
            lemma_le_digits_reverse(self@.value, radix.value());
            lemma_le_digits_below(self@.value, radix.value());
        }
        text_of_digits(&out, radix.to_u8() as u64, upper)
    }

    /// The text of this value in the given radix: its digits without
    /// leading zeros, the letters in upper case. Zero is `"0"`.
    pub fn to_string_radix(&self, radix: Radix) -> (s: String)
        requires
            self.wf(),
            radix.wf(),
        ensures
            s@ == number_text(self@.value, radix.value(), true),
    {
        self.format_radix(radix, true)
    }
}

impl ApInt {
    /// The text of this value in binary.
    pub fn to_binary_string(&self) -> (s: String)
        requires
            self.wf(),
        ensures
            s@ == number_text(self@.value, 2, false),
    {
        self.format_radix(Radix::binary(), false)
    }

    /// The text of this value in octal.
    pub fn to_octal_string(&self) -> (s: String)
        requires
            self.wf(),
        ensures
            s@ == number_text(self@.value, 8, false),
    {
        self.format_radix(Radix::octal(), false)
    }

    /// The text of this value in decimal, read as unsigned.
    pub fn to_decimal_string(&self) -> (s: String)
        requires
            self.wf(),
        ensures
            s@ == number_text(self@.value, 10, false),
    {
        self.format_radix(Radix::decimal(), false)
    }

    /// The text of this value in hexadecimal with the letters `a` to `f`.
    pub fn to_lower_hex_string(&self) -> (s: String)
        requires
            self.wf(),
        ensures
            s@ == number_text(self@.value, 16, false),
    {
        self.format_radix(Radix::hexadecimal(), false)
    }

    /// The text of this value in hexadecimal with the letters `A` to `F`.
    pub fn to_upper_hex_string(&self) -> (s: String)
        requires
            self.wf(),
        ensures
            s@ == number_text(self@.value, 16, true),
    {
        self.format_radix(Radix::hexadecimal(), true)
    }
}

} // verus!
