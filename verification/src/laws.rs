//! Laws that relate the operations to one another. Each is stated over the
//! functions that the contracts of the operations are written in, so that
//! it holds of whatever those operations return.

use crate::apint::ApInt;
use crate::apint::serialization::parse_error;
use crate::apint::shift::lemma_shl_then_lshr;
use crate::bitwidth::excess_bits;
use crate::digit::nat_bit;
use crate::limbs::lemma_limbs_injective;
use crate::limbs::limbs_value;
use crate::model::add_value;
use crate::model::lemma_pow2_half;
use crate::model::lemma_wrap_bound;
use crate::model::lemma_wrap_congruent;
use crate::model::lshr_value;
use crate::model::mul_value;
use crate::model::neg_value;
use crate::model::not_value;
use crate::model::shl_value;
use crate::model::sub_value;
use crate::model::wrap;
use crate::text::SEPARATOR;
use crate::text::be_digits;
use crate::text::byte_digit;
use crate::text::digit_byte;
use crate::text::digits_bytes;
use crate::text::digits_of;
use crate::text::lemma_be_digits;
use crate::text::lemma_digits_of_text;
use crate::text::number_text;
use crate::text::radix_value;
use crate::text::valid_byte;
use vstd::arithmetic::div_mod::lemma_add_mod_noop_right;
use vstd::arithmetic::div_mod::lemma_mod_bound;
use vstd::arithmetic::power2::lemma_pow2_pos;
use vstd::arithmetic::power2::lemma_pow2_strictly_increases;
use vstd::arithmetic::power2::pow2;
use vstd::prelude::*;
use vstd::string::StringSliceAdditionalSpecFns;

verus! {

/// Two valid values are equal in width and number exactly where they are
/// equal in width and digits: equality is structural.
pub proof fn law_equality_is_structural(a: ApInt, b: ApInt)
    requires
        a.wf(),
        b.wf(),
    ensures
        (a@ == b@) == (a.spec_width() == b.spec_width() && a.digits() == b.digits()),
{
    if a@ == b@ {
        crate::bitwidth::BitWidth::lemma_bits_injective(a.spec_width(), b.spec_width());
        lemma_limbs_injective(a.digits(), b.digits());
    }
}

/// Clearing the unused bits a second time changes nothing: a number that
/// was reduced to a width is its own reduction.
pub proof fn law_clear_unused_bits_idempotent(v: nat, w: nat)
    ensures
        wrap(wrap(v as int, w) as int, w) == wrap(v as int, w),
{
    lemma_wrap_bound(v as int, w);
    lemma_wrap_bound(wrap(v as int, w) as int, w);
}

/// No bit at or above the width of a valid value is set.
pub proof fn law_unused_bits_are_zero(a: ApInt, pos: nat)
    requires
        a.wf(),
        pos >= a@.width,
    ensures
        !nat_bit(a@.value, pos),
{
    let w = a@.width;
    lemma_pow2_pos(pos);
    if w < pos {
        lemma_pow2_strictly_increases(w, pos);
    }
    vstd::arithmetic::div_mod::lemma_basic_div(a@.value as int, pow2(pos) as int);
}

/// Where the width is no multiple of 64, the top digit of a valid value
/// holds nothing above the bits that the width leaves to it.
pub proof fn law_top_digit_is_masked(a: ApInt)
    requires
        a.wf(),
        excess_bits(a@.width) != 0,
    ensures
        a.digits().last().0 < pow2(excess_bits(a@.width)),
{
    let digits = a.digits();
    let w = a@.width;
    let k = excess_bits(w);
    let top = digits.last();
    lemma_pow2_pos(k);
    lemma_mod_bound(top.0 as int, pow2(k) as int);
    vstd::arithmetic::div_mod::lemma_mod_decreases(top.0 as nat, pow2(k));
    let masked = crate::digit::Digit((top.0 as nat % pow2(k)) as u64);
    crate::limbs::lemma_limbs_mask_top(digits, k, masked);
    assert(64 * (digits.len() - 1) + k == w);
    vstd::arithmetic::div_mod::lemma_small_mod(limbs_value(digits), pow2(w));
    let after = digits.update(digits.len() - 1, masked);
    lemma_limbs_injective(digits, after);
    assert(after[digits.len() - 1] == masked);
}

/// Inverting every bit twice gives the value back.
pub proof fn law_bitnot_involution(a: ApInt)
    requires
        a.wf(),
    ensures
        not_value(not_value(a@.value, a@.width) as nat, a@.width) == a@.value,
        0 <= not_value(a@.value, a@.width) < pow2(a@.width),
{
}

/// Negating twice gives the value back, and the lowest signed value is its
/// own negation.
pub proof fn law_negate_involution(a: ApInt)
    requires
        a.wf(),
    ensures
        neg_value(neg_value(a@.value, a@.width), a@.width) == a@.value,
        a@.value == pow2((a@.width - 1) as nat) ==> neg_value(a@.value, a@.width) == a@.value,
{
    let w = a@.width;
    let v = a@.value as int;
    let m = pow2(w) as int;
    lemma_pow2_pos(w);
    lemma_pow2_half(w);
    lemma_wrap_bound(v, w);
    if v == 0 {
        lemma_wrap_bound(0, w);
    } else {
        lemma_wrap_congruent(-v, m - v, -1, w);
        lemma_wrap_bound(m - v, w);
        lemma_wrap_congruent(-(m - v), v, -1, w);
    }
}

/// Zero is neutral for addition, and one for multiplication and for
/// unsigned division.
pub proof fn law_neutral_elements(a: ApInt, zero: ApInt, one: ApInt)
    requires
        a.wf(),
        zero@.value == 0,
        one@.value == 1,
    ensures
        add_value(a@.value, zero@.value, a@.width) == a@.value,
        mul_value(a@.value, one@.value, a@.width) == a@.value,
        a@.value / one@.value == a@.value,
{
    lemma_wrap_bound(a@.value as int, a@.width);
}

/// Subtracting is adding the negation.
pub proof fn law_sub_is_add_negate(a: ApInt, b: ApInt)
    requires
        a.wf(),
        b.wf(),
        a@.width == b@.width,
    ensures
        sub_value(a@.value, b@.value, a@.width) == add_value(
            a@.value,
            neg_value(b@.value, a@.width),
            a@.width,
        ),
{
    let m = pow2(a@.width) as int;
    lemma_pow2_pos(a@.width);
    lemma_add_mod_noop_right(a@.value as int, -(b@.value as int), m);
}

/// A left shift by no bits changes nothing.
pub proof fn law_shl_by_zero(a: ApInt)
    requires
        a.wf(),
    ensures
        shl_value(a@.value, 0, a@.width) == a@.value,
{
    vstd::arithmetic::power2::lemma2_to64();
    lemma_wrap_bound(a@.value as int, a@.width);
}

/// A logical right shift undoes a left shift by the same amount, but for
/// the top bits that the left shift dropped: what is left is the value
/// with its top `s` bits cleared.
pub proof fn law_shl_then_lshr(a: ApInt, s: nat)
    requires
        a.wf(),
        s < a@.width,
    ensures
        lshr_value(shl_value(a@.value, s, a@.width), s) == a@.value % pow2(
            (a@.width - s) as nat,
        ),
{
    lemma_shl_then_lshr(a@.value, a@.width, s);
}

/// Parsing undoes formatting, in every radix and in either case of the
/// letters: the text of a number has no error, and its digits spell the
/// number.
pub proof fn law_parse_inverts_format(v: nat, r: nat, upper: bool, chars: Seq<char>)
    requires
        2 <= r <= 36,
    ensures
        ({
            let bytes = digits_bytes(be_digits(v, r), upper);
            &&& parse_error(chars, bytes, r) is None
            &&& radix_value(digits_of(bytes), r) == v
        }),
{
    let ds = be_digits(v, r);
    let bytes = digits_bytes(ds, upper);
    lemma_be_digits(v, r);
    assert forall|i: int| 0 <= i < ds.len() implies (#[trigger] ds[i]) < 36 by {}
    lemma_digits_of_text(ds, upper);
    assert forall|i: int| 0 <= i < bytes.len() implies valid_byte(#[trigger] bytes[i], r) by {
        assert(ds[i] < r);
        assert(byte_digit(digit_byte(ds[i], upper)) == ds[i]);
    }
    assert(ds[0] < 36);
    assert(ds[ds.len() - 1] < 36);
    assert(bytes[0] != SEPARATOR);
    assert(bytes.last() != SEPARATOR);
}

/// Parsing undoes formatting for a string as well: a string that holds
/// the text of a number parses without error, and to that number.
pub proof fn law_parse_inverts_format_of_str(s: &str, v: nat, r: nat, upper: bool)
    requires
        2 <= r <= 36,
        s@ == number_text(v, r, upper),
    ensures
        parse_error(s@, s.spec_bytes(), r) is None,
        radix_value(digits_of(s.spec_bytes()), r) == v,
{
    let ds = be_digits(v, r);
    lemma_be_digits(v, r);
    assert forall|i: int| 0 <= i < s@.len() implies '\0' <= #[trigger] s@[i] <= '\u{7f}' by {
        assert(ds[i] < 36);
        assert(s@[i] == digit_byte(ds[i], upper) as char);
    }
    vstd::string::is_ascii_spec_bytes(s);
    assert(s.spec_bytes() =~= digits_bytes(ds, upper)) by {
        assert forall|i: int| 0 <= i < ds.len() implies s.spec_bytes()[i] == digit_byte(
            ds[i],
            upper,
        ) by {
            assert(ds[i] < 36);
            assert(s@[i] == digit_byte(ds[i], upper) as char);
        }
    }
    law_parse_inverts_format(v, r, upper, s@);
}

} // verus!
