use crate::apint::ApInt;
use crate::apint::utils::DataAccessMut;
use crate::checks::verify_shift_amount;
use crate::digit::BITS;
use crate::digit::Digit;
use crate::digit::lemma_pow2_64;
use crate::errors::Error;
use crate::errors::ErrorKindView;
use crate::errors::ErrorView;
use crate::limbs::lemma_limbs_single;
use crate::limbs::lemma_weight;
use crate::limbs::limbs_value;
use crate::limbs::weight;
use crate::ll;
use crate::model::ashr_value;
use crate::model::lemma_wrap_bound;
use crate::model::lemma_wrap_congruent;
use crate::model::lemma_wrap_wrap;
use crate::model::lshr_value;
use crate::model::not_value;
use crate::model::shl_value;
use crate::model::signed_value;
use crate::model::wrap;
use vstd::arithmetic::div_mod::lemma_fundamental_div_mod;
use vstd::arithmetic::div_mod::lemma_fundamental_div_mod_converse;
use vstd::arithmetic::div_mod::lemma_mod_bound;
use vstd::arithmetic::power2::lemma_pow2_adds;
use vstd::arithmetic::power2::lemma_pow2_pos;
use vstd::arithmetic::power2::pow2;
use vstd::prelude::*;
use vstd::std_specs::convert::FromSpecImpl;
use vstd::std_specs::convert::IntoSpec;

verus! {

/// A number of bits to shift a value by.
#[derive(Debug, Clone, Copy, PartialEq, Eq, Structural, PartialOrd, Ord, Hash)]
pub struct ShiftAmount(pub usize);

impl View for ShiftAmount {
    type V = nat;

    open spec fn view(&self) -> nat {
        self.0 as nat
    }
}

impl ShiftAmount {
    /// The number of bits to shift by.
    pub fn to_usize(self) -> (r: usize)
        ensures
            r == self@,
    {
        self.0
    }

    /// The number of whole digits that the shift leaps over.
    pub fn digit_steps(self) -> (r: usize)
        ensures
            r == self@ / 64,
    {
        self.0 / BITS
    }

    /// The number of bits that the shift moves within a digit.
    pub fn bit_steps(self) -> (r: usize)
        ensures
            r == self@ % 64,
            r < 64,
    {
        self.0 % BITS
    }
}

impl From<usize> for ShiftAmount {
    fn from(val: usize) -> (r: ShiftAmount) {
        ShiftAmount(val)
    }
}

impl FromSpecImpl<usize> for ShiftAmount {
    open spec fn obeys_from_spec() -> bool {
        true
    }

    open spec fn from_spec(val: usize) -> ShiftAmount {
        ShiftAmount(val)
    }
}

/// What a logical right shift by `s` leaves of a left shift by `s`: the
/// value with its top `s` bits cleared.
pub proof fn lemma_shl_then_lshr(a: nat, w: nat, s: nat)
    requires
        s < w,
        a < pow2(w),
    ensures
        lshr_value(shl_value(a, s, w), s) == a % pow2((w - s) as nat),
{
    let m = pow2(s) as int;
    let k = pow2((w - s) as nat) as int;
    lemma_pow2_pos(s);
    lemma_pow2_pos((w - s) as nat);
    lemma_pow2_adds((w - s) as nat, s);
    let q = a as int / k;
    let r = a as int % k;
    lemma_fundamental_div_mod(a as int, k);
    lemma_mod_bound(a as int, k);
    assert(a * m == q * (k * m) + r * m) by (nonlinear_arith)
        requires
            a == k * q + r,
    ;
    assert(0 <= r * m < k * m) by (nonlinear_arith)
        requires
            0 <= r < k,
            m > 0,
    ;
    lemma_fundamental_div_mod_converse(a * m, k * m, q, r * m);
    assert(r * m == r * m + 0);
    lemma_fundamental_div_mod_converse(r * m, m, r, 0);
}

/// An arithmetic right shift of a negative pattern is the complement of
/// the logical right shift of its complement.
pub proof fn lemma_ashr_negative(a: nat, w: nat, s: nat)
    requires
        s < w,
        a < pow2(w),
        signed_value(a, w) < 0,
    ensures
        not_value(lshr_value(not_value(a, w) as nat, s), w) == ashr_value(a, s, w),
        0 <= lshr_value(not_value(a, w) as nat, s) < pow2(w),
{
    let m = pow2(s) as int;
    let k = pow2((w - s) as nat) as int;
    let big = pow2(w) as int;
    lemma_pow2_pos(s);
    lemma_pow2_pos((w - s) as nat);
    lemma_pow2_adds((w - s) as nat, s);
    let q = a as int / m;
    let r = a as int % m;
    lemma_fundamental_div_mod(a as int, m);
    lemma_mod_bound(a as int, m);
    assert(q < k) by (nonlinear_arith)
        requires
            a == m * q + r,
            0 <= r,
            a < k * m,
            m > 0,
    ;
    assert(q >= 0) by (nonlinear_arith)
        requires
            a == m * q + r,
            r < m,
            a >= 0,
            m > 0,
    ;
    assert(big - 1 - a == (k - 1 - q) * m + (m - 1 - r)) by (nonlinear_arith)
        requires
            a == m * q + r,
            big == k * m,
    ;
    lemma_fundamental_div_mod_converse(big - 1 - a, m, k - 1 - q, m - 1 - r);
    assert(a - big == (q - k) * m + r) by (nonlinear_arith)
        requires
            a == m * q + r,
            big == k * m,
    ;
    lemma_fundamental_div_mod_converse(a - big, m, q - k, r);
    assert(k <= big) by (nonlinear_arith)
        requires
            big == k * m,
            m >= 1,
            k >= 0,
    ;
    lemma_wrap_congruent(q - k, q - k + big, -1, w);
    lemma_wrap_bound(q - k + big, w);
}

impl ApInt {
    /// What every shift says of an amount that is not below the width: the
    /// error names the amount and the width, and `self` is as it was.
    pub open spec fn shift_rejected(
        before: &ApInt,
        after: &ApInt,
        amount: nat,
        r: Result<(), Error>,
    ) -> bool {
        &&& r is Err
        &&& r->Err_0@ == ErrorView::plain(
            ErrorKindView::InvalidShiftAmount { amount, width: before@.width },
        )
        &&& after.digits() == before.digits()
        &&& after@ == before@
    }

    /// Shifts this value left by `amount` bits, which is below the width.
    pub(crate) fn shl_by(&mut self, amount: ShiftAmount)
        requires
            old(self).wf(),
            amount@ < old(self)@.width,
        ensures
            final(self).wf(),
            final(self).spec_width() == old(self).spec_width(),
            final(self)@.value == shl_value(old(self)@.value, amount@, old(self)@.width),
    {
        let ghost w = self@.width;
        let ghost a = self@.value as int;
        let ghost n = self.digits().len();
        let ghost s = amount@;
        let digit_steps = amount.digit_steps();
        let bit_steps = amount.bit_steps();
        proof {
            lemma_pow2_pos(s);
            lemma_pow2_64();
            lemma_weight(n);
        }
        match self.access_data_mut() {
            DataAccessMut::Inl(digit) => {
                let x = digit.repr();
                proof {
                    lemma_limbs_single(*digit);
                    lemma_limbs_single(Digit(x << amount.0));
                    lemma_weight(0);
                    if s == 0 {
                        assert(x << 0 == x) by (bit_vector);
                        assert(a * 1 == a);
                        lemma_wrap_bound(a, 64);
                    } else {
                        ll::lemma_u64_shl_split(x, s as u64);
                        ll::lemma_mod_unique(
                            (x << (s as u64)) as int,
                            x * pow2(s),
                            (x >> ((64 - s) as u64)) as int,
                            pow2(64) as int,
                        );
                    }
                }
                *digit = Digit(x << amount.0);
            },
            DataAccessMut::Ext(digits) => {
                let ghost v0 = limbs_value(digits@) as int;
                let ghost wn = weight(n) as int;
                let ghost wd = weight(digit_steps as nat) as int;
                let ghost pb = pow2(bit_steps as nat) as int;
                proof {
                    crate::limbs::lemma_limbs_bound(digits@);
                    lemma_weight(digit_steps as nat);
                    lemma_pow2_pos(bit_steps as nat);
                    lemma_pow2_adds(64 * (digit_steps as nat), bit_steps as nat);
                    assert(wd * pb == pow2(s));
                }
                if digit_steps != 0 {
                    ll::shl_digits_by_digits(digits, digit_steps);
                } else {
                    proof {
                        lemma_weight(0);
                        vstd::arithmetic::div_mod::lemma_small_mod(v0 as nat, wn as nat);
                        assert(wd == 1);
                        assert(v0 * wd == v0) by (nonlinear_arith)
                            requires
                                wd == 1,
                        ;
                    }
                }
                let ghost v1 = limbs_value(digits@) as int;
                assert(v1 == (v0 * wd) % wn);
                if bit_steps != 0 {
                    ll::shl_digits_by_bits(digits, bit_steps);
                } else {
                    proof {
                        crate::limbs::lemma_limbs_bound(digits@);
                        vstd::arithmetic::div_mod::lemma_small_mod(v1 as nat, wn as nat);
                        assert(pb == 1);
                        assert(v1 * pb == v1) by (nonlinear_arith)
                            requires
                                pb == 1,
                        ;
                    }
                }
                proof {
                    let v2 = limbs_value(digits@) as int;
                    assert(v2 == (v1 * pb) % wn);
                    vstd::arithmetic::div_mod::lemma_mul_mod_noop_left(v0 * wd, pb, wn);
                    assert((v0 * wd) * pb == v0 * (wd * pb)) by (nonlinear_arith);
                }
            },
        }
        proof {
            let e = (64 * n - w) as nat;
            assert(w + e == 64 * n);
            assert(self@.value == wrap(a * pow2(s), w + e));
            lemma_wrap_wrap(a * pow2(s), w, e);
        }
        self.clear_unused_bits();
    }

    /// Shifts this value right by `amount` bits, which is below the width;
    /// zeros come in at the top.
    pub(crate) fn lshr_by(&mut self, amount: ShiftAmount)
        requires
            old(self).wf(),
            amount@ < old(self)@.width,
        ensures
            final(self).wf(),
            final(self).spec_width() == old(self).spec_width(),
            final(self)@.value == lshr_value(old(self)@.value, amount@),
    {
        let ghost w = self@.width;
        let ghost a = self@.value as int;
        let ghost n = self.digits().len();
        let ghost s = amount@;
        let digit_steps = amount.digit_steps();
        let bit_steps = amount.bit_steps();
        proof {
            lemma_pow2_pos(s);
            lemma_pow2_64();
            vstd::arithmetic::div_mod::lemma_div_nonincreasing(a, pow2(s) as int);
            vstd::arithmetic::div_mod::lemma_div_pos_is_pos(a, pow2(s) as int);
        }
        match self.access_data_mut() {
            DataAccessMut::Inl(digit) => {
                let x = digit.repr();
                proof {
                    lemma_limbs_single(*digit);
                    lemma_limbs_single(Digit(x >> amount.0));
                    vstd::bits::lemma_u64_shr_is_div(x, s as u64);
                }
                *digit = Digit(x >> amount.0);
            },
            DataAccessMut::Ext(digits) => {
                let ghost v0 = limbs_value(digits@) as int;
                let ghost wd = weight(digit_steps as nat) as int;
                let ghost pb = pow2(bit_steps as nat) as int;
                proof {
                    lemma_weight(digit_steps as nat);
                    lemma_pow2_pos(bit_steps as nat);
                    lemma_pow2_adds(64 * (digit_steps as nat), bit_steps as nat);
                    assert(wd * pb == pow2(s));
                    vstd::arithmetic::div_mod::lemma_div_denominator(v0, wd, pb);
                }
                if digit_steps != 0 {
                    ll::shr_digits_by_digits(digits, digit_steps);
                } else {
                    proof {
                        lemma_weight(0);
                        assert(wd == 1);
                        assert(v0 / 1 == v0);
                    }
                }
                let ghost v1 = limbs_value(digits@) as int;
                assert(v1 == v0 / wd);
                if bit_steps != 0 {
                    ll::shr_digits_by_bits(digits, bit_steps);
                } else {
                    proof {
                        assert(pb == 1);
                        assert(v1 / 1 == v1);
                    }
                }
            },
        }
    }

    /// Shifts this value right by `amount` bits, which is below the width;
    /// copies of the sign bit come in at the top.
    pub(crate) fn ashr_by(&mut self, amount: ShiftAmount)
        requires
            old(self).wf(),
            amount@ < old(self)@.width,
        ensures
            final(self).wf(),
            final(self).spec_width() == old(self).spec_width(),
            final(self)@.value == ashr_value(old(self)@.value, amount@, old(self)@.width),
    {
        let ghost w = self@.width;
        let ghost a = self@.value;
        let ghost s = amount@;
        if self.most_significant_bit().to_bool() {
            proof {
                lemma_ashr_negative(a, w, s);
            }
            self.bitnot();
            self.lshr_by(amount);
            self.bitnot();
        } else {
            proof {
                lemma_pow2_pos(s);
                vstd::arithmetic::div_mod::lemma_div_nonincreasing(a as int, pow2(s) as int);
                vstd::arithmetic::div_mod::lemma_div_pos_is_pos(a as int, pow2(s) as int);
                lemma_wrap_bound(a as int / (pow2(s) as int), w);
            }
            self.lshr_by(amount);
        }
    }

    /// Shifts this value left by `shift_amount` bits; the bits that leave
    /// at the top are dropped. An amount that is not below the width is
    /// rejected with `InvalidShiftAmount`.
    pub fn checked_shl_assign<S: Into<ShiftAmount>>(&mut self, shift_amount: S) -> (r: Result<
        (),
        Error,
    >)
        requires
            old(self).wf(),
        ensures
            final(self).wf(),
            final(self).spec_width() == old(self).spec_width(),
            S::obeys_into_spec() ==> ({
                let s = shift_amount.into_spec()@;
                &&& s >= old(self)@.width ==> ApInt::shift_rejected(old(self), final(self), s, r)
                &&& s < old(self)@.width ==> r is Ok && final(self)@.value == shl_value(
                    old(self)@.value,
                    s,
                    old(self)@.width,
                )
            }),
    {
        let amount: ShiftAmount = shift_amount.into();
        match verify_shift_amount(self, amount) {
            Err(e) => {
                return Err(e);
            },
            Ok(()) => {},
        }
        self.shl_by(amount);
        Ok(())
    }

    /// This value shifted left by `shift_amount` bits. An amount that is
    /// not below the width is rejected with `InvalidShiftAmount`.
    pub fn into_checked_shl<S: Into<ShiftAmount>>(self, shift_amount: S) -> (r: Result<
        ApInt,
        Error,
    >)
        requires
            self.wf(),
        ensures
            S::obeys_into_spec() ==> ({
                let s = shift_amount.into_spec()@;
                &&& s >= self@.width ==> r is Err && r->Err_0@ == ErrorView::plain(
                    ErrorKindView::InvalidShiftAmount { amount: s, width: self@.width },
                )
                &&& s < self@.width ==> r is Ok && r->Ok_0.wf() && r->Ok_0.spec_width()
                    == self.spec_width() && r->Ok_0@.value == shl_value(self@.value, s, self@.width)
            }),
    {
        let mut this = self;
        match this.checked_shl_assign(shift_amount) {
            Ok(()) => Ok(this),
            Err(e) => Err(e),
        }
    }

    /// Shifts this value right by `shift_amount` bits; zeros come in at
    /// the top. An amount that is not below the width is rejected with
    /// `InvalidShiftAmount`.
    pub fn checked_lshr_assign<S: Into<ShiftAmount>>(&mut self, shift_amount: S) -> (r: Result<
        (),
        Error,
    >)
        requires
            old(self).wf(),
        ensures
            final(self).wf(),
            final(self).spec_width() == old(self).spec_width(),
            S::obeys_into_spec() ==> ({
                let s = shift_amount.into_spec()@;
                &&& s >= old(self)@.width ==> ApInt::shift_rejected(old(self), final(self), s, r)
                &&& s < old(self)@.width ==> r is Ok && final(self)@.value == lshr_value(
                    old(self)@.value,
                    s,
                )
            }),
    {
        let amount: ShiftAmount = shift_amount.into();
        match verify_shift_amount(self, amount) {
            Err(e) => {
                return Err(e);
            },
            Ok(()) => {},
        }
        self.lshr_by(amount);
        Ok(())
    }

    /// This value shifted right by `shift_amount` bits, with zeros coming
    /// in at the top. An amount that is not below the width is rejected
    /// with `InvalidShiftAmount`.
    pub fn into_checked_lshr<S: Into<ShiftAmount>>(self, shift_amount: S) -> (r: Result<
        ApInt,
        Error,
    >)
        requires
            self.wf(),
        ensures
            S::obeys_into_spec() ==> ({
                let s = shift_amount.into_spec()@;
                &&& s >= self@.width ==> r is Err && r->Err_0@ == ErrorView::plain(
                    ErrorKindView::InvalidShiftAmount { amount: s, width: self@.width },
                )
                &&& s < self@.width ==> r is Ok && r->Ok_0.wf() && r->Ok_0.spec_width()
                    == self.spec_width() && r->Ok_0@.value == lshr_value(self@.value, s)
            }),
    {
        let mut this = self;
        match this.checked_lshr_assign(shift_amount) {
            Ok(()) => Ok(this),
            Err(e) => Err(e),
        }
    }

    /// Shifts this value right by `shift_amount` bits; copies of the sign
    /// bit come in at the top, so that the signed reading is divided by
    /// `2^shift_amount` and rounded down. An amount that is not below the
    /// width is rejected with `InvalidShiftAmount`.
    pub fn checked_ashr_assign<S: Into<ShiftAmount>>(&mut self, shift_amount: S) -> (r: Result<
        (),
        Error,
    >)
        requires
            old(self).wf(),
        ensures
            final(self).wf(),
            final(self).spec_width() == old(self).spec_width(),
            S::obeys_into_spec() ==> ({
                let s = shift_amount.into_spec()@;
                &&& s >= old(self)@.width ==> ApInt::shift_rejected(old(self), final(self), s, r)
                &&& s < old(self)@.width ==> r is Ok && final(self)@.value == ashr_value(
                    old(self)@.value,
                    s,
                    old(self)@.width,
                )
            }),
    {
        let amount: ShiftAmount = shift_amount.into();
        match verify_shift_amount(self, amount) {
            Err(e) => {
                return Err(e);
            },
            Ok(()) => {},
        }
        self.ashr_by(amount);
        Ok(())
    }

    /// This value shifted right by `shift_amount` bits, with copies of the
    /// sign bit coming in at the top. An amount that is not below the
    /// width is rejected with `InvalidShiftAmount`.
    pub fn into_checked_ashr<S: Into<ShiftAmount>>(self, shift_amount: S) -> (r: Result<
        ApInt,
        Error,
    >)
        requires
            self.wf(),
        ensures
            S::obeys_into_spec() ==> ({
                let s = shift_amount.into_spec()@;
                &&& s >= self@.width ==> r is Err && r->Err_0@ == ErrorView::plain(
                    ErrorKindView::InvalidShiftAmount { amount: s, width: self@.width },
                )
                &&& s < self@.width ==> r is Ok && r->Ok_0.wf() && r->Ok_0.spec_width()
                    == self.spec_width() && r->Ok_0@.value == ashr_value(
                        self@.value,
                        s,
                        self@.width,
                    )
            }),
    {
        let mut this = self;
        match this.checked_ashr_assign(shift_amount) {
            Ok(()) => Ok(this),
            Err(e) => Err(e),
        }
    }
}

} // verus!
