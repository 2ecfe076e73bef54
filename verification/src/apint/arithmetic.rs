use crate::apint::ApInt;
use crate::apint::utils::ZipDataAccessMut;
use crate::checks::verify_common_bitwidth;
use crate::digit::Digit;
use crate::digit::lemma_pow2_64;
use crate::errors::DivOp;
use crate::errors::Error;
use crate::errors::ErrorKindView;
use crate::errors::ErrorView;
use crate::limbs::lemma_limbs_single;
use crate::limbs::lemma_weight;
use crate::limbs::limbs_value;
use crate::limbs::weight;
use crate::ll;
use crate::model::add_value;
use crate::model::lemma_magnitude;
use crate::model::lemma_sdiv_magnitudes;
use crate::model::lemma_srem_magnitudes;
use crate::model::lemma_wrap_congruent;
use crate::model::lemma_wrap_multiple;
use crate::model::lemma_wrap_wrap;
use crate::model::mul_value;
use crate::model::neg_value;
use crate::model::sdiv_value;
use crate::model::srem_value;
use crate::model::sub_value;
use crate::model::wrap;
use vstd::arithmetic::power2::pow2;
use vstd::prelude::*;

verus! {

impl ApInt {
    /// What every checked binary operation says of operands whose widths
    /// differ: the error names both widths, and `self` is as it was.
    pub open spec fn unmatching(
        before: &ApInt,
        after: &ApInt,
        rhs: &ApInt,
        r: Result<(), Error>,
    ) -> bool {
        &&& r is Err
        &&& r->Err_0@ == ErrorView::plain(
            ErrorKindView::UnmatchingBitWidths(before@.width, rhs@.width),
        )
        &&& after.digits() == before.digits()
        &&& after@ == before@
    }

    /// Replaces this value by its two's complement: `v` becomes `-v`
    /// reduced to the width.
    pub fn negate(&mut self)
        requires
            old(self).wf(),
        ensures
            final(self).wf(),
            final(self).spec_width() == old(self).spec_width(),
            final(self)@.value == neg_value(old(self)@.value, old(self)@.width),
    {
        let ghost w = self@.width;
        let ghost v = self@.value as int;
        let width = self.width();
        self.bitnot();
        let one = ApInt::one(width);
        let _ = self.checked_add_assign(&one);
        proof {
            lemma_wrap_congruent(pow2(w) - 1 - v + 1, -v, 1, w);
        }
    }

    /// The two's complement of this value.
    pub fn into_negate(self) -> (r: ApInt)
        requires
            self.wf(),
        ensures
            r.wf(),
            r.spec_width() == self.spec_width(),
            r@.value == neg_value(self@.value, self@.width),
    {
        let mut this = self;
        this.negate();
        this
    }

    /// Adds `rhs` to this value, wrapping at the width;
    /// `UnmatchingBitWidths` where the widths differ.
    pub fn checked_add_assign(&mut self, rhs: &ApInt) -> (r: Result<(), Error>)
        requires
            old(self).wf(),
            rhs.wf(),
        ensures
            final(self).wf(),
            final(self).spec_width() == old(self).spec_width(),
            old(self)@.width != rhs@.width ==> ApInt::unmatching(old(self), final(self), rhs, r),
            old(self)@.width == rhs@.width ==> r is Ok && final(self)@.value == add_value(
                old(self)@.value,
                rhs@.value,
                rhs@.width,
            ),
    {
        let ghost w = self@.width;
        let ghost a = self@.value as int;
        let ghost b = rhs@.value as int;
        let ghost n = self.digits().len();
        let ghost mut k: int = 0;
        match self.zip_access_data_mut(rhs) {
            Err(e) => {
                return Err(e);
            },
            Ok(ZipDataAccessMut::Inl(lhs, rhs)) => {
                let sum = lhs.repr().wrapping_add(rhs.repr());
                proof {
                    lemma_limbs_single(*lhs);
                    lemma_limbs_single(rhs);
                    lemma_limbs_single(Digit(sum));
                    lemma_weight(1);
                    lemma_pow2_64();
                    k = if a + b > u64::MAX {
                        -1int
                    } else {
                        0int
                    };
                    assert(lhs.0 as int == a);
                    assert(rhs.0 as int == b);
                    assert(weight(1) == 0x1_0000_0000_0000_0000);
                    assert(sum as int == a + b + k * weight(1));
                }
                *lhs = Digit(sum);
            },
            Ok(ZipDataAccessMut::Ext(lhs, rhs)) => {
                let carry = ll::add_assign_digits(lhs, rhs);
                proof {
                    k = -(carry.0 as int);
                    assert(limbs_value(lhs@) == a + b + k * weight(n)) by {
                        assert((-(carry.0 as int)) * weight(n) == -(carry.0 * weight(n)))
                            by (nonlinear_arith);
                    }
                }
            },
        }
        proof {
            let e = (64 * n - w) as nat;
            assert(w + e == 64 * n);
            assert(self@.value == a + b + k * pow2(w + e));
            lemma_wrap_multiple(a + b, k, w, e);
        }
        self.clear_unused_bits();
        Ok(())
    }

    /// The sum of this value and `rhs`, wrapping at the width;
    /// `UnmatchingBitWidths` where the widths differ.
    pub fn into_checked_add(self, rhs: &ApInt) -> (r: Result<ApInt, Error>)
        requires
            self.wf(),
            rhs.wf(),
        ensures
            self@.width != rhs@.width ==> r is Err && r->Err_0@ == ErrorView::plain(
                ErrorKindView::UnmatchingBitWidths(self@.width, rhs@.width),
            ),
            self@.width == rhs@.width ==> r is Ok && r->Ok_0.wf() && r->Ok_0.spec_width()
                == self.spec_width() && r->Ok_0@.value == add_value(
                    self@.value,
                    rhs@.value,
                    rhs@.width,
                ),
    {
        let mut this = self;
        match this.checked_add_assign(rhs) {
            Ok(()) => Ok(this),
            Err(e) => Err(e),
        }
    }

    /// Subtracts `rhs` from this value, wrapping at the width;
    /// `UnmatchingBitWidths` where the widths differ.
    pub fn checked_sub_assign(&mut self, rhs: &ApInt) -> (r: Result<(), Error>)
        requires
            old(self).wf(),
            rhs.wf(),
        ensures
            final(self).wf(),
            final(self).spec_width() == old(self).spec_width(),
            old(self)@.width != rhs@.width ==> ApInt::unmatching(old(self), final(self), rhs, r),
            old(self)@.width == rhs@.width ==> r is Ok && final(self)@.value == sub_value(
                old(self)@.value,
                rhs@.value,
                rhs@.width,
            ),
    {
        let ghost w = self@.width;
        let ghost a = self@.value as int;
        let ghost b = rhs@.value as int;
        let ghost n = self.digits().len();
        let ghost mut k: int = 0;
        match self.zip_access_data_mut(rhs) {
            Err(e) => {
                return Err(e);
            },
            Ok(ZipDataAccessMut::Inl(lhs, rhs)) => {
                let diff = lhs.repr().wrapping_sub(rhs.repr());
                proof {
                    lemma_limbs_single(*lhs);
                    lemma_limbs_single(rhs);
                    lemma_limbs_single(Digit(diff));
                    lemma_weight(1);
                    lemma_pow2_64();
                    k = if a - b < 0 {
                        1int
                    } else {
                        0int
                    };
                    assert(diff as int == a - b + k * weight(1));
                }
                *lhs = Digit(diff);
            },
            Ok(ZipDataAccessMut::Ext(lhs, rhs)) => {
                let borrow = ll::sub_assign_digits(lhs, rhs);
                proof {
                    k = borrow.0 as int;
                }
            },
        }
        proof {
            let e = (64 * n - w) as nat;
            assert(w + e == 64 * n);
            assert(self@.value == a - b + k * pow2(w + e));
            lemma_wrap_multiple(a - b, k, w, e);
        }
        self.clear_unused_bits();
        Ok(())
    }

    /// The difference of this value and `rhs`, wrapping at the width;
    /// `UnmatchingBitWidths` where the widths differ.
    pub fn into_checked_sub(self, rhs: &ApInt) -> (r: Result<ApInt, Error>)
        requires
            self.wf(),
            rhs.wf(),
        ensures
            self@.width != rhs@.width ==> r is Err && r->Err_0@ == ErrorView::plain(
                ErrorKindView::UnmatchingBitWidths(self@.width, rhs@.width),
            ),
            self@.width == rhs@.width ==> r is Ok && r->Ok_0.wf() && r->Ok_0.spec_width()
                == self.spec_width() && r->Ok_0@.value == sub_value(
                    self@.value,
                    rhs@.value,
                    rhs@.width,
                ),
    {
        let mut this = self;
        match this.checked_sub_assign(rhs) {
            Ok(()) => Ok(this),
            Err(e) => Err(e),
        }
    }
}

impl ApInt {
    /// What every division and remainder says of a divisor that is zero:
    /// the error names the operation and holds the dividend, and `self` is
    /// as it was.
    pub open spec fn zero_divisor(
        before: &ApInt,
        after: &ApInt,
        op: DivOp,
        r: Result<(), Error>,
    ) -> bool {
        &&& r is Err
        &&& r->Err_0@ == ErrorView::plain(
            ErrorKindView::DivisionByZero { op, dividend: before@ },
        )
        &&& after.digits() == before.digits()
        &&& after@ == before@
    }

    /// Multiplies this value by `rhs`, wrapping at the width;
    /// `UnmatchingBitWidths` where the widths differ.
    pub fn checked_mul_assign(&mut self, rhs: &ApInt) -> (r: Result<(), Error>)
        requires
            old(self).wf(),
            rhs.wf(),
        ensures
            final(self).wf(),
            final(self).spec_width() == old(self).spec_width(),
            old(self)@.width != rhs@.width ==> ApInt::unmatching(old(self), final(self), rhs, r),
            old(self)@.width == rhs@.width ==> r is Ok && final(self)@.value == mul_value(
                old(self)@.value,
                rhs@.value,
                rhs@.width,
            ),
    {
        let ghost w = self@.width;
        let ghost a = self@.value as int;
        let ghost b = rhs@.value as int;
        let ghost n = self.digits().len();
        match self.zip_access_data_mut(rhs) {
            Err(e) => {
                return Err(e);
            },
            Ok(ZipDataAccessMut::Inl(lhs, rhs)) => {
                let product = lhs.repr().wrapping_mul(rhs.repr());
                proof {
                    lemma_limbs_single(*lhs);
                    lemma_limbs_single(rhs);
                    lemma_limbs_single(Digit(product));
                    lemma_weight(1);
                    lemma_pow2_64();
                    assert(lhs.0 as int == a);
                    assert(rhs.0 as int == b);
                    assert(a * b >= 0) by (nonlinear_arith)
                        requires
                            a >= 0,
                            b >= 0,
                    ;
                    assert(product as int == (a * b) % (weight(1) as int));
                }
                *lhs = Digit(product);
            },
            Ok(ZipDataAccessMut::Ext(lhs, rhs)) => {
                ll::mul_assign_digits(lhs, rhs);
            },
        }
        proof {
            let e = (64 * n - w) as nat;
            assert(w + e == 64 * n);
            assert(self@.value == wrap(a * b, w + e));
            lemma_wrap_wrap(a * b, w, e);
        }
        self.clear_unused_bits();
        Ok(())
    }

    /// The product of this value and `rhs`, wrapping at the width;
    /// `UnmatchingBitWidths` where the widths differ.
    pub fn into_checked_mul(self, rhs: &ApInt) -> (r: Result<ApInt, Error>)
        requires
            self.wf(),
            rhs.wf(),
        ensures
            self@.width != rhs@.width ==> r is Err && r->Err_0@ == ErrorView::plain(
                ErrorKindView::UnmatchingBitWidths(self@.width, rhs@.width),
            ),
            self@.width == rhs@.width ==> r is Ok && r->Ok_0.wf() && r->Ok_0.spec_width()
                == self.spec_width() && r->Ok_0@.value == mul_value(
                    self@.value,
                    rhs@.value,
                    rhs@.width,
                ),
    {
        let mut this = self;
        match this.checked_mul_assign(rhs) {
            Ok(()) => Ok(this),
            Err(e) => Err(e),
        }
    }

    /// Replaces this value by its quotient and remainder by `rhs`, both
    /// read as unsigned, and hands back the one that was asked for. The
    /// widths are equal and `rhs` is not zero.
    fn udivrem_assign(&mut self, rhs: &ApInt, remainder: bool)
        requires
            old(self).wf(),
            rhs.wf(),
            old(self)@.width == rhs@.width,
            rhs@.value != 0,
        ensures
            final(self).wf(),
            final(self).spec_width() == old(self).spec_width(),
            final(self)@.value == (if remainder {
                old(self)@.value % rhs@.value
            } else {
                old(self)@.value / rhs@.value
            }),
    {
        let ghost w = self@.width;
        let ghost a = self@.value as int;
        let ghost b = rhs@.value as int;
        let bits = self.len_bits();
        proof {
            vstd::arithmetic::div_mod::lemma_div_nonincreasing(a, b);
            vstd::arithmetic::div_mod::lemma_div_pos_is_pos(a, b);
            vstd::arithmetic::div_mod::lemma_mod_bound(a, b);
        }
        match self.zip_access_data_mut(rhs) {
            Err(_) => unreached(),
            Ok(ZipDataAccessMut::Inl(lhs, rhs)) => {
                proof {
                    lemma_limbs_single(*lhs);
                    lemma_limbs_single(rhs);
                }
                let result = if remainder {
                    lhs.repr() % rhs.repr()
                } else {
                    lhs.repr() / rhs.repr()
                };
                proof {
                    lemma_limbs_single(Digit(result));
                }
                *lhs = Digit(result);
            },
            Ok(ZipDataAccessMut::Ext(lhs, rhs)) => {
                let (q, r) = ll::divrem_digits(lhs, rhs, bits);
                if remainder {
                    ll::copy_digits(lhs, r.as_slice());
                } else {
                    ll::copy_digits(lhs, q.as_slice());
                }
            },
        }
    }

    /// Divides this value by `rhs`, both read as unsigned. A zero divisor
    /// gives `DivisionByZero`; widths that differ give
    /// `UnmatchingBitWidths`.
    pub fn checked_udiv_assign(&mut self, rhs: &ApInt) -> (r: Result<(), Error>)
        requires
            old(self).wf(),
            rhs.wf(),
        ensures
            final(self).wf(),
            final(self).spec_width() == old(self).spec_width(),
            rhs@.value == 0 ==> ApInt::zero_divisor(old(self), final(self), DivOp::UnsignedDiv, r),
            rhs@.value != 0 && old(self)@.width != rhs@.width ==> ApInt::unmatching(
                old(self),
                final(self),
                rhs,
                r,
            ),
            rhs@.value != 0 && old(self)@.width == rhs@.width ==> r is Ok && final(self)@.value
                == old(self)@.value / rhs@.value,
    {
        if rhs.is_zero() {
            return Err(Error::division_by_zero(DivOp::UnsignedDiv, self.clone()));
        }
        match verify_common_bitwidth(self, rhs) {
            Err(e) => {
                return Err(e);
            },
            Ok(()) => {},
        }
        self.udivrem_assign(rhs, false);
        Ok(())
    }

    /// The quotient of this value by `rhs`, both read as unsigned. A zero
    /// divisor gives `DivisionByZero`; widths that differ give
    /// `UnmatchingBitWidths`.
    pub fn into_checked_udiv(self, rhs: &ApInt) -> (r: Result<ApInt, Error>)
        requires
            self.wf(),
            rhs.wf(),
        ensures
            rhs@.value == 0 ==> r is Err && r->Err_0@ == ErrorView::plain(
                ErrorKindView::DivisionByZero { op: DivOp::UnsignedDiv, dividend: self@ },
            ),
            rhs@.value != 0 && self@.width != rhs@.width ==> r is Err && r->Err_0@
                == ErrorView::plain(ErrorKindView::UnmatchingBitWidths(self@.width, rhs@.width)),
            rhs@.value != 0 && self@.width == rhs@.width ==> r is Ok && r->Ok_0.wf()
                && r->Ok_0.spec_width() == self.spec_width() && r->Ok_0@.value == self@.value
                / rhs@.value,
    {
        let mut this = self;
        match this.checked_udiv_assign(rhs) {
            Ok(()) => Ok(this),
            Err(e) => Err(e),
        }
    }

    /// Replaces this value by its remainder by `rhs`, both read as
    /// unsigned. A zero divisor gives `DivisionByZero`; widths that differ
    /// give `UnmatchingBitWidths`.
    pub fn checked_urem_assign(&mut self, rhs: &ApInt) -> (r: Result<(), Error>)
        requires
            old(self).wf(),
            rhs.wf(),
        ensures
            final(self).wf(),
            final(self).spec_width() == old(self).spec_width(),
            rhs@.value == 0 ==> ApInt::zero_divisor(old(self), final(self), DivOp::UnsignedRem, r),
            rhs@.value != 0 && old(self)@.width != rhs@.width ==> ApInt::unmatching(
                old(self),
                final(self),
                rhs,
                r,
            ),
            rhs@.value != 0 && old(self)@.width == rhs@.width ==> r is Ok && final(self)@.value
                == old(self)@.value % rhs@.value,
    {
        if rhs.is_zero() {
            return Err(Error::division_by_zero(DivOp::UnsignedRem, self.clone()));
        }
        match verify_common_bitwidth(self, rhs) {
            Err(e) => {
                return Err(e);
            },
            Ok(()) => {},
        }
        self.udivrem_assign(rhs, true);
        Ok(())
    }

    /// The remainder of this value by `rhs`, both read as unsigned. A zero
    /// divisor gives `DivisionByZero`; widths that differ give
    /// `UnmatchingBitWidths`.
    pub fn into_checked_urem(self, rhs: &ApInt) -> (r: Result<ApInt, Error>)
        requires
            self.wf(),
            rhs.wf(),
        ensures
            rhs@.value == 0 ==> r is Err && r->Err_0@ == ErrorView::plain(
                ErrorKindView::DivisionByZero { op: DivOp::UnsignedRem, dividend: self@ },
            ),
            rhs@.value != 0 && self@.width != rhs@.width ==> r is Err && r->Err_0@
                == ErrorView::plain(ErrorKindView::UnmatchingBitWidths(self@.width, rhs@.width)),
            rhs@.value != 0 && self@.width == rhs@.width ==> r is Ok && r->Ok_0.wf()
                && r->Ok_0.spec_width() == self.spec_width() && r->Ok_0@.value == self@.value
                % rhs@.value,
    {
        let mut this = self;
        match this.checked_urem_assign(rhs) {
            Ok(()) => Ok(this),
            Err(e) => Err(e),
        }
    }

    /// Divides this value by `rhs`, both read as signed in two's
    /// complement; the quotient is rounded toward zero and wraps at the
    /// width. A zero divisor gives `DivisionByZero`; widths that differ
    /// give `UnmatchingBitWidths`.
    pub fn checked_sdiv_assign(&mut self, rhs: &ApInt) -> (r: Result<(), Error>)
        requires
            old(self).wf(),
            rhs.wf(),
        ensures
            final(self).wf(),
            final(self).spec_width() == old(self).spec_width(),
            rhs@.value == 0 ==> ApInt::zero_divisor(old(self), final(self), DivOp::SignedDiv, r),
            rhs@.value != 0 && old(self)@.width != rhs@.width ==> ApInt::unmatching(
                old(self),
                final(self),
                rhs,
                r,
            ),
            rhs@.value != 0 && old(self)@.width == rhs@.width ==> r is Ok && final(self)@.value
                == sdiv_value(old(self)@.value, rhs@.value, rhs@.width),
    {
        if rhs.is_zero() {
            return Err(Error::division_by_zero(DivOp::SignedDiv, self.clone()));
        }
        match verify_common_bitwidth(self, rhs) {
            Err(e) => {
                return Err(e);
            },
            Ok(()) => {},
        }
        let ghost w = self@.width;
        let ghost a = self@.value;
        let ghost b = rhs@.value;
        proof {
            lemma_magnitude(a, w);
            lemma_magnitude(b, w);
            lemma_sdiv_magnitudes(a, b, w);
        }
        let lhs_negative = self.most_significant_bit().to_bool();
        let rhs_negative = rhs.most_significant_bit().to_bool();
        let mut divisor = rhs.clone();
        if lhs_negative {
            self.negate();
        }
        if rhs_negative {
            divisor.negate();
        }
        self.udivrem_assign(&divisor, false);
        if lhs_negative != rhs_negative {
            self.negate();
        }
        Ok(())
    }

    /// The quotient of this value by `rhs`, both read as signed, rounded
    /// toward zero. A zero divisor gives `DivisionByZero`; widths that
    /// differ give `UnmatchingBitWidths`.
    pub fn into_checked_sdiv(self, rhs: &ApInt) -> (r: Result<ApInt, Error>)
        requires
            self.wf(),
            rhs.wf(),
        ensures
            rhs@.value == 0 ==> r is Err && r->Err_0@ == ErrorView::plain(
                ErrorKindView::DivisionByZero { op: DivOp::SignedDiv, dividend: self@ },
            ),
            rhs@.value != 0 && self@.width != rhs@.width ==> r is Err && r->Err_0@
                == ErrorView::plain(ErrorKindView::UnmatchingBitWidths(self@.width, rhs@.width)),
            rhs@.value != 0 && self@.width == rhs@.width ==> r is Ok && r->Ok_0.wf()
                && r->Ok_0.spec_width() == self.spec_width() && r->Ok_0@.value == sdiv_value(
                    self@.value,
                    rhs@.value,
                    rhs@.width,
                ),
    {
        let mut this = self;
        match this.checked_sdiv_assign(rhs) {
            Ok(()) => Ok(this),
            Err(e) => Err(e),
        }
    }

    /// Replaces this value by its remainder by `rhs`, both read as signed
    /// in two's complement; the remainder has the sign of the dividend. A
    /// zero divisor gives `DivisionByZero`; widths that differ give
    /// `UnmatchingBitWidths`.
    pub fn checked_srem_assign(&mut self, rhs: &ApInt) -> (r: Result<(), Error>)
        requires
            old(self).wf(),
            rhs.wf(),
        ensures
            final(self).wf(),
            final(self).spec_width() == old(self).spec_width(),
            rhs@.value == 0 ==> ApInt::zero_divisor(old(self), final(self), DivOp::SignedRem, r),
            rhs@.value != 0 && old(self)@.width != rhs@.width ==> ApInt::unmatching(
                old(self),
                final(self),
                rhs,
                r,
            ),
            rhs@.value != 0 && old(self)@.width == rhs@.width ==> r is Ok && final(self)@.value
                == srem_value(old(self)@.value, rhs@.value, rhs@.width),
    {
        if rhs.is_zero() {
            return Err(Error::division_by_zero(DivOp::SignedRem, self.clone()));
        }
        match verify_common_bitwidth(self, rhs) {
            Err(e) => {
                return Err(e);
            },
            Ok(()) => {},
        }
        let ghost w = self@.width;
        let ghost a = self@.value;
        let ghost b = rhs@.value;
        proof {
            lemma_magnitude(a, w);
            lemma_magnitude(b, w);
            lemma_srem_magnitudes(a, b, w);
        }
        let lhs_negative = self.most_significant_bit().to_bool();
        let rhs_negative = rhs.most_significant_bit().to_bool();
        let mut divisor = rhs.clone();
        if lhs_negative {
            self.negate();
        }
        if rhs_negative {
            divisor.negate();
        }
        self.udivrem_assign(&divisor, true);
        if lhs_negative {
            self.negate();
        }
        Ok(())
    }

    /// The remainder of this value by `rhs`, both read as signed; it has
    /// the sign of the dividend. A zero divisor gives `DivisionByZero`;
    /// widths that differ give `UnmatchingBitWidths`.
    pub fn into_checked_srem(self, rhs: &ApInt) -> (r: Result<ApInt, Error>)
        requires
            self.wf(),
            rhs.wf(),
        ensures
            rhs@.value == 0 ==> r is Err && r->Err_0@ == ErrorView::plain(
                ErrorKindView::DivisionByZero { op: DivOp::SignedRem, dividend: self@ },
            ),
            rhs@.value != 0 && self@.width != rhs@.width ==> r is Err && r->Err_0@
                == ErrorView::plain(ErrorKindView::UnmatchingBitWidths(self@.width, rhs@.width)),
            rhs@.value != 0 && self@.width == rhs@.width ==> r is Ok && r->Ok_0.wf()
                && r->Ok_0.spec_width() == self.spec_width() && r->Ok_0@.value == srem_value(
                    self@.value,
                    rhs@.value,
                    rhs@.width,
                ),
    {
        let mut this = self;
        match this.checked_srem_assign(rhs) {
            Ok(()) => Ok(this),
            Err(e) => Err(e),
        }
    }
}

impl ApInt {
    /// The value of the width of `self` with the bits of `amount`, cut to
    /// the width.
    fn operand_of(&self, amount: u64) -> (r: ApInt)
        requires
            self.wf(),
        ensures
            r.wf(),
            r.spec_width() == self.spec_width(),
            r@.value == amount as nat % pow2(self@.width),
    {
        let mut r = ApInt::zero(self.width());
        let ghost zeros = r.digits();
        r.set_digit(0, Digit(amount));
        proof {
            crate::limbs::lemma_limbs_update(zeros, 0, Digit(amount));
            crate::limbs::lemma_limbs_zero_converse(zeros);
            lemma_weight(0);
        }
        r.clear_unused_bits();
        r
    }

    /// Adds `amount` to this value, wrapping at the width.
    pub fn increment_by(&mut self, amount: u64)
        requires
            old(self).wf(),
        ensures
            final(self).wf(),
            final(self).spec_width() == old(self).spec_width(),
            final(self)@.value == add_value(old(self)@.value, amount as nat, old(self)@.width),
    {
        let rhs = self.operand_of(amount);
        proof {
            let m = pow2(self@.width) as int;
            vstd::arithmetic::power2::lemma_pow2_pos(self@.width);
            vstd::arithmetic::div_mod::lemma_add_mod_noop_right(
                self@.value as int,
                amount as int,
                m,
            );
        }
        let _ = self.checked_add_assign(&rhs);
    }

    /// Subtracts `amount` from this value, wrapping at the width.
    pub fn decrement_by(&mut self, amount: u64)
        requires
            old(self).wf(),
        ensures
            final(self).wf(),
            final(self).spec_width() == old(self).spec_width(),
            final(self)@.value == sub_value(old(self)@.value, amount as nat, old(self)@.width),
    {
        let rhs = self.operand_of(amount);
        proof {
            let m = pow2(self@.width) as int;
            vstd::arithmetic::power2::lemma_pow2_pos(self@.width);
            vstd::arithmetic::div_mod::lemma_sub_mod_noop_right(
                self@.value as int,
                amount as int,
                m,
            );
        }
        let _ = self.checked_sub_assign(&rhs);
    }
}

} // verus!
