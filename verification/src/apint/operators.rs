//! The operators `-`, `+` and `*`, for the operations that do not depend
//! on a signed or unsigned reading. The operands of a binary operator must
//! have the same width.

use crate::apint::ApInt;
use crate::model::add_value;
use crate::model::mul_value;
use crate::model::neg_value;
use crate::model::sub_value;
use core::ops::Add;
use core::ops::AddAssign;
use core::ops::Mul;
use core::ops::MulAssign;
use core::ops::Neg;
use core::ops::Sub;
use core::ops::SubAssign;
use vstd::prelude::*;
use vstd::std_specs::ops::AddSpecImpl;
use vstd::std_specs::ops::MulSpecImpl;
use vstd::std_specs::ops::NegSpecImpl;
use vstd::std_specs::ops::SubSpecImpl;

verus! {

impl Neg for ApInt {
    type Output = ApInt;

    /// The two's complement of this value.
    fn neg(self) -> (r: ApInt)
        ensures
            r.wf(),
            r.spec_width() == self.spec_width(),
            r@.value == neg_value(self@.value, self@.width),
    {
        self.into_negate()
    }
}

/// The operator is specified by the contract of its method alone.
impl NegSpecImpl for ApInt {
    open spec fn obeys_neg_spec() -> bool {
        false
    }

    open spec fn neg_req(self) -> bool {
        self.wf()
    }

    open spec fn neg_spec(self) -> ApInt {
        arbitrary()
    }
}

impl<'a> Neg for &'a ApInt {
    type Output = ApInt;

    /// The two's complement of this value.
    fn neg(self) -> (r: ApInt)
        ensures
            r.wf(),
            r.spec_width() == self.spec_width(),
            r@.value == neg_value(self@.value, self@.width),
    {
        self.clone().into_negate()
    }
}

/// The operator is specified by the contract of its method alone.
impl<'a> NegSpecImpl for &'a ApInt {
    open spec fn obeys_neg_spec() -> bool {
        false
    }

    open spec fn neg_req(self) -> bool {
        self.wf()
    }

    open spec fn neg_spec(self) -> ApInt {
        arbitrary()
    }
}

impl<'a> Add<&'a ApInt> for ApInt {
    type Output = ApInt;

    /// The sum of this value and `rhs`, wrapping at the width.
    fn add(self, rhs: &'a ApInt) -> (r: ApInt)
        ensures
            r.wf(),
            r.spec_width() == self.spec_width(),
            r@.value == add_value(self@.value, rhs@.value, self@.width),
    {
        self.into_checked_add(rhs).unwrap()
    }
}

/// The operator is specified by the contract of its method alone.
impl<'a> AddSpecImpl<&'a ApInt> for ApInt {
    open spec fn obeys_add_spec() -> bool {
        false
    }

    open spec fn add_req(self, rhs: &'a ApInt) -> bool {
        self.wf() && rhs.wf() && self@.width == rhs@.width
    }

    open spec fn add_spec(self, rhs: &'a ApInt) -> ApInt {
        arbitrary()
    }
}

impl<'a, 'b> Add<&'a ApInt> for &'b ApInt {
    type Output = ApInt;

    /// The sum of this value and `rhs`, wrapping at the width.
    fn add(self, rhs: &'a ApInt) -> (r: ApInt)
        ensures
            r.wf(),
            r.spec_width() == self.spec_width(),
            r@.value == add_value(self@.value, rhs@.value, self@.width),
    {
        self.clone().into_checked_add(rhs).unwrap()
    }
}

/// The operator is specified by the contract of its method alone.
impl<'a, 'b> AddSpecImpl<&'a ApInt> for &'b ApInt {
    open spec fn obeys_add_spec() -> bool {
        false
    }

    open spec fn add_req(self, rhs: &'a ApInt) -> bool {
        self.wf() && rhs.wf() && self@.width == rhs@.width
    }

    open spec fn add_spec(self, rhs: &'a ApInt) -> ApInt {
        arbitrary()
    }
}

impl<'a> Sub<&'a ApInt> for ApInt {
    type Output = ApInt;

    /// The difference of this value and `rhs`, wrapping at the width.
    fn sub(self, rhs: &'a ApInt) -> (r: ApInt)
        ensures
            r.wf(),
            r.spec_width() == self.spec_width(),
            r@.value == sub_value(self@.value, rhs@.value, self@.width),
    {
        self.into_checked_sub(rhs).unwrap()
    }
}

/// The operator is specified by the contract of its method alone.
impl<'a> SubSpecImpl<&'a ApInt> for ApInt {
    open spec fn obeys_sub_spec() -> bool {
        false
    }

    open spec fn sub_req(self, rhs: &'a ApInt) -> bool {
        self.wf() && rhs.wf() && self@.width == rhs@.width
    }

    open spec fn sub_spec(self, rhs: &'a ApInt) -> ApInt {
        arbitrary()
    }
}

impl<'a, 'b> Sub<&'a ApInt> for &'b ApInt {
    type Output = ApInt;

    /// The difference of this value and `rhs`, wrapping at the width.
    fn sub(self, rhs: &'a ApInt) -> (r: ApInt)
        ensures
            r.wf(),
            r.spec_width() == self.spec_width(),
            r@.value == sub_value(self@.value, rhs@.value, self@.width),
    {
        self.clone().into_checked_sub(rhs).unwrap()
    }
}

/// The operator is specified by the contract of its method alone.
impl<'a, 'b> SubSpecImpl<&'a ApInt> for &'b ApInt {
    open spec fn obeys_sub_spec() -> bool {
        false
    }

    open spec fn sub_req(self, rhs: &'a ApInt) -> bool {
        self.wf() && rhs.wf() && self@.width == rhs@.width
    }

    open spec fn sub_spec(self, rhs: &'a ApInt) -> ApInt {
        arbitrary()
    }
}

impl<'a> Mul<&'a ApInt> for ApInt {
    type Output = ApInt;

    /// The product of this value and `rhs`, wrapping at the width.
    fn mul(self, rhs: &'a ApInt) -> (r: ApInt)
        ensures
            r.wf(),
            r.spec_width() == self.spec_width(),
            r@.value == mul_value(self@.value, rhs@.value, self@.width),
    {
        self.into_checked_mul(rhs).unwrap()
    }
}

/// The operator is specified by the contract of its method alone.
impl<'a> MulSpecImpl<&'a ApInt> for ApInt {
    open spec fn obeys_mul_spec() -> bool {
        false
    }

    open spec fn mul_req(self, rhs: &'a ApInt) -> bool {
        self.wf() && rhs.wf() && self@.width == rhs@.width
    }

    open spec fn mul_spec(self, rhs: &'a ApInt) -> ApInt {
        arbitrary()
    }
}

impl<'a, 'b> Mul<&'a ApInt> for &'b ApInt {
    type Output = ApInt;

    /// The product of this value and `rhs`, wrapping at the width.
    fn mul(self, rhs: &'a ApInt) -> (r: ApInt)
        ensures
            r.wf(),
            r.spec_width() == self.spec_width(),
            r@.value == mul_value(self@.value, rhs@.value, self@.width),
    {
        self.clone().into_checked_mul(rhs).unwrap()
    }
}

/// The operator is specified by the contract of its method alone.
impl<'a, 'b> MulSpecImpl<&'a ApInt> for &'b ApInt {
    open spec fn obeys_mul_spec() -> bool {
        false
    }

    open spec fn mul_req(self, rhs: &'a ApInt) -> bool {
        self.wf() && rhs.wf() && self@.width == rhs@.width
    }

    open spec fn mul_spec(self, rhs: &'a ApInt) -> ApInt {
        arbitrary()
    }
}

impl<'a> AddAssign<&'a ApInt> for ApInt {
    /// Adds `rhs` to this value, wrapping at the width.
    fn add_assign(&mut self, rhs: &'a ApInt)
        requires
            old(self).wf(),
            rhs.wf(),
            old(self)@.width == rhs@.width,
        ensures
            final(self).wf(),
            final(self).spec_width() == old(self).spec_width(),
            final(self)@.value == add_value(old(self)@.value, rhs@.value, rhs@.width),
    {
        self.checked_add_assign(rhs).unwrap()
    }
}

impl<'a> SubAssign<&'a ApInt> for ApInt {
    /// Subtracts `rhs` from this value, wrapping at the width.
    fn sub_assign(&mut self, rhs: &'a ApInt)
        requires
            old(self).wf(),
            rhs.wf(),
            old(self)@.width == rhs@.width,
        ensures
            final(self).wf(),
            final(self).spec_width() == old(self).spec_width(),
            final(self)@.value == sub_value(old(self)@.value, rhs@.value, rhs@.width),
    {
        self.checked_sub_assign(rhs).unwrap()
    }
}

impl<'a> MulAssign<&'a ApInt> for ApInt {
    /// Multiplies this value by `rhs`, wrapping at the width.
    fn mul_assign(&mut self, rhs: &'a ApInt)
        requires
            old(self).wf(),
            rhs.wf(),
            old(self)@.width == rhs@.width,
        ensures
            final(self).wf(),
            final(self).spec_width() == old(self).spec_width(),
            final(self)@.value == mul_value(old(self)@.value, rhs@.value, rhs@.width),
    {
        self.checked_mul_assign(rhs).unwrap()
    }
}

impl<'a> Neg for &'a mut ApInt {
    type Output = &'a mut ApInt;

    /// Replaces this value by its two's complement and hands it back.
    fn neg(self) -> (r: &'a mut ApInt)
        ensures
            r.wf(),
            r.spec_width() == old(self).spec_width(),
            r@.value == neg_value(old(self)@.value, old(self)@.width),
            *final(self) == *final(r),
    {
        self.negate();
        self
    }
}

/// The operator is specified by the contract of its method alone.
impl<'a> NegSpecImpl for &'a mut ApInt {
    open spec fn obeys_neg_spec() -> bool {
        false
    }

    open spec fn neg_req(self) -> bool {
        self.wf()
    }

    open spec fn neg_spec(self) -> &'a mut ApInt {
        arbitrary()
    }
}

} // verus!
