use crate::bitwidth::BitWidth;
use crate::bitwidth::required_digits;
use crate::digit::Digit;
use crate::limbs::limbs_value;
use crate::storage::Storage;
use vstd::arithmetic::power2::pow2;
use vstd::prelude::*;
use vstd::std_specs::cmp::PartialEqSpecImpl;

pub mod arithmetic;
pub mod bitwise;
pub mod constructors;
pub mod conversions;
pub mod formatting;
pub mod operators;
pub mod relational;
pub mod serialization;
pub mod shift;
pub mod utils;

verus! {

/// The digits of a value: one digit in place for a width of at most 64
/// bits, a digit sequence on the heap for anything wider.
#[derive(Debug)]
pub(crate) enum ApIntData {
    Inl(Digit),
    Ext(Vec<Digit>),
}

/// An integer of a fixed number of bits.
///
/// The digits are held little-endian, and the bits of the top digit above
/// the width are always zero.
#[derive(Debug)]
pub struct ApInt {
    pub(crate) len: BitWidth,
    pub(crate) data: ApIntData,
}

/// What an [`ApInt`] stands for: its width in bits and the natural number
/// below `2^width` that its bits spell.
pub struct ApIntView {
    pub width: nat,
    pub value: nat,
}

impl View for ApInt {
    type V = ApIntView;

    open spec fn view(&self) -> ApIntView {
        ApIntView { width: self.spec_width().bits(), value: limbs_value(self.digits()) }
    }
}

impl ApInt {
    /// The width of this value.
    pub closed spec fn spec_width(&self) -> BitWidth {
        self.len
    }

    /// The width of this value.
    #[verifier::when_used_as_spec(spec_width)]
    pub fn width(&self) -> (r: BitWidth)
        ensures
            r == self.spec_width(),
    {
        self.len
    }

    /// The digits of this value, the least significant first.
    pub closed spec fn digits(&self) -> Seq<Digit> {
        match self.data {
            ApIntData::Inl(d) => seq![d],
            ApIntData::Ext(v) => v@,
        }
    }

    /// How the digits of this value are held.
    pub closed spec fn spec_storage(&self) -> Storage {
        match self.data {
            ApIntData::Inl(_) => Storage::Inl,
            ApIntData::Ext(_) => Storage::Ext,
        }
    }

    /// The part of the invariant that does not speak of the bits above the
    /// width: the width is positive and decides how the digits are held and
    /// how many there are.
    pub open spec fn wf_shape(&self) -> bool {
        &&& self.spec_width().wf()
        &&& self.spec_storage() == (if self@.width <= 64 {
            Storage::Inl
        } else {
            Storage::Ext
        })
        &&& self.digits().len() == required_digits(self@.width)
    }

    /// The invariant of the type: the width is positive, it alone decides
    /// how the digits are held and how many there are, and the bits above
    /// the width are zero.
    pub open spec fn wf(&self) -> bool {
        &&& self.wf_shape()
        &&& self@.value < pow2(self@.width)
    }
}

impl ApInt {
    /// The number of digits that this value holds.
    pub(crate) fn digit_count(&self) -> (r: usize)
        ensures
            r == self.digits().len(),
    {
        match &self.data {
            ApIntData::Inl(_) => 1,
            ApIntData::Ext(v) => v.len(),
        }
    }

    /// The digit at index `i`, where 0 is the least significant.
    pub(crate) fn digit_at(&self, i: usize) -> (r: Digit)
        requires
            i < self.digits().len(),
        ensures
            r == self.digits()[i as int],
    {
        match &self.data {
            ApIntData::Inl(d) => *d,
            ApIntData::Ext(v) => v[i],
        }
    }

    /// Replaces the digit at index `i`.
    pub(crate) fn set_digit(&mut self, i: usize, digit: Digit)
        requires
            i < old(self).digits().len(),
        ensures
            final(self).digits() == old(self).digits().update(i as int, digit),
            final(self).spec_width() == old(self).spec_width(),
            final(self).spec_storage() == old(self).spec_storage(),
    {
        match &mut self.data {
            ApIntData::Inl(d) => {
                *d = digit;
                assert(seq![digit] =~= old(self).digits().update(i as int, digit));
            },
            ApIntData::Ext(v) => {
                v[i] = digit;
            },
        }
    }

    /// Whether `self` and `other` have the same width and the same digits.
    pub fn same_as(&self, other: &ApInt) -> (r: bool)
        ensures
            r == (self.spec_width() == other.spec_width() && self.digits() == other.digits()),
    {
        if self.len.to_usize() != other.len.to_usize() {
            proof {
                if self.len == other.len {
                    assert(self.len.bits() == other.len.bits());
                }
            }
            return false;
        }
        proof {
            BitWidth::lemma_bits_injective(self.len, other.len);
        }
        let n = self.digit_count();
        if n != other.digit_count() {
            return false;
        }
        let mut i: usize = 0;
        while i < n
            invariant
                i <= n,
                n == self.digits().len(),
                n == other.digits().len(),
                forall|k: int| 0 <= k < i ==> self.digits()[k] == other.digits()[k],
            decreases n - i,
        {
            if self.digit_at(i).0 != other.digit_at(i).0 {
                return false;
            }
            i += 1;
        }
        assert(self.digits() =~= other.digits());
        true
    }
}

impl Clone for ApInt {
    fn clone(&self) -> (r: ApInt)
        ensures
            r.spec_width() == self.spec_width(),
            r.digits() == self.digits(),
            r.spec_storage() == self.spec_storage(),
            r@ == self@,
            r.wf() == self.wf(),
    {
        match &self.data {
            ApIntData::Inl(d) => ApInt { len: self.len, data: ApIntData::Inl(*d) },
            ApIntData::Ext(v) => {
                let n = v.len();
                let mut copy: Vec<Digit> = Vec::with_capacity(n);
                let mut i: usize = 0;
                while i < n
                    invariant
                        i <= n,
                        n == v.len(),
                        copy.len() == i,
                        forall|k: int| 0 <= k < i ==> copy[k] == v[k],
                    decreases n - i,
                {
                    copy.push(v[i]);
                    i += 1;
                }
                assert(copy@ =~= v@);
                ApInt { len: self.len, data: ApIntData::Ext(copy) }
            },
        }
    }
}

impl PartialEq for ApInt {
    fn eq(&self, other: &ApInt) -> (r: bool) {
        self.same_as(other)
    }
}

impl PartialEqSpecImpl for ApInt {
    open spec fn obeys_eq_spec() -> bool {
        true
    }

    open spec fn eq_spec(&self, other: &ApInt) -> bool {
        self.spec_width() == other.spec_width() && self.digits() == other.digits()
    }
}

impl Eq for ApInt {

}

} // verus!
