use crate::apint::ApInt;
use crate::apint::utils::ZipDataAccessMut;
use crate::bitwidth::BitWidth;
use crate::checks::verify_bit_access;
use crate::digit::Bit;
use crate::digit::Digit;
use crate::digit::nat_bit;
use crate::errors::Error;
use crate::errors::ErrorKindView;
use crate::errors::ErrorView;
use crate::limbs::lemma_bit_of_mod;
use crate::limbs::lemma_limbs_bit;
use crate::limbs::lemma_limbs_complement;
use crate::limbs::lemma_limbs_update;
use crate::limbs::lemma_set_bit_bound;
use crate::limbs::lemma_u64_bitwise;
use crate::limbs::limbs_value;
use crate::limbs::weight;
use crate::model::lemma_wrap_bound;
use crate::model::lemma_wrap_multiple;
use crate::model::not_value;
use vstd::arithmetic::power2::pow2;
use vstd::prelude::*;

verus! {

/// Inverts every digit of `digits` in place.
pub fn not_digits(digits: &mut [Digit])
    ensures
        final(digits)@.len() == old(digits)@.len(),
        forall|i: int|
            0 <= i < old(digits)@.len() ==> (#[trigger] final(digits)@[i]).0 == u64::MAX - old(
                digits,
            )@[i].0,
{
    let n = digits.len();
    let ghost before = digits@;
    let mut i: usize = 0;
    while i < n
        invariant
            i <= n,
            digits@.len() == n,
            before.len() == n,
            forall|k: int| 0 <= k < i ==> (#[trigger] digits@[k]).0 == u64::MAX - before[k].0,
            forall|k: int| i <= k < n ==> digits@[k] == before[k],
        decreases n - i,
    {
        let mut d = digits[i];
        d.not_inplace();
        digits[i] = d;
        i += 1;
    }
}

impl ApInt {
    /// Inverts every bit of this value: `v` becomes `2^width - 1 - v`.
    pub fn bitnot(&mut self)
        requires
            old(self).wf(),
        ensures
            final(self).wf(),
            final(self).spec_width() == old(self).spec_width(),
            final(self)@.value == not_value(old(self)@.value, old(self)@.width),
    {
        let ghost before = self.digits();
        let ghost w = self@.width;
        not_digits(self.as_digit_slice_mut());
        proof {
            let after = self.digits();
            let n = before.len();
            lemma_limbs_complement(before, after);
            let e = (64 * n - w) as nat;
            assert(w + e == 64 * n);
            let target = pow2(w) - 1 - limbs_value(before);
            assert(limbs_value(after) == target + (1 as int) * pow2(w + e) - pow2(w));
            lemma_wrap_multiple(target - pow2(w), 1, w, e);
            crate::model::lemma_wrap_congruent(target - pow2(w), target, -1, w);
            lemma_wrap_bound(target, w);
        }
        self.clear_unused_bits();
    }

    /// This value with every bit inverted.
    pub fn into_bitnot(self) -> (r: ApInt)
        requires
            self.wf(),
        ensures
            r.wf(),
            r.spec_width() == self.spec_width(),
            r@.value == not_value(self@.value, self@.width),
    {
        let mut this = self;
        this.bitnot();
        this
    }
}

/// One of the three bitwise operations on two operands.
#[derive(Debug, Clone, Copy, PartialEq, Eq, Structural, Hash)]
pub enum BitwiseOp {
    /// A bit of the result is set where it is set in both operands.
    And,
    /// A bit of the result is set where it is set in either operand.
    Or,
    /// A bit of the result is set where it is set in one operand only.
    Xor,
}

impl BitwiseOp {
    /// What the operation makes of two bits.
    pub open spec fn on_bits(self, a: bool, b: bool) -> bool {
        match self {
            BitwiseOp::And => a && b,
            BitwiseOp::Or => a || b,
            BitwiseOp::Xor => a != b,
        }
    }

    /// What the operation makes of two words.
    pub open spec fn on_words(self, a: u64, b: u64) -> u64 {
        match self {
            BitwiseOp::And => a & b,
            BitwiseOp::Or => a | b,
            BitwiseOp::Xor => a ^ b,
        }
    }

    /// Applies the operation to two digits.
    pub fn apply(self, a: Digit, b: Digit) -> (r: Digit)
        ensures
            r.0 == self.on_words(a.0, b.0),
    {
        let mut d = a;
        match self {
            BitwiseOp::And => d.bitand_assign(b),
            BitwiseOp::Or => d.bitor_assign(b),
            BitwiseOp::Xor => d.bitxor_assign(b),
        }
        d
    }
}

/// Combines each digit of `lhs` with the digit of `rhs` at its index.
pub fn combine_digits(lhs: &mut [Digit], rhs: &[Digit], op: BitwiseOp)
    requires
        old(lhs)@.len() == rhs@.len(),
    ensures
        final(lhs)@.len() == old(lhs)@.len(),
        forall|i: int|
            0 <= i < rhs@.len() ==> (#[trigger] final(lhs)@[i]).0 == op.on_words(
                old(lhs)@[i].0,
                rhs@[i].0,
            ),
{
    let n = rhs.len();
    let ghost before = lhs@;
    let mut i: usize = 0;
    while i < n
        invariant
            i <= n,
            n == rhs@.len(),
            lhs@.len() == n,
            before.len() == n,
            forall|k: int|
                0 <= k < i ==> (#[trigger] lhs@[k]).0 == op.on_words(before[k].0, rhs@[k].0),
            forall|k: int| i <= k < n ==> lhs@[k] == before[k],
        decreases n - i,
    {
        lhs[i] = op.apply(lhs[i], rhs[i]);
        i += 1;
    }
}

impl ApInt {
    /// What a bitwise operation leaves in `after`: each bit below the
    /// width is what the operation makes of that bit of `before` and of
    /// `rhs`.
    pub open spec fn bitwise_result(
        before: &ApInt,
        after: &ApInt,
        rhs: &ApInt,
        op: BitwiseOp,
    ) -> bool {
        forall|pos: nat|
            pos < before@.width ==> #[trigger] nat_bit(after@.value, pos) == op.on_bits(
                nat_bit(before@.value, pos),
                nat_bit(rhs@.value, pos),
            )
    }

    /// Combines this value with `rhs` bit by bit; `UnmatchingBitWidths`
    /// where the widths differ.
    pub fn checked_bitwise_assign(&mut self, rhs: &ApInt, op: BitwiseOp) -> (r: Result<(), Error>)
        requires
            old(self).wf(),
            rhs.wf(),
        ensures
            final(self).wf(),
            final(self).spec_width() == old(self).spec_width(),
            old(self)@.width != rhs@.width ==> ApInt::unmatching(old(self), final(self), rhs, r),
            old(self)@.width == rhs@.width ==> r is Ok && ApInt::bitwise_result(
                old(self),
                final(self),
                rhs,
                op,
            ),
    {
        let ghost a = self.digits();
        let ghost b = rhs.digits();
        let ghost w = self@.width;
        match self.zip_access_data_mut(rhs) {
            Err(e) => {
                return Err(e);
            },
            Ok(ZipDataAccessMut::Inl(lhs, rhs)) => {
                *lhs = op.apply(*lhs, rhs);
            },
            Ok(ZipDataAccessMut::Ext(lhs, rhs)) => {
                combine_digits(lhs, rhs, op);
            },
        }
        let ghost c = self.digits();
        proof {
            assert forall|pos: nat| pos < w implies nat_bit(limbs_value(c) % pow2(w), pos)
                == op.on_bits(nat_bit(limbs_value(a), pos), nat_bit(limbs_value(b), pos)) by {
                let k = (pos / 64) as int;
                let j = (pos % 64) as u64;
                lemma_bit_of_mod(limbs_value(c), w, pos);
                lemma_limbs_bit(a, pos);
                lemma_limbs_bit(b, pos);
                lemma_limbs_bit(c, pos);
                lemma_u64_bitwise(a[k].0, b[k].0, j);
                assert(c[k].0 == op.on_words(a[k].0, b[k].0));
            }
        }
        self.clear_unused_bits();
        Ok(())
    }

    /// Replaces this value by its bitwise AND with `rhs`;
    /// `UnmatchingBitWidths` where the widths differ.
    pub fn checked_bitand_assign(&mut self, rhs: &ApInt) -> (r: Result<(), Error>)
        requires
            old(self).wf(),
            rhs.wf(),
        ensures
            final(self).wf(),
            final(self).spec_width() == old(self).spec_width(),
            old(self)@.width != rhs@.width ==> ApInt::unmatching(old(self), final(self), rhs, r),
            old(self)@.width == rhs@.width ==> r is Ok && ApInt::bitwise_result(
                old(self),
                final(self),
                rhs,
                BitwiseOp::And,
            ),
    {
        self.checked_bitwise_assign(rhs, BitwiseOp::And)
    }

    /// Replaces this value by its bitwise OR with `rhs`;
    /// `UnmatchingBitWidths` where the widths differ.
    pub fn checked_bitor_assign(&mut self, rhs: &ApInt) -> (r: Result<(), Error>)
        requires
            old(self).wf(),
            rhs.wf(),
        ensures
            final(self).wf(),
            final(self).spec_width() == old(self).spec_width(),
            old(self)@.width != rhs@.width ==> ApInt::unmatching(old(self), final(self), rhs, r),
            old(self)@.width == rhs@.width ==> r is Ok && ApInt::bitwise_result(
                old(self),
                final(self),
                rhs,
                BitwiseOp::Or,
            ),
    {
        self.checked_bitwise_assign(rhs, BitwiseOp::Or)
    }

    /// Replaces this value by its bitwise XOR with `rhs`;
    /// `UnmatchingBitWidths` where the widths differ.
    pub fn checked_bitxor_assign(&mut self, rhs: &ApInt) -> (r: Result<(), Error>)
        requires
            old(self).wf(),
            rhs.wf(),
        ensures
            final(self).wf(),
            final(self).spec_width() == old(self).spec_width(),
            old(self)@.width != rhs@.width ==> ApInt::unmatching(old(self), final(self), rhs, r),
            old(self)@.width == rhs@.width ==> r is Ok && ApInt::bitwise_result(
                old(self),
                final(self),
                rhs,
                BitwiseOp::Xor,
            ),
    {
        self.checked_bitwise_assign(rhs, BitwiseOp::Xor)
    }

    /// What every access to a single bit says of a position that is not
    /// below the width.
    pub open spec fn bit_rejected(
        before: &ApInt,
        after: &ApInt,
        pos: nat,
        r: Result<(), Error>,
    ) -> bool {
        &&& r is Err
        &&& r->Err_0@ == ErrorView::plain(
            ErrorKindView::InvalidBitAccess { position: pos, width: before@.width },
        )
        &&& after.digits() == before.digits()
        &&& after@ == before@
    }

    /// The bit at position `pos`; `InvalidBitAccess` where `pos` is not
    /// below the width.
    pub fn get_bit_at(&self, pos: usize) -> (r: Result<Bit, Error>)
        requires
            self.wf(),
        ensures
            pos >= self@.width ==> r is Err && r->Err_0@ == ErrorView::plain(
                ErrorKindView::InvalidBitAccess { position: pos as nat, width: self@.width },
            ),
            pos < self@.width ==> r == Ok::<Bit, Error>(Bit::of(nat_bit(self@.value, pos as nat))),
    {
        match verify_bit_access(self, pos) {
            Err(e) => {
                return Err(e);
            },
            Ok(()) => {},
        }
        proof {
            lemma_limbs_bit(self.digits(), pos as nat);
        }
        self.digit_at(pos / 64).get(pos % 64)
    }

    /// Gives the bit at position `pos` the value that `change` asks for:
    /// set, clear, or the opposite of what it is. The position is below the
    /// width.
    fn change_bit(&mut self, pos: usize, change: BitChange)
        requires
            old(self).wf(),
            pos < old(self)@.width,
        ensures
            final(self).wf(),
            final(self).spec_width() == old(self).spec_width(),
            final(self)@.value == change.on_value(old(self)@.value, pos as nat),
    {
        let ghost before = self.digits();
        let ghost w = self@.width;
        let ghost v = self@.value;
        let index = pos / 64;
        let offset = pos % 64;
        let mut d = self.digit_at(index);
        let ghost d0 = d;
        let _ = match change {
            BitChange::Raise => d.set(offset),
            BitChange::Clear => d.unset(offset),
            BitChange::Invert => d.flip(offset),
        };
        self.set_digit(index, d);
        proof {
            lemma_limbs_bit(before, pos as nat);
            lemma_limbs_update(before, index as int, d);
            vstd::arithmetic::power2::lemma_pow2_adds(64 * (index as nat), offset as nat);
            let wi = weight(index as nat) as int;
            let po = pow2(offset as nat) as int;
            assert(wi * po == pow2(pos as nat));
            if !nat_bit(v, pos as nat) {
                lemma_set_bit_bound(v, w, pos as nat);
            }
            assert((d0.0 + po) * wi == d0.0 * wi + wi * po) by (nonlinear_arith);
            assert((d0.0 - po) * wi == d0.0 * wi - wi * po) by (nonlinear_arith);
        }
    }

    /// Sets the bit at position `pos`; `InvalidBitAccess`, with `self`
    /// untouched, where `pos` is not below the width.
    pub fn set_bit_at(&mut self, pos: usize) -> (r: Result<(), Error>)
        requires
            old(self).wf(),
        ensures
            final(self).wf(),
            final(self).spec_width() == old(self).spec_width(),
            pos >= old(self)@.width ==> ApInt::bit_rejected(old(self), final(self), pos as nat, r),
            pos < old(self)@.width ==> r is Ok && final(self)@.value == BitChange::Raise.on_value(
                old(self)@.value,
                pos as nat,
            ),
    {
        match verify_bit_access(self, pos) {
            Err(e) => {
                return Err(e);
            },
            Ok(()) => {},
        }
        self.change_bit(pos, BitChange::Raise);
        Ok(())
    }

    /// Clears the bit at position `pos`; `InvalidBitAccess`, with `self`
    /// untouched, where `pos` is not below the width.
    pub fn unset_bit_at(&mut self, pos: usize) -> (r: Result<(), Error>)
        requires
            old(self).wf(),
        ensures
            final(self).wf(),
            final(self).spec_width() == old(self).spec_width(),
            pos >= old(self)@.width ==> ApInt::bit_rejected(old(self), final(self), pos as nat, r),
            pos < old(self)@.width ==> r is Ok && final(self)@.value == BitChange::Clear.on_value(
                old(self)@.value,
                pos as nat,
            ),
    {
        match verify_bit_access(self, pos) {
            Err(e) => {
                return Err(e);
            },
            Ok(()) => {},
        }
        self.change_bit(pos, BitChange::Clear);
        Ok(())
    }

    /// Inverts the bit at position `pos`; `InvalidBitAccess`, with `self`
    /// untouched, where `pos` is not below the width.
    pub fn flip_bit_at(&mut self, pos: usize) -> (r: Result<(), Error>)
        requires
            old(self).wf(),
        ensures
            final(self).wf(),
            final(self).spec_width() == old(self).spec_width(),
            pos >= old(self)@.width ==> ApInt::bit_rejected(old(self), final(self), pos as nat, r),
            pos < old(self)@.width ==> r is Ok && final(self)@.value == BitChange::Invert.on_value(
                old(self)@.value,
                pos as nat,
            ),
    {
        match verify_bit_access(self, pos) {
            Err(e) => {
                return Err(e);
            },
            Ok(()) => {},
        }
        self.change_bit(pos, BitChange::Invert);
        Ok(())
    }

    /// The lowest value of the given width in the signed reading: the bit
    /// pattern with the top bit alone set, `2^(width - 1)`.
    pub fn signed_min_value(width: BitWidth) -> (r: ApInt)
        requires
            width.wf(),
        ensures
            r.wf(),
            r.spec_width() == width,
            r@.value == pow2((width.bits() - 1) as nat),
    {
        let mut r = ApInt::zero(width);
        proof {
            vstd::arithmetic::power2::lemma_pow2_pos((width.bits() - 1) as nat);
            vstd::arithmetic::div_mod::lemma_basic_div(
                0,
                pow2((width.bits() - 1) as nat) as int,
            );
        }
        r.change_bit(width.to_usize() - 1, BitChange::Raise);
        r
    }

    /// The highest value of the given width in the signed reading: the bit
    /// pattern with all bits but the top one set, `2^(width - 1) - 1`.
    pub fn signed_max_value(width: BitWidth) -> (r: ApInt)
        requires
            width.wf(),
        ensures
            r.wf(),
            r.spec_width() == width,
            r@.value == pow2((width.bits() - 1) as nat) - 1,
    {
        let mut r = ApInt::all_set(width);
        proof {
            crate::model::lemma_pow2_half(width.bits());
            crate::limbs::lemma_top_bit(r@.value, width.bits());
        }
        r.change_bit(width.to_usize() - 1, BitChange::Clear);
        r
    }
}

/// A change to one bit of a value.
#[derive(Debug, Clone, Copy, PartialEq, Eq, Structural, Hash)]
pub enum BitChange {
    /// The bit becomes 1.
    Raise,
    /// The bit becomes 0.
    Clear,
    /// The bit becomes the opposite of what it is.
    Invert,
}

impl BitChange {
    /// The number that `v` becomes when the change is made to its bit
    /// `pos`.
    pub open spec fn on_value(self, v: nat, pos: nat) -> nat {
        let was_set = nat_bit(v, pos);
        match self {
            BitChange::Raise => if was_set {
                v
            } else {
                v + pow2(pos)
            },
            BitChange::Clear => if was_set {
                (v - pow2(pos)) as nat
            } else {
                v
            },
            BitChange::Invert => if was_set {
                (v - pow2(pos)) as nat
            } else {
                v + pow2(pos)
            },
        }
    }
}

/// Replaces every digit of `digits` by `digit`.
pub fn fill_digits(digits: &mut [Digit], digit: Digit)
    ensures
        final(digits)@.len() == old(digits)@.len(),
        forall|i: int| 0 <= i < old(digits)@.len() ==> #[trigger] final(digits)@[i] == digit,
{
    let n = digits.len();
    let mut i: usize = 0;
    while i < n
        invariant
            i <= n,
            digits@.len() == n,
            forall|k: int| 0 <= k < i ==> #[trigger] digits@[k] == digit,
        decreases n - i,
    {
        digits[i] = digit;
        i += 1;
    }
}

impl ApInt {
    /// Sets every bit: the value becomes `2^width - 1`.
    pub fn set_all(&mut self)
        requires
            old(self).wf(),
        ensures
            final(self).wf(),
            final(self).spec_width() == old(self).spec_width(),
            final(self)@.value == pow2(old(self)@.width) - 1,
    {
        let ghost w = self@.width;
        let ghost n = self.digits().len();
        fill_digits(self.as_digit_slice_mut(), Digit::all_set());
        proof {
            crate::limbs::lemma_limbs_all_set(self.digits());
            let e = (64 * n - w) as nat;
            assert(w + e == 64 * n);
            crate::apint::constructors::lemma_all_set_mod(w, e);
        }
        self.clear_unused_bits();
    }

    /// Clears every bit: the value becomes 0.
    pub fn unset_all(&mut self)
        requires
            old(self).wf(),
        ensures
            final(self).wf(),
            final(self).spec_width() == old(self).spec_width(),
            final(self)@.value == 0,
    {
        let ghost w = self@.width;
        fill_digits(self.as_digit_slice_mut(), Digit::zero());
        proof {
            crate::limbs::lemma_limbs_zero(self.digits());
            vstd::arithmetic::power2::lemma_pow2_pos(w);
            vstd::arithmetic::div_mod::lemma_small_mod(0, pow2(w));
        }
        self.clear_unused_bits();
    }

    /// Inverts every bit: `v` becomes `2^width - 1 - v`.
    pub fn flip_all(&mut self)
        requires
            old(self).wf(),
        ensures
            final(self).wf(),
            final(self).spec_width() == old(self).spec_width(),
            final(self)@.value == not_value(old(self)@.value, old(self)@.width),
    {
        self.bitnot();
    }
}

} // verus!
