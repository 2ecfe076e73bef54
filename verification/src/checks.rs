//! The checks that operations make on their arguments before they act.

use crate::apint::ApInt;
use crate::apint::shift::ShiftAmount;
use crate::bitwidth::BitWidth;
use crate::errors::Error;
use crate::errors::ErrorKindView;
use crate::errors::ErrorView;
use vstd::prelude::*;

verus! {

/// Accepts a bit position below `width`; `InvalidBitAccess` for any other.
pub fn verify_bit_position(width: BitWidth, pos: usize) -> (r: Result<(), Error>)
    ensures
        pos < width.bits() ==> r is Ok,
        pos >= width.bits() ==> r is Err && r->Err_0@ == ErrorView::plain(
            ErrorKindView::InvalidBitAccess { position: pos as nat, width: width.bits() },
        ),
{
    let bits = width.to_usize();
    if pos >= bits {
        return Err(Error::invalid_bit_access(pos, bits));
    }
    Ok(())
}

/// Accepts two equal widths; `UnmatchingBitWidths` for any others.
pub fn verify_common_width(lhs: BitWidth, rhs: BitWidth) -> (r: Result<(), Error>)
    ensures
        lhs.bits() == rhs.bits() ==> r is Ok,
        lhs.bits() != rhs.bits() ==> r is Err && r->Err_0@ == ErrorView::plain(
            ErrorKindView::UnmatchingBitWidths(lhs.bits(), rhs.bits()),
        ),
{
    let l = lhs.to_usize();
    let r = rhs.to_usize();
    if l != r {
        return Err(Error::unmatching_bitwidths(l, r));
    }
    Ok(())
}

/// Accepts a bit position below the width of `a`; `InvalidBitAccess` for
/// any other.
pub fn verify_bit_access(a: &ApInt, pos: usize) -> (r: Result<(), Error>)
    ensures
        pos < a@.width ==> r is Ok,
        pos >= a@.width ==> r is Err && r->Err_0@ == ErrorView::plain(
            ErrorKindView::InvalidBitAccess { position: pos as nat, width: a@.width },
        ),
{
    verify_bit_position(a.width(), pos)
}

/// Accepts a shift amount below the width of `a`; `InvalidShiftAmount` for
/// any other, the width itself included.
pub fn verify_shift_amount(a: &ApInt, shift_amount: ShiftAmount) -> (r: Result<(), Error>)
    ensures
        shift_amount@ < a@.width ==> r is Ok,
        shift_amount@ >= a@.width ==> r is Err && r->Err_0@ == ErrorView::plain(
            ErrorKindView::InvalidShiftAmount { amount: shift_amount@, width: a@.width },
        ),
{
    let width = a.len_bits();
    let amount = shift_amount.to_usize();
    if amount >= width {
        return Err(Error::invalid_shift_amount(amount, width));
    }
    Ok(())
}

/// Accepts two values of one width; `UnmatchingBitWidths` for any others.
pub fn verify_common_bitwidth(a: &ApInt, b: &ApInt) -> (r: Result<(), Error>)
    ensures
        a@.width == b@.width ==> r is Ok,
        a@.width != b@.width ==> r is Err && r->Err_0@ == ErrorView::plain(
            ErrorKindView::UnmatchingBitWidths(a@.width, b@.width),
        ),
{
    verify_common_width(a.width(), b.width())
}

} // verus!
