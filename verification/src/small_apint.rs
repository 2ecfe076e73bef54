//! A value of at most 64 bits, held in one digit: what the inline storage
//! of a value holds, with the operations that need no more than one word.

use crate::apint::bitwise::BitChange;
use crate::bitwidth::BitWidth;
use crate::checks::verify_bit_position;
use crate::checks::verify_common_width;
use crate::digit::Bit;
use crate::digit::Digit;
use crate::digit::lemma_pow2_64;
use crate::digit::nat_bit;
use crate::errors::Error;
use crate::errors::ErrorKindView;
use crate::errors::ErrorView;
use crate::model::lemma_pow2_half;
use crate::model::not_value;
use crate::model::signed_value;
use vstd::arithmetic::power2::lemma_pow2_adds;
use vstd::arithmetic::power2::lemma_pow2_pos;
use vstd::arithmetic::power2::pow2;
use vstd::bits::lemma_u64_shl_is_mul;
use vstd::prelude::*;

verus! {

/// A width of at most 64 bits together with the one digit that holds the
/// bits. The bits of the digit above the width are zero.
#[derive(Debug, Clone, Copy, PartialEq, Eq, Structural, Hash)]
pub struct SmallApInt {
    len: BitWidth,
    digit: Digit,
}

impl SmallApInt {
    /// The width of this value in bits.
    pub closed spec fn bits(&self) -> nat {
        self.len.bits()
    }

    /// The number that the bits spell.
    pub closed spec fn value(&self) -> nat {
        self.digit.0 as nat
    }

    /// The invariant of the type: the width is from 1 to 64, and the value
    /// is below two to the width.
    pub open spec fn wf(&self) -> bool {
        &&& 1 <= self.bits() <= 64
        &&& self.value() < pow2(self.bits())
    }

    /// The value of the given width that the digit `digit` holds, cut to
    /// the width.
    pub fn new(width: BitWidth, digit: Digit) -> (r: SmallApInt)
        requires
            1 <= width.bits() <= 64,
        ensures
            r.wf(),
            r.bits() == width.bits(),
            r.value() == digit.0 as nat % pow2(width.bits()),
    {
        let mut d = digit;
        let _ = d.retain_last_n(width.to_usize());
        proof {
            lemma_pow2_pos(width.bits());
            vstd::arithmetic::div_mod::lemma_mod_bound(digit.0 as int, pow2(width.bits()) as int);
        }
        SmallApInt { len: width, digit: d }
    }

    /// The value 1 of the given width.
    pub fn one(width: BitWidth) -> (r: SmallApInt)
        requires
            1 <= width.bits() <= 64,
        ensures
            r.wf(),
            r.bits() == width.bits(),
            r.value() == 1,
    {
        proof {
            lemma_pow2_64();
            if width.bits() > 1 {
                vstd::arithmetic::power2::lemma_pow2_strictly_increases(1, width.bits());
            }
            vstd::arithmetic::div_mod::lemma_small_mod(1, pow2(width.bits()));
        }
        SmallApInt::new(width, Digit::one())
    }

    /// The value 0 of the given width.
    pub fn zero(width: BitWidth) -> (r: SmallApInt)
        requires
            1 <= width.bits() <= 64,
        ensures
            r.wf(),
            r.bits() == width.bits(),
            r.value() == 0,
    {
        proof {
            lemma_pow2_pos(width.bits());
            vstd::arithmetic::div_mod::lemma_small_mod(0, pow2(width.bits()));
        }
        SmallApInt::new(width, Digit::zero())
    }

    /// The width of this value.
    pub fn width(&self) -> (r: BitWidth)
        ensures
            r.bits() == self.bits(),
    {
        self.len
    }

    /// The digit that holds the bits of this value.
    pub fn digit(&self) -> (r: Digit)
        ensures
            r.0 == self.value(),
    {
        self.digit
    }

    /// The bit at position `n`; `InvalidBitAccess` where `n` is not below
    /// the width.
    pub fn get(&self, n: usize) -> (r: Result<Bit, Error>)
        requires
            self.wf(),
        ensures
            n >= self.bits() ==> r is Err && r->Err_0@ == ErrorView::plain(
                ErrorKindView::InvalidBitAccess { position: n as nat, width: self.bits() },
            ),
            n < self.bits() ==> r == Ok::<Bit, Error>(Bit::of(nat_bit(self.value(), n as nat))),
    {
        match verify_bit_position(self.len, n) {
            Err(e) => {
                return Err(e);
            },
            Ok(()) => {},
        }
        self.digit.get(n)
    }

    /// The top bit, which the signed reading takes for the sign.
    pub fn sign_bit(&self) -> (r: Bit)
        requires
            self.wf(),
        ensures
            r == Bit::of(signed_value(self.value(), self.bits()) < 0),
    {
        proof {
            crate::limbs::lemma_top_bit(self.value(), self.bits());
            lemma_pow2_half(self.bits());
        }
        match self.digit.get(self.len.to_usize() - 1) {
            Ok(bit) => bit,
            Err(_) => unreached(),
        }
    }

    /// Whether this value is below `other`, both read as unsigned;
    /// `UnmatchingBitWidths` where the widths differ.
    pub fn ult(&self, other: &SmallApInt) -> (r: Result<bool, Error>)
        requires
            self.wf(),
            other.wf(),
        ensures
            self.bits() != other.bits() ==> r is Err && r->Err_0@ == ErrorView::plain(
                ErrorKindView::UnmatchingBitWidths(self.bits(), other.bits()),
            ),
            self.bits() == other.bits() ==> r == Ok::<bool, Error>(self.value() < other.value()),
    {
        match verify_common_width(self.len, other.len) {
            Err(e) => {
                return Err(e);
            },
            Ok(()) => {},
        }
        Ok(self.digit.repr() < other.digit.repr())
    }

    /// Whether this value is below `other`, both read as signed in two's
    /// complement; `UnmatchingBitWidths` where the widths differ.
    pub fn slt(&self, other: &SmallApInt) -> (r: Result<bool, Error>)
        requires
            self.wf(),
            other.wf(),
        ensures
            self.bits() != other.bits() ==> r is Err && r->Err_0@ == ErrorView::plain(
                ErrorKindView::UnmatchingBitWidths(self.bits(), other.bits()),
            ),
            self.bits() == other.bits() ==> r == Ok::<bool, Error>(
                signed_value(self.value(), self.bits()) < signed_value(
                    other.value(),
                    other.bits(),
                ),
            ),
    {
        match verify_common_width(self.len, other.len) {
            Err(e) => {
                return Err(e);
            },
            Ok(()) => {},
        }
        let inflate = 64 - self.len.to_usize();
        proof {
            lemma_inflated(self.value(), self.bits());
            lemma_inflated(other.value(), self.bits());
            let q = pow2((64 - self.bits()) as nat) as int;
            let sa = signed_value(self.value(), self.bits());
            let sb = signed_value(other.value(), self.bits());
            assert((sa * q < sb * q) == (sa < sb)) by (nonlinear_arith)
                requires
                    q > 0,
            ;
        }
        let left = inflated_word(self.digit.repr(), inflate);
        let right = inflated_word(other.digit.repr(), inflate);
        Ok(left < right)
    }

    /// Sets the bit at position `n`; `InvalidBitAccess`, with `self`
    /// untouched, where `n` is not below the width.
    pub fn set(&mut self, n: usize) -> (r: Result<(), Error>)
        requires
            old(self).wf(),
        ensures
            final(self).wf(),
            final(self).bits() == old(self).bits(),
            n >= old(self).bits() ==> r is Err && r->Err_0@ == ErrorView::plain(
                ErrorKindView::InvalidBitAccess { position: n as nat, width: old(self).bits() },
            ) && final(self).value() == old(self).value(),
            n < old(self).bits() ==> r is Ok && final(self).value() == BitChange::Raise.on_value(
                old(self).value(),
                n as nat,
            ),
    {
        match verify_bit_position(self.len, n) {
            Err(e) => {
                return Err(e);
            },
            Ok(()) => {},
        }
        proof {
            if !nat_bit(self.value(), n as nat) {
                crate::limbs::lemma_set_bit_bound(self.value(), self.bits(), n as nat);
            }
        }
        let mut d = self.digit;
        let _ = d.set(n);
        self.digit = d;
        Ok(())
    }

    /// Sets every bit: the value becomes `2^width - 1`.
    pub fn set_all(&mut self)
        requires
            old(self).wf(),
        ensures
            final(self).wf(),
            final(self).bits() == old(self).bits(),
            final(self).value() == pow2(old(self).bits()) - 1,
    {
        let mut d = self.digit;
        d.set_all();
        let _ = d.retain_last_n(self.len.to_usize());
        proof {
            lemma_pow2_64();
            crate::apint::constructors::lemma_all_set_mod(
                self.bits(),
                (64 - self.bits()) as nat,
            );
            lemma_pow2_pos(self.bits());
        }
        self.digit = d;
    }

    /// Clears the bit at position `n`; `InvalidBitAccess`, with `self`
    /// untouched, where `n` is not below the width.
    pub fn unset(&mut self, n: usize) -> (r: Result<(), Error>)
        requires
            old(self).wf(),
        ensures
            final(self).wf(),
            final(self).bits() == old(self).bits(),
            n >= old(self).bits() ==> r is Err && r->Err_0@ == ErrorView::plain(
                ErrorKindView::InvalidBitAccess { position: n as nat, width: old(self).bits() },
            ) && final(self).value() == old(self).value(),
            n < old(self).bits() ==> r is Ok && final(self).value() == BitChange::Clear.on_value(
                old(self).value(),
                n as nat,
            ),
    {
        match verify_bit_position(self.len, n) {
            Err(e) => {
                return Err(e);
            },
            Ok(()) => {},
        }
        proof {
            lemma_pow2_pos(n as nat);
        }
        let mut d = self.digit;
        let _ = d.unset(n);
        self.digit = d;
        Ok(())
    }

    /// Clears every bit: the value becomes 0.
    pub fn unset_all(&mut self)
        requires
            old(self).wf(),
        ensures
            final(self).wf(),
            final(self).bits() == old(self).bits(),
            final(self).value() == 0,
    {
        let mut d = self.digit;
        d.unset_all();
        proof {
            lemma_pow2_pos(self.bits());
        }
        self.digit = d;
    }

    /// Inverts the bit at position `n`; `InvalidBitAccess`, with `self`
    /// untouched, where `n` is not below the width.
    pub fn flip(&mut self, n: usize) -> (r: Result<(), Error>)
        requires
            old(self).wf(),
        ensures
            final(self).wf(),
            final(self).bits() == old(self).bits(),
            n >= old(self).bits() ==> r is Err && r->Err_0@ == ErrorView::plain(
                ErrorKindView::InvalidBitAccess { position: n as nat, width: old(self).bits() },
            ) && final(self).value() == old(self).value(),
            n < old(self).bits() ==> r is Ok && final(self).value() == BitChange::Invert.on_value(
                old(self).value(),
                n as nat,
            ),
    {
        match verify_bit_position(self.len, n) {
            Err(e) => {
                return Err(e);
            },
            Ok(()) => {},
        }
        proof {
            lemma_pow2_pos(n as nat);
            if !nat_bit(self.value(), n as nat) {
                crate::limbs::lemma_set_bit_bound(self.value(), self.bits(), n as nat);
            }
        }
        let mut d = self.digit;
        let _ = d.flip(n);
        self.digit = d;
        Ok(())
    }

    /// Inverts every bit: the value `v` becomes `2^width - 1 - v`.
    pub fn flip_all(&mut self)
        requires
            old(self).wf(),
        ensures
            final(self).wf(),
            final(self).bits() == old(self).bits(),
            final(self).value() == not_value(old(self).value(), old(self).bits()),
    {
        self.bitnot_inplace();
    }

    /// Inverts every bit: the value `v` becomes `2^width - 1 - v`.
    pub fn bitnot_inplace(&mut self)
        requires
            old(self).wf(),
        ensures
            final(self).wf(),
            final(self).bits() == old(self).bits(),
            final(self).value() == not_value(old(self).value(), old(self).bits()),
    {
        let width = self.len.to_usize();
        let ghost w = self.bits();
        let ghost v = self.value() as int;
        let mut d = self.digit;
        d.not_inplace();
        let _ = d.retain_last_n(width);
        proof {
            lemma_pow2_64();
            lemma_pow2_pos(w);
            let e = (64 - w) as nat;
            lemma_pow2_adds(w, e);
            lemma_pow2_pos(e);
            let p = pow2(w) as int;
            let q = pow2(e) as int;
            assert(p * q - 1 - v == (q - 1) * p + (p - 1 - v)) by (nonlinear_arith);
            vstd::arithmetic::div_mod::lemma_fundamental_div_mod_converse(
                p * q - 1 - v,
                p,
                q - 1,
                p - 1 - v,
            );
        }
        self.digit = d;
    }

    /// Replaces this value by its bitwise AND with `other`: each bit of the
    /// result is set where it is set in both. `UnmatchingBitWidths`, with
    /// `self` untouched, where the widths differ.
    pub fn bitand_inplace(&mut self, other: &SmallApInt) -> (r: Result<(), Error>)
        requires
            old(self).wf(),
            other.wf(),
        ensures
            final(self).wf(),
            final(self).bits() == old(self).bits(),
            old(self).bits() != other.bits() ==> r is Err && r->Err_0@ == ErrorView::plain(
                ErrorKindView::UnmatchingBitWidths(old(self).bits(), other.bits()),
            ) && final(self).value() == old(self).value(),
            old(self).bits() == other.bits() ==> r is Ok && forall|pos: nat|
                pos < 64 ==> #[trigger] nat_bit(final(self).value(), pos) == (nat_bit(
                    old(self).value(),
                    pos,
                ) && nat_bit(other.value(), pos)),
    {
        match verify_common_width(self.len, other.len) {
            Err(e) => {
                return Err(e);
            },
            Ok(()) => {},
        }
        let x = self.digit.0;
        let y = other.digit.0;
        let mut d = self.digit;
        d.bitand_assign(other.digit);
        proof {
            assert forall|pos: nat| pos < 64 implies #[trigger] nat_bit((x & y) as nat, pos) == (
            nat_bit(x as nat, pos) && nat_bit(y as nat, pos)) by {
                crate::limbs::lemma_u64_bitwise(x, y, pos as u64);
            }
            assert(x & y <= x) by (bit_vector);
        }
        self.digit = d;
        Ok(())
    }

    /// Replaces this value by its bitwise OR with `other`: each bit of the
    /// result is set where it is set in either. `UnmatchingBitWidths`, with
    /// `self` untouched, where the widths differ.
    pub fn bitor_inplace(&mut self, other: &SmallApInt) -> (r: Result<(), Error>)
        requires
            old(self).wf(),
            other.wf(),
        ensures
            final(self).wf(),
            final(self).bits() == old(self).bits(),
            old(self).bits() != other.bits() ==> r is Err && r->Err_0@ == ErrorView::plain(
                ErrorKindView::UnmatchingBitWidths(old(self).bits(), other.bits()),
            ) && final(self).value() == old(self).value(),
            old(self).bits() == other.bits() ==> r is Ok && forall|pos: nat|
                pos < 64 ==> #[trigger] nat_bit(final(self).value(), pos) == (nat_bit(
                    old(self).value(),
                    pos,
                ) || nat_bit(other.value(), pos)),
    {
        match verify_common_width(self.len, other.len) {
            Err(e) => {
                return Err(e);
            },
            Ok(()) => {},
        }
        let x = self.digit.0;
        let y = other.digit.0;
        let width = self.len.to_usize();
        let mut d = self.digit;
        d.bitor_assign(other.digit);
        proof {
            assert forall|pos: nat| pos < 64 implies #[trigger] nat_bit((x | y) as nat, pos) == (
            nat_bit(x as nat, pos) || nat_bit(y as nat, pos)) by {
                crate::limbs::lemma_u64_bitwise(x, y, pos as u64);
            }
            lemma_word_below(x, y, width as u64);
        }
        self.digit = d;
        Ok(())
    }

    /// Replaces this value by its bitwise XOR with `other`: each bit of the
    /// result is set where it is set in one of the two only.
    /// `UnmatchingBitWidths`, with `self` untouched, where the widths
    /// differ.
    pub fn bitxor_inplace(&mut self, other: &SmallApInt) -> (r: Result<(), Error>)
        requires
            old(self).wf(),
            other.wf(),
        ensures
            final(self).wf(),
            final(self).bits() == old(self).bits(),
            old(self).bits() != other.bits() ==> r is Err && r->Err_0@ == ErrorView::plain(
                ErrorKindView::UnmatchingBitWidths(old(self).bits(), other.bits()),
            ) && final(self).value() == old(self).value(),
            old(self).bits() == other.bits() ==> r is Ok && forall|pos: nat|
                pos < 64 ==> #[trigger] nat_bit(final(self).value(), pos) == (nat_bit(
                    old(self).value(),
                    pos,
                ) != nat_bit(other.value(), pos)),
    {
        match verify_common_width(self.len, other.len) {
            Err(e) => {
                return Err(e);
            },
            Ok(()) => {},
        }
        let x = self.digit.0;
        let y = other.digit.0;
        let width = self.len.to_usize();
        let mut d = self.digit;
        d.bitxor_assign(other.digit);
        proof {
            assert forall|pos: nat| pos < 64 implies #[trigger] nat_bit((x ^ y) as nat, pos) == (
            nat_bit(x as nat, pos) != nat_bit(y as nat, pos)) by {
                crate::limbs::lemma_u64_bitwise(x, y, pos as u64);
            }
            lemma_word_below(x, y, width as u64);
        }
        self.digit = d;
        Ok(())
    }
}

/// Two words below `2^w` have their OR and their XOR below `2^w`.
pub proof fn lemma_word_below(x: u64, y: u64, w: u64)
    requires
        1 <= w <= 64,
        x < pow2(w as nat),
        y < pow2(w as nat),
    ensures
        (x | y) < pow2(w as nat),
        (x ^ y) < pow2(w as nat),
{
    lemma_pow2_64();
    if w < 64 {
        crate::digit::lemma_u64_bit(x, w);
        assert(x < (1u64 << w) && y < (1u64 << w) ==> (x | y) < (1u64 << w) && (x ^ y) < (1u64
            << w)) by (bit_vector)
            requires
                w < 64,
        ;
    }
}

/// The word `x` moved up by `inflate` bits and read as a signed word.
pub fn inflated_word(x: u64, inflate: usize) -> (r: i64)
    requires
        inflate < 64,
    ensures
        r == (if (x << inflate) >= 0x8000_0000_0000_0000u64 {
            (x << inflate) - 0x1_0000_0000_0000_0000
        } else {
            (x << inflate) as int
        }),
{
    let y = x << inflate;
    assert((y as i64) as int == (if y >= 0x8000_0000_0000_0000u64 {
        y - 0x1_0000_0000_0000_0000
    } else {
        y as int
    })) by (bit_vector);
    y as i64
}

/// A `w`-bit pattern moved to the top of a word and read as a signed word
/// is its signed reading times `2^(64 - w)`.
pub proof fn lemma_inflated(v: nat, w: nat)
    requires
        1 <= w <= 64,
        v < pow2(w),
    ensures
        ({
            let x = v as u64;
            let k = (64 - w) as u64;
            let moved = x << k;
            (if moved >= 0x8000_0000_0000_0000u64 {
                moved - 0x1_0000_0000_0000_0000
            } else {
                moved as int
            }) == signed_value(v, w) * pow2((64 - w) as nat)
        }),
        pow2((64 - w) as nat) > 0,
{
    lemma_pow2_64();
    let e = (64 - w) as nat;
    let x = v as u64;
    let p = pow2(w) as int;
    let q = pow2(e) as int;
    let h = pow2((w - 1) as nat) as int;
    lemma_pow2_adds(w, e);
    lemma_pow2_adds((w - 1) as nat, e);
    lemma_pow2_pos(e);
    lemma_pow2_half(w);
    assert(v * q < p * q) by (nonlinear_arith)
        requires
            v < p,
            q > 0,
    ;
    lemma_u64_shl_is_mul(x, e as u64);
    assert(h * q == 0x8000_0000_0000_0000) by (nonlinear_arith)
        requires
            p * q == 0x1_0000_0000_0000_0000,
            p == 2 * h,
    ;
    if v >= h {
        assert(v * q >= h * q) by (nonlinear_arith)
            requires
                v >= h,
                q > 0,
        ;
        assert((v - p) * q == v * q - p * q) by (nonlinear_arith);
    } else {
        assert(v * q < h * q) by (nonlinear_arith)
            requires
                v < h,
                q > 0,
        ;
    }
}

} // verus!
