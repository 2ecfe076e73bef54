use crate::digit::BITS;
use crate::errors::Error;
use crate::errors::ErrorKindView;
use crate::errors::ErrorView;
use crate::storage::Storage;
use vstd::prelude::*;

verus! {

/// The number of bits of a value: a positive integer.
#[derive(Debug, Clone, Copy, PartialEq, Eq, Structural, Hash)]
pub struct BitWidth(usize);

/// The number of digits that `bits` bits occupy: `ceil(bits / 64)`.
pub open spec fn required_digits(bits: nat) -> nat {
    (bits + 63) / 64
}

/// The number of bits used in the top digit, where 0 means that it is used
/// in full: `bits mod 64`.
pub open spec fn excess_bits(bits: nat) -> nat {
    bits % 64
}

impl BitWidth {
    /// The width as a natural number.
    pub closed spec fn bits(self) -> nat {
        self.0 as nat
    }

    /// A width is valid when it is positive.
    pub open spec fn wf(self) -> bool {
        1 <= self.bits() <= usize::MAX
    }

    /// Two widths with the same number of bits are the same width.
    pub proof fn lemma_bits_injective(a: BitWidth, b: BitWidth)
        requires
            a.bits() == b.bits(),
        ensures
            a == b,
    {
    }

    /// Creates a width of `width` bits. A width of zero is rejected.
    pub fn new(width: usize) -> (r: Result<BitWidth, Error>)
        ensures
            width == 0 ==> r is Err && r->Err_0@ == ErrorView::plain(
                ErrorKindView::InvalidBitWidth(0),
            ),
            width != 0 ==> r is Ok && r->Ok_0.bits() == width && r->Ok_0.wf(),
    {
        if width == 0 {
            return Err(Error::invalid_bitwidth(width));
        }
        Ok(BitWidth(width))
    }

    /// A width of 1 bit.
    pub fn w1() -> (r: BitWidth)
        ensures
            r.bits() == 1,
            r.wf(),
    {
        BitWidth(1)
    }

    /// A width of 8 bits.
    pub fn w8() -> (r: BitWidth)
        ensures
            r.bits() == 8,
            r.wf(),
    {
        BitWidth(8)
    }

    /// A width of 16 bits.
    pub fn w16() -> (r: BitWidth)
        ensures
            r.bits() == 16,
            r.wf(),
    {
        BitWidth(16)
    }

    /// A width of 32 bits.
    pub fn w32() -> (r: BitWidth)
        ensures
            r.bits() == 32,
            r.wf(),
    {
        BitWidth(32)
    }

    /// A width of 64 bits.
    pub fn w64() -> (r: BitWidth)
        ensures
            r.bits() == 64,
            r.wf(),
    {
        BitWidth(64)
    }

    /// A width of 128 bits.
    pub fn w128() -> (r: BitWidth)
        ensures
            r.bits() == 128,
            r.wf(),
    {
        BitWidth(128)
    }

    /// The width as a `usize`.
    pub fn to_usize(self) -> (r: usize)
        ensures
            r == self.bits(),
    {
        self.0
    }

    /// The number of bits used in the top digit; 0 means all of them.
    pub fn excess_bits(self) -> (r: usize)
        ensures
            r == excess_bits(self.bits()),
            r < 64,
    {
        self.0 % BITS
    }

    /// The number of digits that a value of this width occupies.
    pub fn required_blocks(self) -> (r: usize)
        requires
            self.wf(),
        ensures
            r == required_digits(self.bits()),
            r >= 1,
    {
        if self.0 % BITS == 0 {
            self.0 / BITS
        } else {
            self.0 / BITS + 1
        }
    }

    /// Whether a value of this width is held inline or on the heap.
    pub fn storage(self) -> (r: Storage)
        ensures
            r == (if self.bits() <= 64 {
                Storage::Inl
            } else {
                Storage::Ext
            }),
    {
        if self.0 <= BITS {
            Storage::Inl
        } else {
            Storage::Ext
        }
    }
}

} // verus!
