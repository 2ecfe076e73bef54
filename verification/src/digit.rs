use crate::errors::Error;
use crate::errors::ErrorKindView;
use crate::errors::ErrorView;
use crate::model::bit_length;
use crate::model::lemma_bit_length;
use vstd::arithmetic::div_mod::lemma_small_mod;
use vstd::arithmetic::power2::lemma2_to64;
use vstd::arithmetic::power2::lemma2_to64_rest;
use vstd::arithmetic::power2::lemma_pow2_pos;
use vstd::arithmetic::power2::lemma_pow2_strictly_increases;
use vstd::arithmetic::power2::pow2;
use vstd::bits::lemma_u64_low_bits_mask_is_mod;
use vstd::bits::lemma_u64_shl_is_mul;
use vstd::bits::lemma_u64_shr_is_div;
use vstd::bits::low_bits_mask;
use vstd::prelude::*;

verus! {

/// The number of bits of a digit.
pub const BITS: usize = 64;

/// The number of values of a digit, `2^64`.
pub open spec fn digit_base() -> nat {
    0x1_0000_0000_0000_0000
}

/// Whether bit `pos` of the natural number `v` is set.
pub open spec fn nat_bit(v: nat, pos: nat) -> bool {
    (v / pow2(pos)) % 2 == 1
}

/// `2^64` is the digit base, and powers of two below it fit in a digit.
pub proof fn lemma_pow2_64()
    ensures
        pow2(64) == digit_base(),
        pow2(0) == 1,
        pow2(1) == 2,
        pow2(63) == 0x8000_0000_0000_0000,
        forall|k: nat| k < 64 ==> 0 < #[trigger] pow2(k) <= 0x8000_0000_0000_0000,
{
    lemma2_to64();
    lemma2_to64_rest();
    assert forall|k: nat| k < 64 implies 0 < #[trigger] pow2(k) <= 0x8000_0000_0000_0000 by {
        lemma_pow2_pos(k);
        if k < 63 {
            lemma_pow2_strictly_increases(k, 63);
        }
    }
}

/// In a `u64`, `1 << pos` is `2^pos`, and testing a bit by shifting and
/// masking agrees with [`nat_bit`].
pub proof fn lemma_u64_bit(x: u64, pos: u64)
    requires
        pos < 64,
    ensures
        (1u64 << pos) == pow2(pos as nat),
        ((x >> pos) & 1 == 1) == nat_bit(x as nat, pos as nat),
        ((x >> pos) & 1 == 0) == !nat_bit(x as nat, pos as nat),
{
    lemma_pow2_64();
    assert(1 * pow2(pos as nat) <= u64::MAX);
    lemma_u64_shl_is_mul(1, pos);
    lemma_u64_shr_is_div(x, pos);
    let y = x >> pos;
    assert(y & 1 == y % 2) by (bit_vector);
}

/// A number with bit `pos` set is at least `2^pos`.
pub proof fn lemma_bit_at_least(v: nat, pos: nat)
    requires
        nat_bit(v, pos),
    ensures
        v >= pow2(pos),
{
    lemma_pow2_pos(pos);
    if v < pow2(pos) {
        vstd::arithmetic::div_mod::lemma_basic_div(v as int, pow2(pos) as int);
    }
}

/// A single bit.
#[derive(Debug, Clone, Copy, PartialEq, Eq, Structural, Hash)]
pub enum Bit {
    /// The bit is 0.
    Zero,
    /// The bit is 1.
    One,
}

impl Bit {
    /// The bit that stands for `b`.
    pub open spec fn of(b: bool) -> Bit {
        if b {
            Bit::One
        } else {
            Bit::Zero
        }
    }

    /// `true` for a set bit.
    pub fn to_bool(self) -> (r: bool)
        ensures
            self == Bit::of(r),
    {
        match self {
            Bit::One => true,
            Bit::Zero => false,
        }
    }

    /// The bit that stands for `b`.
    pub fn from_bool(b: bool) -> (r: Bit)
        ensures
            r == Bit::of(b),
    {
        if b {
            Bit::One
        } else {
            Bit::Zero
        }
    }
}

/// A machine word of 64 bits: one limb of a value.
#[derive(Debug, Clone, Copy, PartialEq, Eq, Structural, Hash)]
pub struct Digit(pub u64);

impl Digit {
    /// The digit 0.
    pub fn zero() -> (r: Digit)
        ensures
            r.0 == 0,
    {
        Digit(0)
    }

    /// The digit 1.
    pub fn one() -> (r: Digit)
        ensures
            r.0 == 1,
    {
        Digit(1)
    }

    /// The digit with all 64 bits set.
    pub fn all_set() -> (r: Digit)
        ensures
            r.0 == u64::MAX,
    {
        Digit(0xFFFF_FFFF_FFFF_FFFF)
    }

    /// The word that this digit holds.
    pub fn repr(self) -> (r: u64)
        ensures
            r == self.0,
    {
        self.0
    }

    /// Whether this digit is 0.
    pub fn is_zero(self) -> (r: bool)
        ensures
            r == (self.0 == 0),
    {
        self.0 == 0
    }

    /// Whether this digit is below `other`, both read as unsigned words.
    pub fn less_than(self, other: Digit) -> (r: bool)
        ensures
            r == (self.0 < other.0),
    {
        self.0 < other.0
    }

    /// The bit at position `pos`; `OutOfBounds` when `pos` is 64 or more.
    pub fn get(self, pos: usize) -> (r: Result<Bit, Error>)
        ensures
            pos >= 64 ==> r is Err && r->Err_0@ == ErrorView::plain(ErrorKindView::OutOfBounds),
            pos < 64 ==> r == Ok::<Bit, Error>(Bit::of(nat_bit(self.0 as nat, pos as nat))),
    {
        if pos >= BITS {
            return Err(Error::out_of_bounds());
        }
        proof {
            lemma_u64_bit(self.0, pos as u64);
        }
        if (self.0 >> pos) & 1 == 1 {
            Ok(Bit::One)
        } else {
            Ok(Bit::Zero)
        }
    }

    /// Sets the bit at position `pos`; `OutOfBounds` when `pos` is 64 or more.
    pub fn set(&mut self, pos: usize) -> (r: Result<(), Error>)
        ensures
            pos >= 64 ==> r is Err && r->Err_0@ == ErrorView::plain(ErrorKindView::OutOfBounds) && *final(self)
                == *old(self),
            pos < 64 ==> r is Ok && final(self).0 == (if nat_bit(old(self).0 as nat, pos as nat) {
                old(self).0 as int
            } else {
                old(self).0 + pow2(pos as nat)
            }),
    {
        if pos >= BITS {
            return Err(Error::out_of_bounds());
        }
        let x = self.0;
        proof {
            lemma_u64_bit(x, pos as u64);
            let p = pos as u64;
            assert((x >> p) & 1 == 1 ==> x | (1u64 << p) == x) by (bit_vector)
                requires
                    p < 64,
            ;
            assert((x >> p) & 1 == 0 ==> x | (1u64 << p) == x + (1u64 << p)) by (bit_vector)
                requires
                    p < 64,
            ;
        }
        self.0 = x | (1u64 << pos);
        Ok(())
    }

    /// Clears the bit at position `pos`; `OutOfBounds` when `pos` is 64 or more.
    pub fn unset(&mut self, pos: usize) -> (r: Result<(), Error>)
        ensures
            pos >= 64 ==> r is Err && r->Err_0@ == ErrorView::plain(ErrorKindView::OutOfBounds) && *final(self)
                == *old(self),
            pos < 64 ==> r is Ok && final(self).0 == (if nat_bit(old(self).0 as nat, pos as nat) {
                old(self).0 - pow2(pos as nat)
            } else {
                old(self).0 as int
            }),
    {
        if pos >= BITS {
            return Err(Error::out_of_bounds());
        }
        let x = self.0;
        proof {
            lemma_u64_bit(x, pos as u64);
            let p = pos as u64;
            assert((x >> p) & 1 == 0 ==> x & !(1u64 << p) == x) by (bit_vector)
                requires
                    p < 64,
            ;
            assert((x >> p) & 1 == 1 ==> x & !(1u64 << p) == x - (1u64 << p)) by (bit_vector)
                requires
                    p < 64,
            ;
        }
        self.0 = x & !(1u64 << pos);
        Ok(())
    }

    /// Inverts the bit at position `pos`; `OutOfBounds` when `pos` is 64 or more.
    pub fn flip(&mut self, pos: usize) -> (r: Result<(), Error>)
        ensures
            pos >= 64 ==> r is Err && r->Err_0@ == ErrorView::plain(ErrorKindView::OutOfBounds) && *final(self)
                == *old(self),
            pos < 64 ==> r is Ok && final(self).0 == (if nat_bit(old(self).0 as nat, pos as nat) {
                old(self).0 - pow2(pos as nat)
            } else {
                old(self).0 + pow2(pos as nat)
            }),
    {
        if pos >= BITS {
            return Err(Error::out_of_bounds());
        }
        let x = self.0;
        proof {
            lemma_u64_bit(x, pos as u64);
            let p = pos as u64;
            assert((x >> p) & 1 == 0 ==> x ^ (1u64 << p) == x + (1u64 << p)) by (bit_vector)
                requires
                    p < 64,
            ;
            assert((x >> p) & 1 == 1 ==> x ^ (1u64 << p) == x - (1u64 << p)) by (bit_vector)
                requires
                    p < 64,
            ;
        }
        self.0 = x ^ (1u64 << pos);
        Ok(())
    }

    /// The number of zero bits above the top bit that is set; 64 for the
    /// digit 0.
    pub fn leading_zeros(self) -> (r: u32)
        ensures
            r == 64 - bit_length(self.0 as nat),
    {
        let x = self.0;
        let r = x.leading_zeros();
        proof {
            vstd::std_specs::bits::axiom_u64_leading_zeros(x);
            lemma_pow2_64();
            if x == 0 {
            } else {
                let top = (63 - r) as u64;
                lemma_u64_bit(x, top);
                assert(nat_bit(x as nat, top as nat));
                lemma_bit_at_least(x as nat, top as nat);
                if r > 0 {
                    let cut = (64 - r) as u64;
                    lemma_u64_shr_is_div(x, cut);
                    lemma_pow2_pos(cut as nat);
                    vstd::arithmetic::div_mod::lemma_fundamental_div_mod(
                        x as int,
                        pow2(cut as nat) as int,
                    );
                    vstd::arithmetic::div_mod::lemma_mod_bound(x as int, pow2(cut as nat) as int);
                    assert(pow2(cut as nat) * 0 == 0);
                }
                lemma_bit_length(x as nat, (64 - r) as nat);
            }
        }
        r
    }

    /// Sets all 64 bits.
    pub fn set_all(&mut self)
        ensures
            final(self).0 == u64::MAX,
    {
        self.0 = 0xFFFF_FFFF_FFFF_FFFF;
    }

    /// Clears all 64 bits.
    pub fn unset_all(&mut self)
        ensures
            final(self).0 == 0,
    {
        self.0 = 0;
    }

    /// Inverts all 64 bits.
    pub fn flip_all(&mut self)
        ensures
            final(self).0 == u64::MAX - old(self).0,
    {
        self.not_inplace();
    }

    /// Keeps the lowest `n` bits and clears those at positions `n` and above;
    /// `OutOfBounds` when `n` is more than 64.
    pub fn retain_last_n(&mut self, n: usize) -> (r: Result<(), Error>)
        ensures
            n > 64 ==> r is Err && r->Err_0@ == ErrorView::plain(ErrorKindView::OutOfBounds) && *final(self) == *old(
                self,
            ),
            n <= 64 ==> r is Ok && final(self).0 == old(self).0 as nat % pow2(n as nat),
    {
        if n > BITS {
            return Err(Error::out_of_bounds());
        }
        let x = self.0;
        if n == BITS {
            proof {
                lemma_pow2_64();
                lemma_small_mod(x as nat, pow2(64));
            }
            return Ok(());
        }
        proof {
            lemma_pow2_64();
            lemma_u64_bit(x, n as u64);
            lemma_u64_low_bits_mask_is_mod(x, n as nat);
            assert(low_bits_mask(n as nat) == pow2(n as nat) - 1);
        }
        let mask: u64 = (1u64 << n) - 1;
        self.0 = x & mask;
        Ok(())
    }

    /// Inverts all 64 bits.
    pub fn not_inplace(&mut self)
        ensures
            final(self).0 == u64::MAX - old(self).0,
    {
        let x = self.0;
        assert(!x == 0xFFFF_FFFF_FFFF_FFFFu64 - x) by (bit_vector);
        self.0 = !x;
    }

    /// Replaces this digit by its bitwise AND with `rhs`.
    pub fn bitand_assign(&mut self, rhs: Digit)
        ensures
            final(self).0 == old(self).0 & rhs.0,
    {
        self.0 = self.0 & rhs.0;
    }

    /// Replaces this digit by its bitwise OR with `rhs`.
    pub fn bitor_assign(&mut self, rhs: Digit)
        ensures
            final(self).0 == old(self).0 | rhs.0,
    {
        self.0 = self.0 | rhs.0;
    }

    /// Replaces this digit by its bitwise XOR with `rhs`.
    pub fn bitxor_assign(&mut self, rhs: Digit)
        ensures
            final(self).0 == old(self).0 ^ rhs.0,
    {
        self.0 = self.0 ^ rhs.0;
    }
}

} // verus!
