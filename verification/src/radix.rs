use crate::errors::Error;
use crate::errors::ErrorKindView;
use crate::errors::ErrorView;
use crate::text::radix_pow;
use vstd::prelude::*;

verus! {

/// The base of a string representation: an integer from 2 to 36.
#[derive(Debug, Clone, Copy, PartialEq, Eq, Structural, Hash)]
pub struct Radix(u8);

/// The smallest radix: binary.
pub const RADIX_MIN: u8 = 2;

/// The largest radix: the ten numerals and the 26 letters.
pub const RADIX_MAX: u8 = 36;

/// Whether `r` is one of 2, 4, 8, 16, 32: the powers of two among the radices.
pub open spec fn is_pow2_radix(r: nat) -> bool {
    r == 2 || r == 4 || r == 8 || r == 16 || r == 32
}

/// The binary logarithm of a radix that is a power of two.
pub open spec fn log2_radix(r: nat) -> nat {
    if r == 2 {
        1
    } else if r == 4 {
        2
    } else if r == 8 {
        3
    } else if r == 16 {
        4
    } else {
        5
    }
}

impl Radix {
    /// The radix as a natural number.
    pub closed spec fn value(self) -> nat {
        self.0 as nat
    }

    /// A radix is valid when it lies between 2 and 36.
    pub open spec fn wf(self) -> bool {
        2 <= self.value() <= 36
    }

    /// Creates a radix; a value outside 2 to 36 is rejected.
    pub fn new(radix: u8) -> (r: Result<Radix, Error>)
        ensures
            2 <= radix <= 36 ==> r is Ok && r->Ok_0.value() == radix && r->Ok_0.wf(),
            !(2 <= radix <= 36) ==> r is Err && r->Err_0@ == ErrorView::plain(
                ErrorKindView::InvalidRadix(radix as nat),
            ),
    {
        if !(RADIX_MIN <= radix && radix <= RADIX_MAX) {
            return Err(Error::invalid_radix(radix));
        }
        Ok(Radix(radix))
    }

    /// The radix 2.
    pub fn binary() -> (r: Radix)
        ensures
            r.wf(),
            r.value() == 2,
    {
        Radix(2)
    }

    /// The radix 8.
    pub fn octal() -> (r: Radix)
        ensures
            r.wf(),
            r.value() == 8,
    {
        Radix(8)
    }

    /// The radix 10.
    pub fn decimal() -> (r: Radix)
        ensures
            r.wf(),
            r.value() == 10,
    {
        Radix(10)
    }

    /// The radix 16.
    pub fn hexadecimal() -> (r: Radix)
        ensures
            r.wf(),
            r.value() == 16,
    {
        Radix(16)
    }

    /// The radix as a `u8`.
    pub fn to_u8(self) -> (r: u8)
        ensures
            r == self.value(),
    {
        self.0
    }

    /// Whether `byte`, a digit value and not a character code, is a digit of
    /// this radix.
    pub fn is_valid_byte(self, byte: u8) -> (r: bool)
        ensures
            r == (byte < self.value()),
    {
        byte < self.0
    }

    /// Whether this radix is a power of two.
    pub fn is_power_of_two(self) -> (r: bool)
        requires
            self.wf(),
        ensures
            r == is_pow2_radix(self.value()),
    {
        let v = self.0;
        v == 2 || v == 4 || v == 8 || v == 16 || v == 32
    }

    /// The number of bits that one digit of this radix stands for, where the
    /// radix is a power of two.
    pub fn bits_per_digit(self) -> (r: usize)
        requires
            self.wf(),
            is_pow2_radix(self.value()),
        ensures
            r == log2_radix(self.value()),
            1 <= r <= 5,
    {
        let v = self.0;
        if v == 2 {
            1
        } else if v == 4 {
            2
        } else if v == 8 {
            3
        } else if v == 16 {
            4
        } else {
            5
        }
    }

    /// The number of bits per digit where this radix is a power of two, and
    /// `None` where it is not.
    pub fn exact_bits_per_digit(self) -> (r: Option<usize>)
        requires
            self.wf(),
        ensures
            is_pow2_radix(self.value()) ==> r == Some(log2_radix(self.value()) as usize),
            !is_pow2_radix(self.value()) ==> r is None,
    {
        if self.is_power_of_two() {
            Some(self.bits_per_digit())
        } else {
            None
        }
    }
}

impl Radix {
    /// The largest power of this radix that fits in a digit, together with
    /// its exponent: the pair `(r^p, p)` for the largest `p` with
    /// `r^p < 2^64`.
    pub fn get_radix_base(self) -> (r: (u64, usize))
        requires
            self.wf(),
        ensures
            r.0 == radix_pow(self.value(), r.1 as nat),
            r.1 >= 1,
            r.1 <= 64,
            r.0 <= u64::MAX < r.0 * self.value(),
    {
        let radix = self.0 as u64;
        let limit: u64 = 0xFFFF_FFFF_FFFF_FFFF / radix;
        let mut base: u64 = radix;
        let mut power: usize = 1;
        proof {
            crate::text::lemma_radix_pow_one(self.value());
            crate::digit::lemma_pow2_64();
            // the limit is the largest multiplier that does not overflow
            vstd::arithmetic::div_mod::lemma_fundamental_div_mod(0xFFFF_FFFF_FFFF_FFFF, radix as int);
            vstd::arithmetic::div_mod::lemma_mod_bound(0xFFFF_FFFF_FFFF_FFFF, radix as int);
        }
        while base <= limit
            invariant
                2 <= radix <= 36,
                radix == self.value(),
                limit == 0xFFFF_FFFF_FFFF_FFFFu64 / radix,
                0xFFFF_FFFF_FFFF_FFFF == radix * limit + 0xFFFF_FFFF_FFFF_FFFFu64 % radix,
                0xFFFF_FFFF_FFFF_FFFFu64 % radix < radix,
                base == radix_pow(self.value(), power as nat),
                1 <= power <= 64,
                base >= 1,
                pow2_at_least(base, power),
            decreases 0xFFFF_FFFF_FFFF_FFFF - base,
        {
            proof {
                assert(base * radix <= 0xFFFF_FFFF_FFFF_FFFF) by (nonlinear_arith)
                    requires
                        base <= limit,
                        0xFFFF_FFFF_FFFF_FFFF == radix * limit + 0xFFFF_FFFF_FFFF_FFFFu64 % radix,
                        0xFFFF_FFFF_FFFF_FFFFu64 % radix >= 0,
                        radix >= 0,
                ;
                assert(base * radix >= base * 2) by (nonlinear_arith)
                    requires
                        radix >= 2,
                        base >= 0,
                ;
                lemma_pow2_at_least_step(base, power, radix);
            }
            base = base * radix;
            power = power + 1;
        }
        proof {
            assert(base * radix > 0xFFFF_FFFF_FFFF_FFFF) by (nonlinear_arith)
                requires
                    base >= limit + 1,
                    0xFFFF_FFFF_FFFF_FFFF == radix * limit + 0xFFFF_FFFF_FFFF_FFFFu64 % radix,
                    0xFFFF_FFFF_FFFF_FFFFu64 % radix < radix,
                    radix >= 0,
            ;
        }
        (base, power)
    }
}

/// Whether `base` is at least `2^power`, for a power of at most 64.
pub open spec fn pow2_at_least(base: u64, power: usize) -> bool {
    power <= 64 && base >= vstd::arithmetic::power2::pow2(power as nat)
}

/// Multiplying by a radix of at least 2 keeps a base that fits in a digit
/// at least as large as the next power of two, so the exponent stays below
/// 64.
pub proof fn lemma_pow2_at_least_step(base: u64, power: usize, radix: u64)
    requires
        pow2_at_least(base, power),
        radix >= 2,
        base * radix <= u64::MAX,
    ensures
        power < 64,
        base * radix >= vstd::arithmetic::power2::pow2((power + 1) as nat),
{
    crate::digit::lemma_pow2_64();
    vstd::arithmetic::power2::lemma_pow2_unfold((power + 1) as nat);
    assert(base * radix >= base * 2) by (nonlinear_arith)
        requires
            radix >= 2,
            base >= 0,
    ;
}

} // verus!
