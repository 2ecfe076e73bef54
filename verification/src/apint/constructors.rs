use crate::apint::ApInt;
use crate::apint::ApIntData;
use crate::bitwidth::BitWidth;
use crate::bitwidth::required_digits;
use crate::digit::Digit;
use crate::digit::lemma_pow2_64;
use crate::limbs::lemma_limbs_all_set;
use crate::limbs::lemma_limbs_bound;
use crate::limbs::lemma_limbs_push;
use crate::limbs::lemma_limbs_single;
use crate::limbs::lemma_limbs_zero;
use crate::limbs::lemma_weight;
use crate::limbs::limbs_value;
use crate::limbs::weight;
use crate::storage::Storage;
use vstd::arithmetic::div_mod::lemma_fundamental_div_mod_converse;
use vstd::arithmetic::div_mod::lemma_small_mod;
use vstd::arithmetic::power2::lemma_pow2_adds;
use vstd::arithmetic::power2::lemma_pow2_pos;
use vstd::arithmetic::power2::lemma_pow2_strictly_increases;
use vstd::arithmetic::power2::pow2;
use vstd::prelude::*;

verus! {

/// `2^w - 1` is what is left of `2^(w + e) - 1` modulo `2^w`.
pub proof fn lemma_all_set_mod(w: nat, e: nat)
    ensures
        (pow2(w + e) - 1) % (pow2(w) as int) == pow2(w) - 1,
{
    lemma_pow2_adds(w, e);
    lemma_pow2_pos(w);
    lemma_pow2_pos(e);
    let p = pow2(w) as int;
    let q = pow2(e) as int;
    assert(p * q - 1 == p * (q - 1) + (p - 1)) by (nonlinear_arith);
    lemma_fundamental_div_mod_converse(p * q - 1, p, q - 1, p - 1);
}

impl ApInt {
    /// The value of the given width in which every digit is `digit`, cut to
    /// the width.
    pub(crate) fn repeat_digit(width: BitWidth, digit: Digit) -> (r: ApInt)
        requires
            width.wf(),
        ensures
            r.wf(),
            r.spec_width() == width,
            exists|s: Seq<Digit>|
                s.len() == required_digits(width.bits()) && (forall|i: int|
                    0 <= i < s.len() ==> #[trigger] s[i] == digit) && r@.value == limbs_value(s)
                    % pow2(width.bits()),
    {
        let n = width.required_blocks();
        let mut r = match width.storage() {
            Storage::Inl => ApInt { len: width, data: ApIntData::Inl(digit) },
            Storage::Ext => {
                let mut v: Vec<Digit> = Vec::with_capacity(n);
                let mut i: usize = 0;
                while i < n
                    invariant
                        i <= n,
                        v.len() == i,
                        forall|k: int| 0 <= k < i ==> v[k] == digit,
                    decreases n - i,
                {
                    v.push(digit);
                    i += 1;
                }
                ApInt { len: width, data: ApIntData::Ext(v) }
            },
        };
        let ghost s = r.digits();
        r.clear_unused_bits();
        r
    }

    /// The value 0 of the given width.
    pub fn zero(width: BitWidth) -> (r: ApInt)
        requires
            width.wf(),
        ensures
            r.wf(),
            r.spec_width() == width,
            r@.value == 0,
    {
        let r = ApInt::repeat_digit(width, Digit::zero());
        proof {
            let s = choose|s: Seq<Digit>|
                s.len() == required_digits(width.bits()) && (forall|i: int|
                    0 <= i < s.len() ==> #[trigger] s[i] == Digit(0)) && r@.value == limbs_value(s)
                    % pow2(width.bits());
            lemma_limbs_zero(s);
            lemma_pow2_pos(width.bits());
            lemma_small_mod(0, pow2(width.bits()));
        }
        r
    }

    /// The value 1 of the given width.
    pub fn one(width: BitWidth) -> (r: ApInt)
        requires
            width.wf(),
        ensures
            r.wf(),
            r.spec_width() == width,
            r@.value == 1,
    {
        let mut r = ApInt::zero(width);
        let ghost before = r.digits();
        match &mut r.data {
            ApIntData::Inl(d) => {
                *d = Digit::one();
            },
            ApIntData::Ext(v) => {
                v[0] = Digit::one();
            },
        }
        proof {
            crate::limbs::lemma_limbs_update(before, 0, Digit(1));
            lemma_weight(0);
            assert(r.digits() =~= before.update(0, Digit(1)));
            crate::limbs::lemma_limbs_zero_converse(before);
            lemma_pow2_64();
            if width.bits() > 1 {
                lemma_pow2_strictly_increases(1, width.bits());
            }
            lemma_pow2_strictly_increases(0, width.bits());
        }
        r
    }

    /// The value of the given width with every bit set: `2^width - 1`.
    pub fn all_set(width: BitWidth) -> (r: ApInt)
        requires
            width.wf(),
        ensures
            r.wf(),
            r.spec_width() == width,
            r@.value == pow2(width.bits()) - 1,
    {
        let r = ApInt::repeat_digit(width, Digit::all_set());
        proof {
            let w = width.bits();
            let s = choose|s: Seq<Digit>|
                s.len() == required_digits(w) && (forall|i: int|
                    0 <= i < s.len() ==> #[trigger] s[i] == Digit(u64::MAX)) && r@.value
                    == limbs_value(s) % pow2(w);
            lemma_limbs_all_set(s);
            let e = (64 * s.len() - w) as nat;
            assert(w + e == 64 * s.len());
            lemma_all_set_mod(w, e);
        }
        r
    }

    /// The value of width 64 times the number of digits that is spelled by
    /// the digits `digits`, the least significant first.
    pub fn from_digit_vec(digits: Vec<Digit>) -> (r: ApInt)
        requires
            1 <= digits@.len(),
            64 * digits@.len() <= usize::MAX,
        ensures
            r.wf(),
            r@.width == 64 * digits@.len(),
            r@.value == limbs_value(digits@),
            r.digits() == digits@,
    {
        let n = digits.len();
        proof {
            lemma_limbs_bound(digits@);
        }
        let len = match BitWidth::new(n * 64) {
            Ok(w) => w,
            Err(_) => unreached(),
        };
        if n == 1 {
            let d = digits[0];
            proof {
                assert(digits@ =~= seq![d]);
            }
            ApInt { len, data: ApIntData::Inl(d) }
        } else {
            ApInt { len, data: ApIntData::Ext(digits) }
        }
    }

    /// The 8-bit value `val`.
    pub fn from_u8(val: u8) -> (r: ApInt)
        ensures
            r.wf(),
            r@.width == 8,
            r@.value == val,
    {
        proof {
            lemma_limbs_single(Digit(val as u64));
            vstd::arithmetic::power2::lemma2_to64();
        }
        ApInt { len: BitWidth::w8(), data: ApIntData::Inl(Digit(val as u64)) }
    }

    /// The 16-bit value `val`.
    pub fn from_u16(val: u16) -> (r: ApInt)
        ensures
            r.wf(),
            r@.width == 16,
            r@.value == val,
    {
        proof {
            lemma_limbs_single(Digit(val as u64));
            vstd::arithmetic::power2::lemma2_to64();
        }
        ApInt { len: BitWidth::w16(), data: ApIntData::Inl(Digit(val as u64)) }
    }

    /// The 32-bit value `val`.
    pub fn from_u32(val: u32) -> (r: ApInt)
        ensures
            r.wf(),
            r@.width == 32,
            r@.value == val,
    {
        proof {
            lemma_limbs_single(Digit(val as u64));
            vstd::arithmetic::power2::lemma2_to64();
        }
        ApInt { len: BitWidth::w32(), data: ApIntData::Inl(Digit(val as u64)) }
    }

    /// The 64-bit value `val`.
    pub fn from_u64(val: u64) -> (r: ApInt)
        ensures
            r.wf(),
            r@.width == 64,
            r@.value == val,
    {
        proof {
            lemma_limbs_single(Digit(val));
            lemma_pow2_64();
        }
        ApInt { len: BitWidth::w64(), data: ApIntData::Inl(Digit(val)) }
    }

    /// The 128-bit value `val`.
    pub fn from_u128(val: u128) -> (r: ApInt)
        ensures
            r.wf(),
            r@.width == 128,
            r@.value == val,
    {
        assert(val == (val >> 64) * 0x1_0000_0000_0000_0000 + (val & 0xFFFF_FFFF_FFFF_FFFF))
            by (bit_vector);
        assert((val & 0xFFFF_FFFF_FFFF_FFFF) <= 0xFFFF_FFFF_FFFF_FFFF) by (bit_vector);
        assert((val >> 64) <= 0xFFFF_FFFF_FFFF_FFFF) by (bit_vector);
        let lo = Digit((val & 0xFFFF_FFFF_FFFF_FFFF) as u64);
        let hi = Digit((val >> 64) as u64);
        let mut v: Vec<Digit> = Vec::with_capacity(2);
        v.push(lo);
        v.push(hi);
        proof {
            lemma_limbs_single(lo);
            assert(v@ =~= seq![lo].push(hi));
            lemma_limbs_push(seq![lo], hi);
            lemma_weight(0);
            lemma_weight(1);
            lemma_limbs_bound(v@);
            assert(weight(2) == pow2(128));
        }
        ApInt { len: BitWidth::w128(), data: ApIntData::Ext(v) }
    }

    /// The 8-bit value with the bits of `val`: `val` itself where it is not
    /// negative, and `val + 2^8` where it is.
    pub fn from_i8(val: i8) -> (r: ApInt)
        ensures
            r.wf(),
            r@.width == 8,
            r@.value == (if val >= 0 {
                val as int
            } else {
                val + 0x100
            }),
    {
        assert((val as u8) as int == (if val >= 0 {
            val as int
        } else {
            val + 0x100
        })) by (bit_vector);
        ApInt::from_u8(val as u8)
    }

    /// The 16-bit value with the bits of `val`: `val` itself where it is not
    /// negative, and `val + 2^16` where it is.
    pub fn from_i16(val: i16) -> (r: ApInt)
        ensures
            r.wf(),
            r@.width == 16,
            r@.value == (if val >= 0 {
                val as int
            } else {
                val + 0x1_0000
            }),
    {
        assert((val as u16) as int == (if val >= 0 {
            val as int
        } else {
            val + 0x1_0000
        })) by (bit_vector);
        ApInt::from_u16(val as u16)
    }

    /// The 32-bit value with the bits of `val`: `val` itself where it is not
    /// negative, and `val + 2^32` where it is.
    pub fn from_i32(val: i32) -> (r: ApInt)
        ensures
            r.wf(),
            r@.width == 32,
            r@.value == (if val >= 0 {
                val as int
            } else {
                val + 0x1_0000_0000
            }),
    {
        assert((val as u32) as int == (if val >= 0 {
            val as int
        } else {
            val + 0x1_0000_0000
        })) by (bit_vector);
        ApInt::from_u32(val as u32)
    }

    /// The 64-bit value with the bits of `val`: `val` itself where it is not
    /// negative, and `val + 2^64` where it is.
    pub fn from_i64(val: i64) -> (r: ApInt)
        ensures
            r.wf(),
            r@.width == 64,
            r@.value == (if val >= 0 {
                val as int
            } else {
                val + 0x1_0000_0000_0000_0000
            }),
    {
        assert((val as u64) as int == (if val >= 0 {
            val as int
        } else {
            val + 0x1_0000_0000_0000_0000
        })) by (bit_vector);
        ApInt::from_u64(val as u64)
    }

    /// The 128-bit value with the bits of `val`: `val` itself where it is
    /// not negative, and `val + 2^128` where it is.
    pub fn from_i128(val: i128) -> (r: ApInt)
        ensures
            r.wf(),
            r@.width == 128,
            r@.value == (if val >= 0 {
                val as int
            } else {
                val + 0x1_0000_0000_0000_0000_0000_0000_0000_0000
            }),
    {
        assert((val as u128) as int == (if val >= 0 {
            val as int
        } else {
            val + 0x1_0000_0000_0000_0000_0000_0000_0000_0000
        })) by (bit_vector);
        ApInt::from_u128(val as u128)
    }
}

} // verus!
