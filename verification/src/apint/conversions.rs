//! Conversions from the primitive integers: a value of the width of the
//! type, with the bits of the integer.

use crate::apint::ApInt;
use vstd::prelude::*;
use vstd::std_specs::convert::FromSpecImpl;

verus! {

impl From<u8> for ApInt {
    /// The 8-bit value `val`.
    fn from(val: u8) -> (r: ApInt)
        ensures
            r.wf(),
            r@.width == 8,
            r@.value == val,
    {
        ApInt::from_u8(val)
    }
}

/// The conversion is specified by the contract of `from` alone.
impl FromSpecImpl<u8> for ApInt {
    open spec fn obeys_from_spec() -> bool {
        false
    }

    open spec fn from_spec(val: u8) -> ApInt {
        arbitrary()
    }
}

impl From<u16> for ApInt {
    /// The 16-bit value `val`.
    fn from(val: u16) -> (r: ApInt)
        ensures
            r.wf(),
            r@.width == 16,
            r@.value == val,
    {
        ApInt::from_u16(val)
    }
}

/// The conversion is specified by the contract of `from` alone.
impl FromSpecImpl<u16> for ApInt {
    open spec fn obeys_from_spec() -> bool {
        false
    }

    open spec fn from_spec(val: u16) -> ApInt {
        arbitrary()
    }
}

impl From<u32> for ApInt {
    /// The 32-bit value `val`.
    fn from(val: u32) -> (r: ApInt)
        ensures
            r.wf(),
            r@.width == 32,
            r@.value == val,
    {
        ApInt::from_u32(val)
    }
}

/// The conversion is specified by the contract of `from` alone.
impl FromSpecImpl<u32> for ApInt {
    open spec fn obeys_from_spec() -> bool {
        false
    }

    open spec fn from_spec(val: u32) -> ApInt {
        arbitrary()
    }
}

impl From<u64> for ApInt {
    /// The 64-bit value `val`.
    fn from(val: u64) -> (r: ApInt)
        ensures
            r.wf(),
            r@.width == 64,
            r@.value == val,
    {
        ApInt::from_u64(val)
    }
}

/// The conversion is specified by the contract of `from` alone.
impl FromSpecImpl<u64> for ApInt {
    open spec fn obeys_from_spec() -> bool {
        false
    }

    open spec fn from_spec(val: u64) -> ApInt {
        arbitrary()
    }
}

impl From<u128> for ApInt {
    /// The 128-bit value `val`.
    fn from(val: u128) -> (r: ApInt)
        ensures
            r.wf(),
            r@.width == 128,
            r@.value == val,
    {
        ApInt::from_u128(val)
    }
}

/// The conversion is specified by the contract of `from` alone.
impl FromSpecImpl<u128> for ApInt {
    open spec fn obeys_from_spec() -> bool {
        false
    }

    open spec fn from_spec(val: u128) -> ApInt {
        arbitrary()
    }
}

impl From<i8> for ApInt {
    /// The 8-bit value with the bits of `val` in two's complement.
    fn from(val: i8) -> (r: ApInt)
        ensures
            r.wf(),
            r@.width == 8,
            r@.value == (if val >= 0 {
                val as int
            } else {
                val + 0x100
            }),
    {
        ApInt::from_i8(val)
    }
}

/// The conversion is specified by the contract of `from` alone.
impl FromSpecImpl<i8> for ApInt {
    open spec fn obeys_from_spec() -> bool {
        false
    }

    open spec fn from_spec(val: i8) -> ApInt {
        arbitrary()
    }
}

impl From<i16> for ApInt {
    /// The 16-bit value with the bits of `val` in two's complement.
    fn from(val: i16) -> (r: ApInt)
        ensures
            r.wf(),
            r@.width == 16,
            r@.value == (if val >= 0 {
                val as int
            } else {
                val + 0x1_0000
            }),
    {
        ApInt::from_i16(val)
    }
}

/// The conversion is specified by the contract of `from` alone.
impl FromSpecImpl<i16> for ApInt {
    open spec fn obeys_from_spec() -> bool {
        false
    }

    open spec fn from_spec(val: i16) -> ApInt {
        arbitrary()
    }
}

impl From<i32> for ApInt {
    /// The 32-bit value with the bits of `val` in two's complement.
    fn from(val: i32) -> (r: ApInt)
        ensures
            r.wf(),
            r@.width == 32,
            r@.value == (if val >= 0 {
                val as int
            } else {
                val + 0x1_0000_0000
            }),
    {
        ApInt::from_i32(val)
    }
}

/// The conversion is specified by the contract of `from` alone.
impl FromSpecImpl<i32> for ApInt {
    open spec fn obeys_from_spec() -> bool {
        false
    }

    open spec fn from_spec(val: i32) -> ApInt {
        arbitrary()
    }
}

impl From<i64> for ApInt {
    /// The 64-bit value with the bits of `val` in two's complement.
    fn from(val: i64) -> (r: ApInt)
        ensures
            r.wf(),
            r@.width == 64,
            r@.value == (if val >= 0 {
                val as int
            } else {
                val + 0x1_0000_0000_0000_0000
            }),
    {
        ApInt::from_i64(val)
    }
}

/// The conversion is specified by the contract of `from` alone.
impl FromSpecImpl<i64> for ApInt {
    open spec fn obeys_from_spec() -> bool {
        false
    }

    open spec fn from_spec(val: i64) -> ApInt {
        arbitrary()
    }
}

impl From<i128> for ApInt {
    /// The 128-bit value with the bits of `val` in two's complement.
    fn from(val: i128) -> (r: ApInt)
        ensures
            r.wf(),
            r@.width == 128,
            r@.value == (if val >= 0 {
                val as int
            } else {
                val + 0x1_0000_0000_0000_0000_0000_0000_0000_0000
            }),
    {
        ApInt::from_i128(val)
    }
}

/// The conversion is specified by the contract of `from` alone.
impl FromSpecImpl<i128> for ApInt {
    open spec fn obeys_from_spec() -> bool {
        false
    }

    open spec fn from_spec(val: i128) -> ApInt {
        arbitrary()
    }
}

} // verus!
