use apint::ApInt;
use apint::BitWidth;
use apint::DivOp;
use apint::Error;

fn assert_symmetry(input: ApInt, expected: ApInt) {
    assert_eq!(input.clone().into_negate(), expected.clone());
    assert_eq!(expected.into_negate(), input);
}

fn test_vals() -> Vec<i128> {
    vec![
        0_i128, 1, 2, 4, 5, 7, 10, 42, 50, 100, 128, 150, 1337, 123123, 999999, 987432, 77216417,
    ]
}

#[test]
fn arithmetic_simple() {
    assert_symmetry(ApInt::zero(BitWidth::w1()), ApInt::zero(BitWidth::w1()));
    assert_symmetry(ApInt::one(BitWidth::w1()), ApInt::all_set(BitWidth::w1()));
}

#[test]
fn range() {
    for v in test_vals() {
        assert_symmetry(ApInt::from_i8(v as i8), ApInt::from_i8(-v as i8));
        assert_symmetry(ApInt::from_i16(v as i16), ApInt::from_i16(-v as i16));
        assert_symmetry(ApInt::from_i32(v as i32), ApInt::from_i32(-v as i32));
        assert_symmetry(ApInt::from_i64(v as i64), ApInt::from_i64(-v as i64));
        assert_symmetry(ApInt::from_i128(v), ApInt::from_i128(-v));
    }
}

#[test]
fn mul_simple() {
    let lhs = ApInt::from(11_u32);
    let rhs = ApInt::from(5_u32);
    let result = lhs.into_checked_mul(&rhs).unwrap();
    assert_eq!(result, ApInt::from(55_u32));
}

#[test]
fn udiv_simple() {
    let lhs = ApInt::from(56_u32);
    let rhs = ApInt::from(7_u32);
    let result = lhs.into_checked_udiv(&rhs).unwrap();
    assert_eq!(result, ApInt::from(8_u32));
}

#[test]
fn sdiv_simple() {
    let lhs = ApInt::from(72_i32);
    let rhs = ApInt::from(12_i32);
    let result = lhs.into_checked_sdiv(&rhs).unwrap();
    assert_eq!(result, ApInt::from(6_u32));
}

#[test]
fn arithmetic_with_neg() {
    let lhs = ApInt::from(72_i32);
    let rhs = ApInt::from(-12_i32);
    let result = lhs.into_checked_sdiv(&rhs).unwrap();
    assert_eq!(result, ApInt::from(-6_i32));
}

#[test]
fn urem_simple() {
    let lhs = ApInt::from(15_u32);
    let rhs = ApInt::from(4_u32);
    let result = lhs.into_checked_urem(&rhs).unwrap();
    assert_eq!(result, ApInt::from(3_u32));
}

#[test]
fn srem_simple() {
    let lhs = ApInt::from(23_i32);
    let rhs = ApInt::from(7_i32);
    let result = lhs.into_checked_srem(&rhs).unwrap();
    assert_eq!(result, ApInt::from(2_u32));
}

#[test]
fn srem_with_neg() {
    let lhs = ApInt::from(-23_i32);
    let rhs = ApInt::from(7_i32);
    let result = lhs.into_checked_srem(&rhs).unwrap();
    assert_eq!(result, ApInt::from(-2_i32));
}

#[test]
fn negate_of_extremes() {
    assert_eq!(ApInt::from_i8(127).into_negate(), ApInt::from_i8(-127));
    assert_eq!(ApInt::from_i8(-128).into_negate(), ApInt::from_i8(-128));
    assert_eq!(
        ApInt::signed_min_value(BitWidth::w128()).into_negate(),
        ApInt::signed_min_value(BitWidth::w128())
    );
}

#[test]
fn add_wraps_at_the_width() {
    let a = ApInt::from_u8(200);
    let b = ApInt::from_u8(100);
    assert_eq!(a.into_checked_add(&b).unwrap(), ApInt::from_u8(44));
    let a = ApInt::from_u128(u128::MAX);
    let b = ApInt::from_u128(2);
    assert_eq!(a.into_checked_add(&b).unwrap(), ApInt::from_u128(1));
    let a = ApInt::from_u128(0xFFFF_FFFF_FFFF_FFFF);
    let b = ApInt::from_u128(1);
    assert_eq!(a.into_checked_add(&b).unwrap(), ApInt::from_u128(0x1_0000_0000_0000_0000));
}

#[test]
fn sub_wraps_at_the_width() {
    let a = ApInt::from_u8(3);
    let b = ApInt::from_u8(5);
    assert_eq!(a.into_checked_sub(&b).unwrap(), ApInt::from_u8(254));
    let a = ApInt::from_u128(0x1_0000_0000_0000_0000);
    let b = ApInt::from_u128(1);
    assert_eq!(a.into_checked_sub(&b).unwrap(), ApInt::from_u128(0xFFFF_FFFF_FFFF_FFFF));
    let a = ApInt::from_u128(0);
    let b = ApInt::from_u128(1);
    assert_eq!(a.into_checked_sub(&b).unwrap(), ApInt::from_u128(u128::MAX));
}

#[test]
fn mul_of_wide_values() {
    let x: u128 = 0x0123_4567_89AB_CDEF_0011_2233_4455_6677;
    let y: u128 = 0xFEDC_BA98_7654_3210_8899_AABB_CCDD_EEFF;
    let result = ApInt::from_u128(x).into_checked_mul(&ApInt::from_u128(y)).unwrap();
    assert_eq!(result, ApInt::from_u128(x.wrapping_mul(y)));
    let result = ApInt::from_u8(16).into_checked_mul(&ApInt::from_u8(17)).unwrap();
    assert_eq!(result, ApInt::from_u8(16));
}

#[test]
fn division_of_wide_values() {
    let x: u128 = 0xFEDC_BA98_7654_3210_8899_AABB_CCDD_EEFF;
    let divisors: [u128; 5] = [1, 3, 0xFFFF_FFFF_FFFF_FFFF, 0x1_0000_0000_0000_0001, u128::MAX];
    for d in divisors {
        let q = ApInt::from_u128(x).into_checked_udiv(&ApInt::from_u128(d)).unwrap();
        let r = ApInt::from_u128(x).into_checked_urem(&ApInt::from_u128(d)).unwrap();
        assert_eq!(q, ApInt::from_u128(x / d));
        assert_eq!(r, ApInt::from_u128(x % d));
    }
}

#[test]
fn signed_division_of_wide_values() {
    let pairs: [(i128, i128); 6] = [
        (72, -12),
        (-72, 12),
        (-72, -12),
        (-23, 7),
        (23, -7),
        (i128::MIN, -1),
    ];
    for (a, b) in pairs {
        let q = ApInt::from_i128(a).into_checked_sdiv(&ApInt::from_i128(b)).unwrap();
        let r = ApInt::from_i128(a).into_checked_srem(&ApInt::from_i128(b)).unwrap();
        assert_eq!(q, ApInt::from_i128(a.wrapping_div(b)));
        assert_eq!(r, ApInt::from_i128(a.wrapping_rem(b)));
    }
    let q = ApInt::from_i8(-128).into_checked_sdiv(&ApInt::from_i8(-1)).unwrap();
    assert_eq!(q, ApInt::from_i8(-128));
}

#[test]
fn division_by_zero_is_an_error() {
    let dividend = ApInt::from_u32(9);
    let zero = ApInt::from_u32(0);
    assert_eq!(
        dividend.clone().into_checked_udiv(&zero),
        Err(Error::division_by_zero(DivOp::UnsignedDiv, dividend.clone()))
    );
    assert_eq!(
        dividend.clone().into_checked_sdiv(&zero),
        Err(Error::division_by_zero(DivOp::SignedDiv, dividend.clone()))
    );
    assert_eq!(
        dividend.clone().into_checked_urem(&zero),
        Err(Error::division_by_zero(DivOp::UnsignedRem, dividend.clone()))
    );
    assert_eq!(
        dividend.clone().into_checked_srem(&zero),
        Err(Error::division_by_zero(DivOp::SignedRem, dividend.clone()))
    );
}

#[test]
fn unmatching_widths_leave_the_operand_untouched() {
    let rhs = ApInt::from_u16(7);
    let expected = Err(Error::unmatching_bitwidths(32, 16));
    let mut a = ApInt::from_u32(1000);
    assert_eq!(a.checked_add_assign(&rhs), expected);
    assert_eq!(a, ApInt::from_u32(1000));
    assert_eq!(a.checked_sub_assign(&rhs), expected);
    assert_eq!(a, ApInt::from_u32(1000));
    assert_eq!(a.checked_mul_assign(&rhs), expected);
    assert_eq!(a, ApInt::from_u32(1000));
    assert_eq!(a.checked_udiv_assign(&rhs), expected);
    assert_eq!(a, ApInt::from_u32(1000));
    assert_eq!(a.checked_sdiv_assign(&rhs), expected);
    assert_eq!(a, ApInt::from_u32(1000));
    assert_eq!(a.checked_urem_assign(&rhs), expected);
    assert_eq!(a, ApInt::from_u32(1000));
    assert_eq!(a.checked_srem_assign(&rhs), expected);
    assert_eq!(a, ApInt::from_u32(1000));
    assert_eq!(a.checked_bitand_assign(&rhs), expected);
    assert_eq!(a.checked_bitor_assign(&rhs), expected);
    assert_eq!(a.checked_bitxor_assign(&rhs), expected);
    assert_eq!(a, ApInt::from_u32(1000));
}

#[test]
fn neutral_elements() {
    let w = BitWidth::new(100).unwrap();
    let a = ApInt::all_set(w).into_checked_lshr(3usize).unwrap();
    assert_eq!(a.clone().into_checked_add(&ApInt::zero(w)).unwrap(), a);
    assert_eq!(a.clone().into_checked_mul(&ApInt::one(w)).unwrap(), a);
    assert_eq!(a.clone().into_checked_udiv(&ApInt::one(w)).unwrap(), a);
}

#[test]
fn sub_is_add_of_the_negation() {
    let a = ApInt::from_u128(0x0123_4567_89AB_CDEF_0011_2233_4455_6677);
    let b = ApInt::from_u128(0xFEDC_BA98_7654_3210_8899_AABB_CCDD_EEFF);
    let direct = a.clone().into_checked_sub(&b).unwrap();
    let by_negation = a.into_checked_add(&b.into_negate()).unwrap();
    assert_eq!(direct, by_negation);
}

#[test]
fn negate_twice_is_the_identity() {
    for v in [0_i64, 1, -1, 77, i64::MIN, i64::MAX] {
        assert_eq!(ApInt::from_i64(v).into_negate().into_negate(), ApInt::from_i64(v));
    }
}

#[test]
fn operators_agree_with_the_checked_operations() {
    let x: u128 = 0x0123_4567_89AB_CDEF_0011_2233_4455_6677;
    let y: u128 = 0xFEDC_BA98_7654_3210_8899_AABB_CCDD_EEFF;
    let a = ApInt::from_u128(x);
    let b = ApInt::from_u128(y);
    assert_eq!(&a + &b, ApInt::from_u128(x.wrapping_add(y)));
    assert_eq!(&a - &b, ApInt::from_u128(x.wrapping_sub(y)));
    assert_eq!(&a * &b, ApInt::from_u128(x.wrapping_mul(y)));
    assert_eq!(a.clone() + &b, ApInt::from_u128(x.wrapping_add(y)));
    assert_eq!(a.clone() - &b, ApInt::from_u128(x.wrapping_sub(y)));
    assert_eq!(a.clone() * &b, ApInt::from_u128(x.wrapping_mul(y)));
    assert_eq!(-&a, ApInt::from_u128(x.wrapping_neg()));
    assert_eq!(-a.clone(), ApInt::from_u128(x.wrapping_neg()));
    let mut c = a.clone();
    c += &b;
    assert_eq!(c, ApInt::from_u128(x.wrapping_add(y)));
    c -= &b;
    assert_eq!(c, a);
    c *= &b;
    assert_eq!(c, ApInt::from_u128(x.wrapping_mul(y)));
    let mut d = a.clone();
    let _ = -&mut d;
    assert_eq!(d, ApInt::from_u128(x.wrapping_neg()));
}

#[test]
fn comparisons() {
    let minus_one = ApInt::from_i128(-1);
    let one = ApInt::from_i128(1);
    let wide = ApInt::from_u128(1 << 64);
    assert_eq!(one.checked_ult(&minus_one), Ok(true));
    assert_eq!(minus_one.checked_ult(&one), Ok(false));
    assert_eq!(minus_one.checked_slt(&one), Ok(true));
    assert_eq!(one.checked_slt(&minus_one), Ok(false));
    assert_eq!(one.checked_ult(&wide), Ok(true));
    assert_eq!(wide.checked_ult(&one), Ok(false));
    assert_eq!(wide.checked_slt(&wide), Ok(false));
    assert_eq!(ApInt::from_i8(-3).checked_slt(&ApInt::from_i8(-2)), Ok(true));
    assert_eq!(ApInt::from_i8(-3).checked_ult(&ApInt::from_i8(2)), Ok(false));
    assert_eq!(
        ApInt::from_u8(1).checked_ult(&ApInt::from_u16(1)),
        Err(Error::unmatching_bitwidths(8, 16))
    );
    assert_eq!(
        ApInt::from_u8(1).checked_slt(&ApInt::from_u16(1)),
        Err(Error::unmatching_bitwidths(8, 16))
    );
}

#[test]
fn values_of_the_library_are_well_formed() {
    assert!(ApInt::all_set(BitWidth::new(67).unwrap()).is_well_formed());
    assert!(ApInt::from_i8(-1).into_negate().is_well_formed());
    assert!(ApInt::from_u128(u128::MAX).into_checked_shl(127usize).unwrap().is_well_formed());
}

#[test]
fn increment_and_decrement() {
    let mut a = ApInt::from_u8(250);
    a.increment_by(10);
    assert_eq!(a, ApInt::from_u8(4));
    a.decrement_by(5);
    assert_eq!(a, ApInt::from_u8(255));
    a.increment_by(0x1FF);
    assert_eq!(a, ApInt::from_u8(254));
    let mut b = ApInt::from_u128(u64::MAX as u128);
    b.increment_by(1);
    assert_eq!(b, ApInt::from_u128(1 << 64));
    b.decrement_by(1);
    assert_eq!(b, ApInt::from_u128(u64::MAX as u128));
    let mut c = ApInt::zero(BitWidth::w128());
    c.decrement_by(1);
    assert_eq!(c, ApInt::all_set(BitWidth::w128()));
}
