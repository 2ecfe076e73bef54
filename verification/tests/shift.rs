use apint::ApInt;
use apint::BitWidth;
use apint::Error;
use apint::ShiftAmount;

#[test]
fn checked_shl_assign_ok() {
    let repr: u128 = 0x0123_4567_89AB_CDEF_0011_2233_4455_6677;
    let x = ApInt::from_u128(repr);
    for shamt in 0..128 {
        let expected = ApInt::from_u128(repr << shamt);
        let mut result = x.clone();
        result.checked_shl_assign(shamt).unwrap();
        assert_eq!(result, expected);
    }
}

#[test]
fn check_shl_assign_fail() {
    let mut x = ApInt::from_u128(0x0123_4567_89AB_CDEF_0011_2233_4455_6677);
    assert!(x.checked_shl_assign(128).is_err())
}

#[test]
fn shift_amount_steps() {
    assert_eq!(ShiftAmount::from(50).digit_steps(), 0);
    assert_eq!(ShiftAmount::from(64).digit_steps(), 1);
    assert_eq!(ShiftAmount::from(100).digit_steps(), 1);
    assert_eq!(ShiftAmount::from(150).digit_steps(), 2);
    assert_eq!(ShiftAmount::from(50).bit_steps(), 50);
    assert_eq!(ShiftAmount::from(64).bit_steps(), 0);
    assert_eq!(ShiftAmount::from(100).bit_steps(), 36);
    assert_eq!(ShiftAmount::from(150).bit_steps(), 22);
    assert_eq!(ShiftAmount::from(150).to_usize(), 150);
}

#[test]
fn lshr_of_wide_values() {
    let repr: u128 = 0xF123_4567_89AB_CDEF_0011_2233_4455_6677;
    for shamt in 0..128usize {
        let result = ApInt::from_u128(repr).into_checked_lshr(shamt).unwrap();
        assert_eq!(result, ApInt::from_u128(repr >> shamt));
    }
}

#[test]
fn ashr_of_wide_values() {
    let negative: i128 = -0x0123_4567_89AB_CDEF_0011_2233_4455_6677;
    let positive: i128 = 0x0123_4567_89AB_CDEF_0011_2233_4455_6677;
    for shamt in 0..128usize {
        let result = ApInt::from_i128(negative).into_checked_ashr(shamt).unwrap();
        assert_eq!(result, ApInt::from_i128(negative >> shamt));
        let result = ApInt::from_i128(positive).into_checked_ashr(shamt).unwrap();
        assert_eq!(result, ApInt::from_i128(positive >> shamt));
    }
}

#[test]
fn shifts_of_small_values() {
    for shamt in 0..8usize {
        assert_eq!(
            ApInt::from_u8(0b1011_0110).into_checked_shl(shamt).unwrap(),
            ApInt::from_u8(0b1011_0110 << shamt)
        );
        assert_eq!(
            ApInt::from_u8(0b1011_0110).into_checked_lshr(shamt).unwrap(),
            ApInt::from_u8(0b1011_0110 >> shamt)
        );
        assert_eq!(
            ApInt::from_i8(-74).into_checked_ashr(shamt).unwrap(),
            ApInt::from_i8(-74 >> shamt)
        );
    }
    for shamt in 0..64usize {
        assert_eq!(
            ApInt::from_u64(0x8123_4567_89AB_CDEF).into_checked_shl(shamt).unwrap(),
            ApInt::from_u64(0x8123_4567_89AB_CDEF << shamt)
        );
    }
}

#[test]
fn shift_by_the_width_is_rejected() {
    let expected = Err(Error::invalid_shift_amount(32, 32));
    let mut x = ApInt::from_u32(5);
    assert_eq!(x.checked_shl_assign(32usize), expected);
    assert_eq!(x, ApInt::from_u32(5));
    assert_eq!(x.checked_lshr_assign(32usize), expected);
    assert_eq!(x.checked_ashr_assign(32usize), expected);
    assert_eq!(x, ApInt::from_u32(5));
    assert_eq!(
        ApInt::from_u32(5).into_checked_shl(33usize),
        Err(Error::invalid_shift_amount(33, 32))
    );
}

#[test]
fn shl_by_zero_is_the_identity() {
    let w = BitWidth::new(70).unwrap();
    let a = ApInt::all_set(w);
    assert_eq!(a.clone().into_checked_shl(0usize).unwrap(), a);
}

#[test]
fn lshr_after_shl_clears_the_top_bits() {
    let repr: u128 = 0xF123_4567_89AB_CDEF_0011_2233_4455_6677;
    for shamt in 0..128usize {
        let there = ApInt::from_u128(repr).into_checked_shl(shamt).unwrap();
        let back = there.into_checked_lshr(shamt).unwrap();
        assert_eq!(back, ApInt::from_u128((repr << shamt) >> shamt));
    }
}
