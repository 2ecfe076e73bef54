use apint::ApInt;
use apint::Bit;
use apint::BitWidth;
use apint::Digit;
use apint::Error;

#[test]
fn bitnot_twice_is_the_identity() {
    let values = [
        ApInt::from_u8(0b1010_0101),
        ApInt::from_u128(0x0123_4567_89AB_CDEF_0011_2233_4455_6677),
        ApInt::one(BitWidth::new(65).unwrap()),
    ];
    for v in values {
        assert_eq!(v.clone().into_bitnot().into_bitnot(), v);
    }
}

#[test]
fn bitnot_inverts_within_the_width() {
    assert_eq!(ApInt::from_u8(0b1010_0101).into_bitnot(), ApInt::from_u8(0b0101_1010));
    assert_eq!(ApInt::zero(BitWidth::new(3).unwrap()).into_bitnot().to_binary_string(), "111");
    assert_eq!(
        ApInt::zero(BitWidth::new(70).unwrap()).into_bitnot(),
        ApInt::all_set(BitWidth::new(70).unwrap())
    );
}

#[test]
fn binary_bitwise_operations() {
    let x: u128 = 0x0123_4567_89AB_CDEF_0011_2233_4455_6677;
    let y: u128 = 0xFEDC_BA98_7654_3210_8899_AABB_CCDD_EEFF;
    let mut a = ApInt::from_u128(x);
    a.checked_bitand_assign(&ApInt::from_u128(y)).unwrap();
    assert_eq!(a, ApInt::from_u128(x & y));
    let mut a = ApInt::from_u128(x);
    a.checked_bitor_assign(&ApInt::from_u128(y)).unwrap();
    assert_eq!(a, ApInt::from_u128(x | y));
    let mut a = ApInt::from_u128(x);
    a.checked_bitxor_assign(&ApInt::from_u128(y)).unwrap();
    assert_eq!(a, ApInt::from_u128(x ^ y));
    let mut a = ApInt::from_u8(0b1100);
    a.checked_bitxor_assign(&ApInt::from_u8(0b1010)).unwrap();
    assert_eq!(a, ApInt::from_u8(0b0110));
}

#[test]
fn single_bit_access() {
    let mut a = ApInt::zero(BitWidth::new(100).unwrap());
    assert_eq!(a.get_bit_at(70), Ok(Bit::Zero));
    a.set_bit_at(70).unwrap();
    assert_eq!(a.get_bit_at(70), Ok(Bit::One));
    assert_eq!(a.get_bit_at(69), Ok(Bit::Zero));
    assert_eq!(a, ApInt::one(BitWidth::new(100).unwrap()).into_checked_shl(70usize).unwrap());
    a.set_bit_at(70).unwrap();
    assert_eq!(a.get_bit_at(70), Ok(Bit::One));
    a.flip_bit_at(3).unwrap();
    assert_eq!(a.get_bit_at(3), Ok(Bit::One));
    a.flip_bit_at(3).unwrap();
    a.unset_bit_at(70).unwrap();
    assert_eq!(a, ApInt::zero(BitWidth::new(100).unwrap()));
    a.unset_bit_at(70).unwrap();
    assert_eq!(a, ApInt::zero(BitWidth::new(100).unwrap()));
}

#[test]
fn bit_positions_at_or_above_the_width_are_rejected() {
    let mut a = ApInt::from_u16(9);
    let expected = Error::invalid_bit_access(16, 16);
    assert_eq!(a.get_bit_at(16), Err(expected.clone()));
    assert_eq!(a.set_bit_at(16), Err(expected.clone()));
    assert_eq!(a.unset_bit_at(16), Err(expected.clone()));
    assert_eq!(a.flip_bit_at(16), Err(expected));
    assert_eq!(a, ApInt::from_u16(9));
}

#[test]
fn signed_extremes() {
    assert_eq!(ApInt::signed_min_value(BitWidth::w8()), ApInt::from_i8(i8::MIN));
    assert_eq!(ApInt::signed_max_value(BitWidth::w8()), ApInt::from_i8(i8::MAX));
    assert_eq!(ApInt::signed_min_value(BitWidth::w64()), ApInt::from_i64(i64::MIN));
    assert_eq!(ApInt::signed_max_value(BitWidth::w64()), ApInt::from_i64(i64::MAX));
    assert_eq!(ApInt::signed_min_value(BitWidth::w128()), ApInt::from_i128(i128::MIN));
    assert_eq!(ApInt::signed_max_value(BitWidth::w128()), ApInt::from_i128(i128::MAX));
    assert_eq!(ApInt::signed_min_value(BitWidth::w1()), ApInt::one(BitWidth::w1()));
    assert_eq!(ApInt::signed_max_value(BitWidth::w1()), ApInt::zero(BitWidth::w1()));
}

#[test]
fn unused_bits_stay_clear() {
    let w = BitWidth::new(67).unwrap();
    let mut a = ApInt::all_set(w);
    let digits = a.as_digit_slice().to_vec();
    assert_eq!(digits, vec![Digit(u64::MAX), Digit(0b111)]);
    a.checked_add_assign(&ApInt::one(w)).unwrap();
    assert_eq!(a.as_digit_slice().to_vec(), vec![Digit(0), Digit(0)]);
    a.bitnot();
    assert_eq!(a.as_digit_slice().to_vec(), vec![Digit(u64::MAX), Digit(0b111)]);
    a.checked_shl_assign(66usize).unwrap();
    assert_eq!(a.as_digit_slice().to_vec(), vec![Digit(0), Digit(0b100)]);
    a.negate();
    assert_eq!(a.as_digit_slice().to_vec(), vec![Digit(0), Digit(0b100)]);
    let small = ApInt::all_set(BitWidth::new(5).unwrap());
    assert_eq!(small.as_digit_slice().to_vec(), vec![Digit(0b1_1111)]);
}

#[test]
fn clear_unused_bits_is_idempotent() {
    let mut a = ApInt::all_set(BitWidth::new(67).unwrap());
    a.clear_unused_bits();
    let once = a.clone();
    a.clear_unused_bits();
    assert_eq!(a, once);
    assert_eq!(a, ApInt::all_set(BitWidth::new(67).unwrap()));
}

#[test]
fn storage_follows_the_width() {
    assert_eq!(ApInt::zero(BitWidth::w64()).len_digits(), 1);
    assert_eq!(ApInt::zero(BitWidth::new(65).unwrap()).len_digits(), 2);
    assert_eq!(ApInt::zero(BitWidth::w128()).len_digits(), 2);
    assert_eq!(ApInt::zero(BitWidth::new(129).unwrap()).len_digits(), 3);
    assert_eq!(ApInt::zero(BitWidth::w64()).storage(), apint::Storage::Inl);
    assert_eq!(ApInt::zero(BitWidth::new(65).unwrap()).storage(), apint::Storage::Ext);
    assert_eq!(ApInt::zero(BitWidth::new(65).unwrap()).len_bits(), 65);
}

#[test]
fn equality_is_structural() {
    assert_ne!(ApInt::from_u8(1), ApInt::from_u16(1));
    assert_ne!(ApInt::from_u8(1), ApInt::from_u8(2));
    assert_eq!(ApInt::from_u8(1), ApInt::one(BitWidth::w8()));
    assert_ne!(ApInt::from_u128(1), ApInt::from_u128(1 << 64));
    assert!(ApInt::zero(BitWidth::w128()).is_zero());
    assert!(!ApInt::from_u128(1 << 64).is_zero());
    assert_eq!(ApInt::from_u128(1 << 100).most_significant_bit(), Bit::Zero);
    assert_eq!(ApInt::from_i128(-1).most_significant_bit(), Bit::One);
    assert_eq!(ApInt::from_u128(1 << 100).most_significant_digit(), Digit(1 << 36));
}

#[test]
fn all_bits_at_once() {
    let w = BitWidth::new(67).unwrap();
    let mut a = ApInt::one(w);
    a.set_all();
    assert_eq!(a, ApInt::all_set(w));
    a.unset_all();
    assert_eq!(a, ApInt::zero(w));
    a.flip_all();
    assert_eq!(a, ApInt::all_set(w));
    let mut b = ApInt::from_u8(0b1010_0000);
    b.flip_all();
    assert_eq!(b, ApInt::from_u8(0b0101_1111));
    b.set_all();
    assert_eq!(b, ApInt::from_u8(0xFF));
    b.unset_all();
    assert_eq!(b, ApInt::from_u8(0));
}

#[test]
fn width_changes_extend_with_zeros_or_cut() {
    let a = ApInt::from_u128(0xFEDC_BA98_7654_3210_0123_4567_89AB_CDEF);
    assert_eq!(a.with_width(BitWidth::w64()), ApInt::from_u64(0x0123_4567_89AB_CDEF));
    assert_eq!(a.with_width(BitWidth::w8()), ApInt::from_u8(0xEF));
    assert_eq!(a.with_width(BitWidth::w128()), a);
    let wide = a.with_width(BitWidth::new(200).unwrap());
    assert_eq!(wide.len_bits(), 200);
    assert_eq!(wide.with_width(BitWidth::w128()), a);
    assert_eq!(ApInt::from_u8(0xFF).with_width(BitWidth::new(3).unwrap()).to_binary_string(), "111");
    assert_eq!(ApInt::from_u8(0xFF).with_width(BitWidth::w128()), ApInt::from_u128(0xFF));
}

#[test]
fn number_of_bits() {
    assert_eq!(ApInt::zero(BitWidth::w128()).required_bits(), 0);
    assert_eq!(ApInt::one(BitWidth::w128()).required_bits(), 1);
    assert_eq!(ApInt::from_u128(1 << 64).required_bits(), 65);
    assert_eq!(ApInt::from_u128(u128::MAX).required_bits(), 128);
    assert_eq!(ApInt::from_u8(0b0010_0000).required_bits(), 6);
    assert_eq!(ApInt::from_u64(u64::MAX).required_bits(), 64);
    assert_eq!(Digit(0).leading_zeros(), 64);
    assert_eq!(Digit(1).leading_zeros(), 63);
    assert_eq!(Digit(u64::MAX).leading_zeros(), 0);
}
