use apint::ll::borrow_sub;
use apint::ll::carry_add;
use apint::ll::carry_mul_add;
use apint::small_apint::SmallApInt;
use apint::Bit;
use apint::BitWidth;
use apint::Digit;
use apint::Error;
use apint::Radix;
use apint::Storage;

#[test]
fn bitwidth_rejects_zero() {
    assert_eq!(BitWidth::new(0), Err(Error::invalid_bitwidth(0)));
    assert_eq!(BitWidth::new(1).unwrap().to_usize(), 1);
    assert_eq!(BitWidth::new(usize::MAX).unwrap().to_usize(), usize::MAX);
}

#[test]
fn bitwidth_queries() {
    let cases: [(usize, usize, usize, Storage); 6] = [
        (1, 1, 1, Storage::Inl),
        (63, 1, 63, Storage::Inl),
        (64, 1, 0, Storage::Inl),
        (65, 2, 1, Storage::Ext),
        (128, 2, 0, Storage::Ext),
        (129, 3, 1, Storage::Ext),
    ];
    for (bits, blocks, excess, storage) in cases {
        let w = BitWidth::new(bits).unwrap();
        assert_eq!(w.required_blocks(), blocks);
        assert_eq!(w.excess_bits(), excess);
        assert_eq!(w.storage(), storage);
    }
    assert_eq!(BitWidth::new(usize::MAX).unwrap().required_blocks(), usize::MAX / 64 + 1);
    assert_eq!(BitWidth::w1().to_usize() + BitWidth::w8().to_usize(), 9);
    assert_eq!(BitWidth::w16().to_usize() + BitWidth::w32().to_usize(), 48);
    assert_eq!(BitWidth::w64().to_usize() + BitWidth::w128().to_usize(), 192);
}

#[test]
fn radix_accepts_two_to_thirty_six() {
    assert_eq!(Radix::new(0), Err(Error::invalid_radix(0)));
    assert_eq!(Radix::new(1), Err(Error::invalid_radix(1)));
    assert_eq!(Radix::new(37), Err(Error::invalid_radix(37)));
    assert_eq!(Radix::new(255), Err(Error::invalid_radix(255)));
    for r in 2..=36u8 {
        assert_eq!(Radix::new(r).unwrap().to_u8(), r);
    }
}

#[test]
fn radix_queries() {
    let ten = Radix::new(10).unwrap();
    assert!(ten.is_valid_byte(9));
    assert!(!ten.is_valid_byte(10));
    assert!(!ten.is_valid_byte(255));
    assert!(!ten.is_power_of_two());
    assert_eq!(ten.exact_bits_per_digit(), None);
    assert_eq!(ten.get_radix_base(), (10_000_000_000_000_000_000, 19));
    for (r, bits) in [(2u8, 1usize), (4, 2), (8, 3), (16, 4), (32, 5)] {
        let radix = Radix::new(r).unwrap();
        assert!(radix.is_power_of_two());
        assert_eq!(radix.bits_per_digit(), bits);
        assert_eq!(radix.exact_bits_per_digit(), Some(bits));
    }
    assert_eq!(Radix::new(2).unwrap().get_radix_base(), (1 << 63, 63));
    assert_eq!(Radix::new(8).unwrap().get_radix_base(), (1 << 63, 21));
    assert_eq!(Radix::new(16).unwrap().get_radix_base(), (1 << 60, 15));
    assert_eq!(Radix::new(36).unwrap().get_radix_base(), (36u64.pow(12), 12));
    assert_eq!(Radix::new(7).unwrap().get_radix_base(), (7u64.pow(22), 22));
    assert_eq!(Radix::binary(), Radix::new(2).unwrap());
    assert_eq!(Radix::octal(), Radix::new(8).unwrap());
    assert_eq!(Radix::decimal(), Radix::new(10).unwrap());
    assert_eq!(Radix::hexadecimal(), Radix::new(16).unwrap());
}

#[test]
fn digit_carrying_add() {
    let mut carry = Digit(0);
    assert_eq!(carry_add(Digit(u64::MAX), Digit(1), &mut carry), Digit(0));
    assert_eq!(carry, Digit(1));
    assert_eq!(carry_add(Digit(u64::MAX), Digit(u64::MAX), &mut carry), Digit(u64::MAX));
    assert_eq!(carry, Digit(1));
    assert_eq!(carry_add(Digit(1), Digit(2), &mut carry), Digit(4));
    assert_eq!(carry, Digit(0));
}

#[test]
fn digit_borrowing_sub() {
    let mut borrow = Digit(0);
    assert_eq!(borrow_sub(Digit(0), Digit(1), &mut borrow), Digit(u64::MAX));
    assert_eq!(borrow, Digit(1));
    assert_eq!(borrow_sub(Digit(0), Digit(u64::MAX), &mut borrow), Digit(0));
    assert_eq!(borrow, Digit(1));
    assert_eq!(borrow_sub(Digit(5), Digit(2), &mut borrow), Digit(2));
    assert_eq!(borrow, Digit(0));
}

#[test]
fn digit_multiply_add() {
    let mut carry = Digit(7);
    let low = carry_mul_add(Digit(5), Digit(u64::MAX), Digit(u64::MAX), &mut carry);
    let expected = 5u128 + (u64::MAX as u128) * (u64::MAX as u128) + 7;
    assert_eq!(low, Digit(expected as u64));
    assert_eq!(carry, Digit((expected >> 64) as u64));
}

#[test]
fn digit_bit_access() {
    let mut d = Digit(0b1010);
    assert_eq!(d.get(1), Ok(Bit::One));
    assert_eq!(d.get(2), Ok(Bit::Zero));
    assert_eq!(d.get(64), Err(Error::out_of_bounds()));
    assert_eq!(d.set(0), Ok(()));
    assert_eq!(d, Digit(0b1011));
    assert_eq!(d.set(0), Ok(()));
    assert_eq!(d, Digit(0b1011));
    assert_eq!(d.unset(3), Ok(()));
    assert_eq!(d, Digit(0b0011));
    assert_eq!(d.flip(63), Ok(()));
    assert_eq!(d, Digit((1 << 63) | 0b11));
    assert_eq!(d.flip(63), Ok(()));
    assert_eq!(d, Digit(0b11));
    assert_eq!(d.set(64), Err(Error::out_of_bounds()));
    assert_eq!(d.unset(64), Err(Error::out_of_bounds()));
    assert_eq!(d.flip(64), Err(Error::out_of_bounds()));
    assert_eq!(d, Digit(0b11));
}

#[test]
fn digit_retain_and_bitwise() {
    let mut d = Digit(u64::MAX);
    assert_eq!(d.retain_last_n(64), Ok(()));
    assert_eq!(d, Digit(u64::MAX));
    assert_eq!(d.retain_last_n(65), Err(Error::out_of_bounds()));
    assert_eq!(d.retain_last_n(5), Ok(()));
    assert_eq!(d, Digit(0b1_1111));
    assert_eq!(d.retain_last_n(0), Ok(()));
    assert_eq!(d, Digit(0));
    d.not_inplace();
    assert_eq!(d, Digit(u64::MAX));
    d.bitand_assign(Digit(0b1100));
    assert_eq!(d, Digit(0b1100));
    d.bitor_assign(Digit(0b0011));
    assert_eq!(d, Digit(0b1111));
    d.bitxor_assign(Digit(0b0101));
    assert_eq!(d, Digit(0b1010));
    d.flip_all();
    assert_eq!(d, Digit(!0b1010));
    d.unset_all();
    assert!(d.is_zero());
    d.set_all();
    assert_eq!(d, Digit::all_set());
    assert!(Digit::zero().less_than(Digit::one()));
    assert_eq!(Digit::one().repr(), 1);
    assert_eq!(Bit::from_bool(true), Bit::One);
    assert!(!Bit::Zero.to_bool());
}

#[test]
fn small_values_compare() {
    let w = BitWidth::w8();
    let minus_one = SmallApInt::new(w, Digit(0xFF));
    let one = SmallApInt::one(w);
    let zero = SmallApInt::zero(w);
    assert_eq!(minus_one.ult(&one), Ok(false));
    assert_eq!(one.ult(&minus_one), Ok(true));
    assert_eq!(minus_one.slt(&one), Ok(true));
    assert_eq!(one.slt(&minus_one), Ok(false));
    assert_eq!(zero.slt(&one), Ok(true));
    assert_eq!(one.slt(&one), Ok(false));
    assert_eq!(minus_one.sign_bit(), Bit::One);
    assert_eq!(one.sign_bit(), Bit::Zero);
    let wide = SmallApInt::one(BitWidth::w16());
    assert_eq!(one.ult(&wide), Err(Error::unmatching_bitwidths(8, 16)));
    assert_eq!(one.slt(&wide), Err(Error::unmatching_bitwidths(8, 16)));
    let low = SmallApInt::new(BitWidth::w64(), Digit(1 << 63));
    let high = SmallApInt::new(BitWidth::w64(), Digit((1 << 63) - 1));
    assert_eq!(low.slt(&high), Ok(true));
    assert_eq!(low.ult(&high), Ok(false));
}

#[test]
fn small_values_change_bits() {
    let w = BitWidth::new(5).unwrap();
    let mut a = SmallApInt::new(w, Digit(0xFF));
    assert_eq!(a.digit(), Digit(0b1_1111));
    assert_eq!(a.width(), w);
    assert_eq!(a.get(4), Ok(Bit::One));
    assert_eq!(a.get(5), Err(Error::invalid_bit_access(5, 5)));
    assert_eq!(a.unset(4), Ok(()));
    assert_eq!(a.digit(), Digit(0b0_1111));
    assert_eq!(a.set(4), Ok(()));
    assert_eq!(a.flip(0), Ok(()));
    assert_eq!(a.digit(), Digit(0b1_1110));
    assert_eq!(a.set(5), Err(Error::invalid_bit_access(5, 5)));
    assert_eq!(a.unset(5), Err(Error::invalid_bit_access(5, 5)));
    assert_eq!(a.flip(5), Err(Error::invalid_bit_access(5, 5)));
    a.bitnot_inplace();
    assert_eq!(a.digit(), Digit(0b0_0001));
    a.flip_all();
    assert_eq!(a.digit(), Digit(0b1_1110));
    a.unset_all();
    assert_eq!(a.digit(), Digit(0));
    a.set_all();
    assert_eq!(a.digit(), Digit(0b1_1111));
    assert_eq!(a.bitand_inplace(&SmallApInt::new(w, Digit(0b0_1100))), Ok(()));
    assert_eq!(a.digit(), Digit(0b0_1100));
    assert_eq!(a.bitor_inplace(&SmallApInt::new(w, Digit(0b0_0011))), Ok(()));
    assert_eq!(a.digit(), Digit(0b0_1111));
    assert_eq!(a.bitxor_inplace(&SmallApInt::new(w, Digit(0b1_0101))), Ok(()));
    assert_eq!(a.digit(), Digit(0b1_1010));
}

#[test]
fn errors_carry_their_context() {
    let e = Error::invalid_shift_amount(9, 8).with_annotation("too far");
    assert_eq!(e.annotation(), &Some("too far".to_string()));
    assert_eq!(e.kind(), Error::invalid_shift_amount(9, 8).kind());
    assert_ne!(e, Error::invalid_shift_amount(9, 8));
    assert_ne!(Error::value_exceeds_bitwidth(9, 8), Error::invalid_bit_access(9, 8));
}
