use apint::apint::serialization::bit_budget;
use apint::apint::serialization::LB_2_36_I3F13;
use apint::ApInt;
use apint::BitWidth;
use apint::Error;
use apint::Radix;
use std::ops::Mul;

#[test]
fn test_lb_2_36_i3f13() {
    for (i, c) in LB_2_36_I3F13.iter().enumerate() {
        assert_eq!(*c, ((i + 2) as f64).log2().mul((1 << 13) as f64).ceil() as u16);
    }
}

fn assert_binary(val: ApInt, expected: &str) {
    assert_eq!(val.to_binary_string(), expected)
}

#[test]
fn serialization_small() {
    assert_binary(ApInt::zero(BitWidth::w32()), "0");
    assert_binary(ApInt::from(0b_1010_0110_0110_1001_u32), "1010011001101001");
    assert_binary(
        ApInt::all_set(BitWidth::w32()),
        "11111111111111111111111111111111", // 32 ones
    );
    assert_binary(
        ApInt::signed_min_value(BitWidth::w32()),
        "10000000000000000000000000000000", // 31 zeros
    );
    assert_binary(
        ApInt::signed_max_value(BitWidth::w32()),
        "1111111111111111111111111111111", // 31 ones
    );
}

#[test]
fn serialization_large() {
    assert_binary(ApInt::zero(BitWidth::w128()), "0");
    assert_binary(ApInt::from(0b_1010_0110_0110_1001_u128), "1010011001101001");
    assert_binary(
        ApInt::all_set(BitWidth::w128()),
        "11111111111111111111111111111111\
         11111111111111111111111111111111\
         11111111111111111111111111111111\
         11111111111111111111111111111111",
    );
    assert_binary(
        ApInt::signed_min_value(BitWidth::w128()),
        "10000000000000000000000000000000\
         00000000000000000000000000000000\
         00000000000000000000000000000000\
         00000000000000000000000000000000",
    );
    assert_binary(
        ApInt::signed_max_value(BitWidth::w128()),
        "1111111111111111111111111111111\
         11111111111111111111111111111111\
         11111111111111111111111111111111\
         11111111111111111111111111111111",
    );
}

fn assert_hex(val: ApInt, expected: &str) {
    assert_eq!(val.to_lower_hex_string(), expected.to_lowercase());
    assert_eq!(val.to_upper_hex_string(), expected.to_uppercase())
}

#[test]
fn hex_small() {
    assert_hex(ApInt::zero(BitWidth::w32()), "0");
    assert_hex(ApInt::from(0xFEDC_BA98_u32), "FEDCBA98");
    assert_hex(ApInt::all_set(BitWidth::w32()), "FFFFFFFF");
    assert_hex(ApInt::signed_min_value(BitWidth::w32()), "80000000");
    assert_hex(ApInt::signed_max_value(BitWidth::w32()), "7FFFFFFF");
}

#[test]
fn hex_large() {
    assert_hex(ApInt::zero(BitWidth::w128()), "0");
    assert_hex(ApInt::from(0xFEDC_BA98_0A1B_7654_ABCD_0123_u128), "FEDCBA980A1B7654ABCD0123");
    assert_hex(ApInt::all_set(BitWidth::w128()), "FFFFFFFFFFFFFFFFFFFFFFFFFFFFFFFF");
    assert_hex(
        ApInt::signed_min_value(BitWidth::w128()),
        "80000000000000000000000000000000",
    );
    assert_hex(
        ApInt::signed_max_value(BitWidth::w128()),
        "7FFFFFFFFFFFFFFFFFFFFFFFFFFFFFFF",
    );
}

fn test_radices() -> Vec<Radix> {
    [2, 4, 8, 16, 32, 7, 10, 36].iter().map(|&r| Radix::new(r).unwrap()).collect()
}

#[test]
fn empty() {
    for radix in test_radices() {
        assert_eq!(
            ApInt::from_str_radix(radix, ""),
            Err(Error::invalid_string_repr("", radix)
                .with_annotation("Cannot parse an empty string into an ApInt."))
        )
    }
}

#[test]
fn starts_with_underscore() {
    for radix in test_radices() {
        for &input in &["_0", "_123", "__", "_1_0"] {
            assert_eq!(
                ApInt::from_str_radix(radix, input),
                Err(Error::invalid_string_repr(input, radix).with_annotation(
                    "The input string starts with an underscore ('_') instead \
                     of a number. The use of underscores is explicitely for \
                     separation of digits."
                ))
            )
        }
    }
}

#[test]
fn ends_with_underscore() {
    for radix in test_radices() {
        for &input in &["0_", "123_", "1_0_"] {
            assert_eq!(
                ApInt::from_str_radix(radix, input),
                Err(Error::invalid_string_repr(input, radix).with_annotation(
                    "The input string ends with an underscore ('_') instead of \
                     a number. The use of underscores is explicitely for \
                     separation of digits."
                ))
            )
        }
    }
}

#[test]
fn zero() {
    for radix in test_radices() {
        assert_eq!(
            ApInt::from_str_radix(radix, "0"),
            Ok(ApInt::zero(BitWidth::new(64).unwrap()))
        )
    }
}

#[test]
fn small_values() {
    let samples = vec![
        // (Radix, Input String, Expected ApInt)
        (2, "0", 0),
        (8, "0", 0),
        (10, "0", 0),
        (16, "0", 0),
        (2, "1", 1),
        (8, "1", 1),
        (10, "1", 1),
        (16, "1", 1),
        (2, "10", 2),
        (8, "10", 8),
        (10, "10", 10),
        (16, "10", 16),
        (2, "11", 3),
        (8, "11", 9),
        (10, "11", 11),
        (16, "11", 17),
        (2, "1001_0011", 0b1001_0011),
        (2, "0001_0001_0001_0001", 0x1111),
        (2, "0101_0101_0101_0101", 0x5555),
        (2, "1010_1010_1010_1010", 0xAAAA),
        (2, "1111_1111_1111_1111", 0xFFFF),
        (
            2,
            "1111_1111_1111_1111\
             1111_1111_1111_1111\
             1111_1111_1111_1111\
             1111_1111_1111_1111",
            u64::max_value(),
        ),
        (8, "7654_3210", 0o7654_3210),
        (8, "0123_4567", 0o0123_4567),
        (8, "777_747_666", 0o777_747_666),
        (8, "111", 0b0100_1001),
        (8, "7_7777_7777_7777_7777_7777", u64::max_value() / 2),
        (10, "100", 100),
        (10, "42", 42),
        (10, "1337", 1337),
        (10, "5_000_000", 5_000_000),
        (16, "100", 0x100),
        (16, "42", 0x42),
        (16, "1337", 0x1337),
        (16, "1111", 0x1111),
        (16, "5555", 0x5555),
        (16, "FFFF", 0xFFFF),
        (16, "0123_4567_89AB_CDEF", 0x0123_4567_89AB_CDEF),
        (16, "FEDC_BA98_7654_3210", 0xFEDC_BA98_7654_3210),
    ];
    for sample in &samples {
        let radix = Radix::new(sample.0).unwrap();
        let input = sample.1;
        let result = ApInt::from_str_radix(radix, input).unwrap();
        let expected = ApInt::from_u64(sample.2);
        assert_eq!(result, expected)
    }
}

#[test]
fn invalid_characters_are_located() {
    let binary = Radix::new(2).unwrap();
    assert_eq!(
        ApInt::from_str_radix(binary, "01020"),
        Err(Error::invalid_char_in_string_repr("01020", binary, 3, '2'))
    );
    let hex = Radix::new(16).unwrap();
    assert_eq!(
        ApInt::from_str_radix(hex, "hello"),
        Err(Error::invalid_char_in_string_repr("hello", hex, 0, 'h'))
    );
    let decimal = Radix::new(10).unwrap();
    assert_eq!(
        ApInt::from_str_radix(decimal, "1_2 3"),
        Err(Error::invalid_char_in_string_repr("1_2 3", decimal, 3, ' '))
    );
    assert_eq!(
        ApInt::from_str_radix(decimal, "12a"),
        Err(Error::invalid_char_in_string_repr("12a", decimal, 2, 'a'))
    );
}

#[test]
fn letters_of_either_case_are_digits() {
    let radix = Radix::new(36).unwrap();
    assert_eq!(ApInt::from_str_radix(radix, "Zz").unwrap(), ApInt::from_u64(35 * 36 + 35));
    assert_eq!(ApInt::from_str_radix(radix, "a0").unwrap(), ApInt::from_u64(360));
}

#[test]
fn wide_values_in_every_radix() {
    let value: u128 = 0xFEDC_BA98_7654_3210_0123_4567_89AB_CDEF;
    let a = ApInt::from_u128(value);
    assert_eq!(
        ApInt::from_str_radix(Radix::new(16).unwrap(), "FEDC_BA98_7654_3210_0123_4567_89AB_CDEF"),
        Ok(a.clone())
    );
    assert_eq!(
        ApInt::from_str_radix(Radix::new(10).unwrap(), "338770000845734292516042252062085074415"),
        Ok(a.clone())
    );
    // 43 octal digits are 129 bits, which take three digits
    assert_eq!(
        ApInt::from_str_radix(
            Radix::new(8).unwrap(),
            "3766_7135_2303_5452_0620_4000_4432_1263_6115_2746_757"
        ),
        Ok(a.with_width(BitWidth::new(192).unwrap()))
    );
    assert_eq!(a.to_decimal_string(), "338770000845734292516042252062085074415");
    assert_eq!(a.to_octal_string(), "3766713523035452062040004432126361152746757");
    assert_eq!(
        a.to_string_radix(Radix::new(16).unwrap()),
        "FEDCBA98765432100123456789ABCDEF"
    );
    assert_eq!(a.to_string_radix(Radix::new(36).unwrap()), radix36(value));
}

fn radix36(mut v: u128) -> String {
    let mut digits = Vec::new();
    loop {
        let d = (v % 36) as u8;
        digits.push(if d < 10 { (b'0' + d) as char } else { (b'A' + d - 10) as char });
        v /= 36;
        if v == 0 {
            break;
        }
    }
    digits.iter().rev().collect()
}

#[test]
fn nineteen_decimal_digits_fit_one_digit() {
    let decimal = Radix::new(10).unwrap();
    assert_eq!(
        ApInt::from_str_radix(decimal, "9_999_999_999_999_999_999").unwrap(),
        ApInt::from_u64(9_999_999_999_999_999_999)
    );
    assert_eq!(
        ApInt::from_str_radix(decimal, "18_446_744_073_709_551_615").unwrap(),
        ApInt::from_u64(u64::MAX)
    );
    assert_eq!(
        ApInt::from_str_radix(decimal, "18_446_744_073_709_551_616").unwrap(),
        ApInt::from_u128(1 << 64)
    );
}

#[test]
fn octal_digits_spill_into_the_next_digit() {
    let octal = Radix::new(8).unwrap();
    assert_eq!(
        ApInt::from_str_radix(octal, "17_7777_7777_7777_7777_7777").unwrap(),
        ApInt::from_u128(u64::MAX as u128)
    );
}

#[test]
fn target_width_is_kept_or_the_value_is_rejected() {
    let decimal = Radix::new(10).unwrap();
    assert_eq!(
        ApInt::from_str_radix_with_width(decimal, "256", BitWidth::w8()),
        Err(Error::value_exceeds_bitwidth(9, 8))
    );
    assert_eq!(
        ApInt::from_str_radix_with_width(decimal, "255", BitWidth::w8()),
        Ok(ApInt::from_u8(255))
    );
    assert_eq!(
        ApInt::from_str_radix_with_width(decimal, "42", BitWidth::w128()),
        Ok(ApInt::from_u128(42))
    );
    assert_eq!(
        ApInt::from_str_radix_with_width(Radix::new(2).unwrap(), "1001_0011", BitWidth::w8()),
        Ok(ApInt::from_u8(0b1001_0011))
    );
    assert_eq!(
        ApInt::from_str_radix_with_width(decimal, "", BitWidth::w8()),
        Err(Error::invalid_string_repr("", decimal)
            .with_annotation("Cannot parse an empty string into an ApInt."))
    );
}

#[test]
fn parsing_inverts_formatting() {
    let values = [
        ApInt::zero(BitWidth::new(77).unwrap()),
        ApInt::from_u8(1),
        ApInt::from_u32(0xDEAD_BEEF),
        ApInt::from_u128(0xFEDC_BA98_7654_3210_0123_4567_89AB_CDEF),
        ApInt::signed_min_value(BitWidth::new(200).unwrap()),
        ApInt::all_set(BitWidth::new(65).unwrap()),
    ];
    for radix in [2u8, 3, 8, 10, 16, 32, 36] {
        let radix = Radix::new(radix).unwrap();
        for v in &values {
            let text = v.to_string_radix(radix);
            assert_eq!(ApInt::from_str_radix_with_width(radix, &text, v.width()), Ok(v.clone()));
        }
    }
}

#[test]
fn bit_budget_never_underestimates() {
    let decimal = Radix::new(10).unwrap();
    assert_eq!(bit_budget(decimal, 9), Some(33));
    assert_eq!(bit_budget(Radix::new(2).unwrap(), 64), Some(65));
    assert_eq!(bit_budget(Radix::new(36).unwrap(), usize::MAX), None);
}

#[test]
fn format_scenarios() {
    let hex = Radix::new(16).unwrap();
    let binary = Radix::new(2).unwrap();
    assert_eq!(
        ApInt::from_u128(0xFEDC_BA98_0A1B_7654_ABCD_0123).to_string_radix(hex),
        "FEDCBA980A1B7654ABCD0123"
    );
    assert_eq!(
        ApInt::signed_min_value(BitWidth::w32()).to_string_radix(binary),
        "10000000000000000000000000000000"
    );
    assert_eq!(ApInt::all_set(BitWidth::w32()).to_string_radix(hex), "FFFFFFFF");
    assert_eq!(ApInt::zero(BitWidth::w128()).to_string_radix(Radix::new(7).unwrap()), "0");
    assert_eq!(ApInt::from_u64(1 << 63).to_octal_string(), "1000000000000000000000");
    assert_eq!(ApInt::from_u8(255).to_string_radix(Radix::new(4).unwrap()), "3333");
}
