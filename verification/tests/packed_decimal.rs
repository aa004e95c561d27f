use s21_decimal::ops::DecimalError;
use s21_decimal::{BitStr, Bits, S21Decimal};

#[test]
fn decimal_default() {
    assert_eq!(
        S21Decimal {
            bits: Default::default()
        },
        S21Decimal::default()
    );
}

#[test]
fn decimal_from_int_pos() {
    assert_eq!(S21Decimal { bits: [1, 0, 0, 0] }, S21Decimal::from(1));
}

#[test]
fn decimal_from_int_neg() {
    let decimal = S21Decimal::from(-1);
    assert_eq!(1, decimal.bits[0]);
    assert_eq!(true, decimal.is_negative());
}

#[test]
fn decimal_from_bitstr() {
    let bstr = BitStr::default();

    assert_eq!(S21Decimal::default(), S21Decimal::from_bitstr(&bstr));
}

#[test]
fn decimal_into_bstr() {
    let decimal = S21Decimal::default();

    assert_eq!(BitStr::default(), decimal.to_bitstr());
}

#[test]
fn decimal_from_str_radix_base_10_num_45() {
    let decimal = S21Decimal::from_str_radix("45", 10);

    assert_eq!(S21Decimal::from(45), decimal);
}

#[test]
fn decimal_add_left_right_pos_scale_28() {
    let l = S21Decimal::new(1, 28); // 1e-28
    let r = S21Decimal::new(1, 28); // 1e-28

    /* 1e-28 + 1e-28 = 2e-28 */
    assert_eq!(S21Decimal::new(2, 28), l.add(&r).unwrap());
}

#[test]
fn decimal_add_zeroes() {
    let l = S21Decimal::from_str_radix("0", 10);
    let r = S21Decimal::from_str_radix("0", 10);
    assert_eq!(S21Decimal::from_str_radix("0", 10), l.add(&r).unwrap());
}

#[test]
fn decimal_add_ones() {
    let l = S21Decimal::from_str_radix("1", 10);
    let r = S21Decimal::from_str_radix("1", 10);
    assert_eq!(S21Decimal::from_str_radix("2", 10), l.add(&r).unwrap());
}

#[test]
fn decimal_add_left_neg_scale_3() {
    let l = S21Decimal::from_str_radix("-0.005", 10);
    let r = S21Decimal::from_str_radix("5", 10);
    assert_eq!(S21Decimal::from_str_radix("4.995", 10), l.add(&r).unwrap());
}

#[test]
fn decimal_add_right_neg_scale_3() {
    let l = S21Decimal::from_str_radix("5", 10);
    let r = S21Decimal::from_str_radix("-0.005", 10);
    assert_eq!(S21Decimal::from_str_radix("4.995", 10), l.add(&r).unwrap());
}

#[test]
fn decimal_add_left_right_scale_5() {
    let l = S21Decimal::from_str_radix("0.00005", 10);
    let r = S21Decimal::from_str_radix("0.00005", 10);
    assert_eq!(
        S21Decimal::from_str_radix("0.00010", 10),
        l.add(&r).unwrap()
    );
}

#[test]
fn decimal_add_left_neg_10_right_5() {
    let l = S21Decimal::from_str_radix("-10", 10);
    let r = S21Decimal::from_str_radix("5", 10);
    assert_eq!(S21Decimal::from_str_radix("-5", 10), l.add(&r).unwrap());
}

#[test]
fn decimal_add_left_neg_10_right_neg_5() {
    let l = S21Decimal::from_str_radix("-10", 10);
    let r = S21Decimal::from_str_radix("-5", 10);
    assert_eq!(S21Decimal::from_str_radix("-15", 10), l.add(&r).unwrap());
}

#[test]
fn decimal_add_left_large_right_one() {
    let l = S21Decimal::from_str_radix("8_700_600_500_400_300_200_100", 10);
    let r = S21Decimal::from_str_radix("1", 10);
    assert_eq!(
        S21Decimal::from_str_radix("8_700_600_500_400_300_200_101", 10),
        l.add(&r).unwrap()
    );
}

#[test]
fn decimal_add_left_large_neg_right_one() {
    let l = S21Decimal::from_str_radix("-8_700_600_500_400_300_200_100", 10);
    let r = S21Decimal::from_str_radix("1", 10);
    assert_eq!(
        S21Decimal::from_str_radix("-8_700_600_500_400_300_200_099", 10),
        l.add(&r).unwrap()
    );
}

#[test]
fn decimal_add_left_max_right_neg_one() {
    let l = S21Decimal::from_str_radix("79_228_162_514_264_337_593_543_950_335", 10);
    let r = S21Decimal::from_str_radix("-1", 10);
    assert_eq!(
        S21Decimal::from_str_radix("79_228_162_514_264_337_593_543_950_334", 10),
        l.add(&r).unwrap()
    );
}

#[test]
fn decimal_add_left_max_right_one_overflows() {
    let l = S21Decimal::from_str_radix("79_228_162_514_264_337_593_543_950_335", 10);
    let r = S21Decimal::from_str_radix("1", 10);
    assert_eq!(Err(DecimalError::Overflow), l.add(&r));
}

#[test]
fn decimal_add_left_max_scale_28_right_one_overflows() {
    let l = S21Decimal::from_str_radix("7.9_228_162_514_264_337_593_543_950_335", 10);
    let r = S21Decimal::from_str_radix("1", 10);
    assert_eq!(Err(DecimalError::Overflow), l.add(&r));
}

#[test]
fn decimal_add_left_one_right_max_overflows() {
    let l = S21Decimal::from_str_radix("1", 10);
    let r = S21Decimal::from_str_radix("79_228_162_514_264_337_593_543_950_335", 10);
    assert_eq!(Err(DecimalError::Overflow), l.add(&r));
}

#[test]
fn decimal_add_left_min_right_neg_one_underflows() {
    let l = S21Decimal::from_str_radix("-79_228_162_514_264_337_593_543_950_335", 10);
    let r = S21Decimal::from_str_radix("-1", 10);
    assert_eq!(Err(DecimalError::Underflow), l.add(&r));
}

#[test]
fn decimal_add_left_neg_one_right_min_underflows() {
    let l = S21Decimal::from_str_radix("-1", 10);
    let r = S21Decimal::from_str_radix("-79_228_162_514_264_337_593_543_950_335", 10);
    assert_eq!(Err(DecimalError::Underflow), l.add(&r));
}

#[test]
fn decimal_add_commutes_on_same_signs() {
    let a = S21Decimal::from_str_radix("12.75", 10);
    let b = S21Decimal::from_str_radix("0.125", 10);
    assert_eq!(a.add(&b).unwrap(), b.add(&a).unwrap());

    let c = S21Decimal::from_str_radix("-3.5", 10);
    let d = S21Decimal::from_str_radix("-1.25", 10);
    assert_eq!(c.add(&d).unwrap(), d.add(&c).unwrap());
}

#[test]
fn decimal_add_inverse_gives_canonical_zero() {
    let a = S21Decimal::from_str_radix("12.75", 10);
    let b = S21Decimal::from_str_radix("-12.75", 10);
    let zero = a.add(&b).unwrap();
    assert_eq!(S21Decimal::default(), zero);
    assert_eq!(0, zero.scale());
}

#[test]
fn decimal_is_max_and_is_min() {
    let max = S21Decimal::from_str_radix("79_228_162_514_264_337_593_543_950_335", 10);
    assert!(max.is_max());
    assert!(!max.is_min());

    let min = S21Decimal::from_str_radix("-79_228_162_514_264_337_593_543_950_335", 10);
    assert!(min.is_min());
    assert!(!min.is_max());

    assert!(!S21Decimal::default().is_max());
}

#[test]
fn decimal_scale_and_sign_accessors() {
    let d = S21Decimal::from_str_radix("-4.995", 10);
    assert_eq!(3, d.scale());
    assert_eq!(true, d.is_negative());
    assert_eq!(false, S21Decimal::from(7).is_negative());
}

#[test]
fn decimal_normalize_raises_scale() {
    let mut d = S21Decimal::from(5);
    d.normalize(3);
    assert_eq!(S21Decimal::from_str_radix("5.000", 10), d);
}

#[test]
fn bits_of_words() {
    assert_eq!("00000000000000000000000000000000", 0u32.bits());
    assert_eq!("00000000000000000000000000101101", 45u32.bits());
    assert_eq!("11111111111111111111111111111111", u32::MAX.bits());
}
