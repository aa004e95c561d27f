use s21_decimal::{BitStr, DecStr, Sign};

#[test]
fn decstr_from_str_0() {
    let ds = DecStr::from_literal("0").unwrap();
    let mut expecting = DecStr::from_digits("0".as_bytes());
    expecting.sign = Sign::Positive;
    expecting.scale = 0;
    assert_eq!(expecting, ds);
}

#[test]
fn decstr_from_str_1() {
    let ds = DecStr::from_literal("1").unwrap();
    let mut expecting = DecStr::from_digits("1".as_bytes());
    expecting.sign = Sign::Positive;
    expecting.scale = 0;
    assert_eq!(expecting, ds);
}

#[test]
fn decstr_from_str_neg_1() {
    let ds = DecStr::from_literal("-1").unwrap();
    let mut expecting = DecStr::from_digits("1".as_bytes());
    expecting.sign = Sign::Negative;
    expecting.scale = 0;
    assert_eq!(expecting, ds);
}

#[test]
fn decstr_from_str_neg_1_scale_1() {
    let ds = DecStr::from_literal("-0.1").unwrap();
    let mut expecting = DecStr::from_digits("1".as_bytes());
    expecting.sign = Sign::Negative;
    expecting.scale = 1;
    assert_eq!(expecting, ds);
}

#[test]
fn decstr_from_str_neg_1_scale_28() {
    let ds = DecStr::from_literal("-0.0000000000000000000000000001").unwrap();
    let mut expecting = DecStr::from_digits("1".as_bytes());
    expecting.sign = Sign::Negative;
    expecting.scale = 28;
    assert_eq!(expecting, ds);
}

#[test]
fn decstr_from_str_with_underscores() {
    let ds = DecStr::from_literal("123_456_234").unwrap();
    let mut expecting = DecStr::from_digits("123456234".as_bytes());
    expecting.sign = Sign::Positive;
    expecting.scale = 0;
    assert_eq!(expecting, ds);
}

#[test]
fn decstr_add_left_one_right_one() {
    let l = DecStr::from_literal("1").unwrap();
    let r = DecStr::from_literal("1").unwrap();
    assert_eq!(DecStr::from_literal("2").unwrap(), l.add(&r));
}

#[test]
fn decstr_add_left_45_scale_1_right_one_scale_2() {
    let l = DecStr::from_literal("4.5").unwrap();
    let r = DecStr::from_literal("0.01").unwrap();
    assert_eq!(DecStr::from_literal("4.51").unwrap(), l.add(&r));
}

#[test]
fn decstr_add_left_45_right_neg_one() {
    let l = DecStr::from_literal("45").unwrap();
    let r = DecStr::from_literal("-1").unwrap();
    assert_eq!(DecStr::from_literal("44").unwrap(), l.add(&r));
}

#[test]
fn decstr_add_mut_matches_add() {
    let mut l = DecStr::from_literal("4.5").unwrap();
    let r = DecStr::from_literal("0.01").unwrap();
    l.add_mut(&r);
    assert_eq!(DecStr::from_literal("4.51").unwrap(), l);
}

#[test]
fn decstr_add_small_scale() {
    let l = DecStr::from_literal("0.00005").unwrap();
    let r = DecStr::from_literal("0.00005").unwrap();
    assert_eq!(DecStr::from_literal("0.00010").unwrap(), l.add(&r));
}

#[test]
fn decstr_rescale_up_and_down() {
    let ds = DecStr::from_literal("4.5").unwrap();
    let up = ds.rescale(2);
    assert_eq!(3, up.scale);
    assert_eq!("4.500", up.to_text());
    let down = up.rescale(-3);
    assert_eq!(0, down.scale);
    assert_eq!("4", down.to_text());
}

#[test]
fn decstr_len_counts_significant_digits() {
    assert_eq!(0, DecStr::default().len());
    assert_eq!(3, DecStr::from_literal("123").unwrap().len());
    assert_eq!(1, DecStr::from_literal("0.001").unwrap().len());
}

#[test]
fn decstr_banker_round_half_down_to_even() {
    let ds = DecStr::from_literal("2.5").unwrap();
    assert_eq!(DecStr::from_literal("2").unwrap(), ds.banker_round());
}

#[test]
fn decstr_banker_round_half_up_to_even() {
    let ds = DecStr::from_literal("3.5").unwrap();
    assert_eq!(DecStr::from_literal("4").unwrap(), ds.banker_round());
}

#[test]
fn decstr_banker_round_integer_unchanged() {
    let ds = DecStr::from_literal("7").unwrap();
    assert_eq!(DecStr::from_literal("7").unwrap(), ds.banker_round());
}

#[test]
fn decstr_integral_and_fraction() {
    let ds = DecStr::from_literal("10.05").unwrap();
    assert_eq!("10", ds.integral());
    assert_eq!("05", ds.fraction());

    let small = DecStr::from_literal("0.5").unwrap();
    assert_eq!("", small.integral());
    assert_eq!("5", small.fraction());
}

#[test]
fn decstr_to_text_canonical() {
    assert_eq!("0", DecStr::default().to_text());
    assert_eq!(
        "0.00010",
        DecStr::from_literal("0.00010").unwrap().to_text()
    );
    assert_eq!("-4.5", DecStr::from_literal("-4.5").unwrap().to_text());
    assert_eq!(
        "123456234",
        DecStr::from_literal("000123_456_234").unwrap().to_text()
    );
}

#[test]
fn decstr_from_literal_rejects_malformed() {
    assert!(DecStr::from_literal("abc").is_none());
    assert!(DecStr::from_literal("1.2.3").is_none());
    assert!(DecStr::from_literal("4-5").is_none());
    // 29 fractional digits exceed the largest scale
    assert!(DecStr::from_literal("0.00000000000000000000000000001").is_none());
    // 65 digits exceed the digit window
    assert!(DecStr::from_literal(&"9".repeat(65)).is_none());
    assert!(DecStr::from_literal(&"9".repeat(64)).is_some());
}

#[test]
fn decstr_from_bitstr_converts_binary() {
    let b = BitStr::from_str_radix("45", 10);
    let ds = DecStr::from_bitstr(&b);
    assert_eq!(DecStr::from_literal("45").unwrap(), ds);

    let max = BitStr::from_str_radix("79_228_162_514_264_337_593_543_950_335", 10);
    let dmax = DecStr::from_bitstr(&max);
    assert_eq!(
        "79228162514264337593543950335",
        dmax.to_text()
    );
}
