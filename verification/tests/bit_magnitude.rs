use s21_decimal::{BitStr, Sign};

#[test]
fn bitstr_from_char() {
    let test_cases: [u8; 7] = [0, 1, 2, 5, 9, 10, 15];
    let expecting = [
        BitStr::default(),
        BitStr::from_bin("1"),
        BitStr::from_bin("10"),
        BitStr::from_bin("101"),
        BitStr::from_bin("1001"),
        BitStr::from_bin("1010"),
        BitStr::from_bin("1111"),
    ];

    for (i, tc) in test_cases.iter().enumerate() {
        assert_eq!(expecting[i], BitStr::from_digit(*tc));
    }
}

#[test]
fn bitstr_from_str_radix_10_num_45() {
    let bstr = BitStr::from_str_radix("45", 10);

    assert_eq!(BitStr::from_bin("101101"), bstr);
}

#[test]
fn bitstr_from_str_radix_10_num_45_scale_1() {
    let bstr = BitStr::from_str_radix("-4.5", 10);
    let mut expecting = BitStr::from_bin("101101");
    expecting.sign = Sign::Negative;
    expecting.scale = 1;

    assert_eq!(expecting, bstr);
}

#[test]
fn bitstr_from_str_radix_10_num_5_scale_5() {
    let bstr = BitStr::from_str_radix("0.00005", 10);
    let mut expecting = BitStr::from_bin("101");
    expecting.scale = 5;

    assert_eq!(expecting, bstr);
}

#[test]
fn bitstr_from_str_radix_10_num_max() {
    let bstr = BitStr::from_str_radix("79_228_162_514_264_337_593_543_950_335", 10);

    assert_eq!(BitStr::from_bin(&format!("{}", "1".repeat(96))), bstr);
}

#[test]
fn bitstr_all_zeroes_zeroes() {
    assert_eq!(true, BitStr::default().all_zeroes())
}

#[test]
fn bitstr_all_zeroes_one() {
    assert_eq!(
        false,
        BitStr::from_bin(&format!("1{}", "0".repeat(95))).all_zeroes()
    )
}

#[test]
fn bitstr_all_ones_ones() {
    let mut bstr = BitStr::default();
    bstr.invert(96);
    assert_eq!(true, bstr.all_ones())
}

#[test]
fn bitstr_all_ones_zero() {
    assert_eq!(
        false,
        BitStr::from_bin(&format!("0{}", "1".repeat(95))).all_ones()
    )
}

#[test]
fn bitstr_shift_one() {
    let mut bstr = BitStr::from_bin("1");
    bstr.shift(3);
    assert_eq!(BitStr::from_bin("1000"), bstr);
}

#[test]
fn bitstr_shift_ten() {
    let mut bstr = BitStr::from_bin("1010");
    bstr.shift(10);
    assert_eq!(BitStr::from_bin("10100000000000"), bstr);
}

#[test]
fn bitstr_invert_one() {
    let mut bstr = BitStr::from_bin("1");
    bstr.invert(1);

    assert_eq!(BitStr::from_bin("0"), bstr);
}

#[test]
fn bitstr_invert_one_full_str() {
    let mut bstr = BitStr::from_bin("1");
    bstr.invert(96);

    assert_eq!(
        BitStr::from_bin(&format!("{}{}", "1".repeat(95), "0")),
        bstr
    );
}

#[test]
fn bitstr_invert_to_highest_byte() {
    let mut bstr = BitStr::from_bin("101");
    bstr.invert(96 - bstr.msbi().unwrap());

    assert_eq!(BitStr::from_bin("10"), bstr);
}

#[test]
fn bitstr_five_pow_one() {
    let mut bstr = BitStr::from_bin("101");
    bstr.pow(1);

    assert_eq!(BitStr::from_bin("110010"), bstr);
}

#[test]
fn bitstr_five_pow_three() {
    let mut bstr = BitStr::from_bin("101");
    bstr.pow(3);

    assert_eq!(BitStr::from_bin("1001110001000"), bstr);
}

#[test]
fn bitstr_add() {
    let left = BitStr::from_bin("10");
    let right = BitStr::from_bin("01");
    let expecting = BitStr::from_bin("11");
    assert_eq!(expecting, left.add(&right));
}

#[test]
fn bitstr_add_upto() {
    let l = BitStr::from_bin("111");
    let r = BitStr::from_bin("1");

    assert_eq!(BitStr::default(), l.add_upto(&r, 3));
}

#[test]
fn bitstr_add_mixed_signs_larger_left() {
    let mut left = BitStr::from_bin("1010");
    left.sign = Sign::Negative;
    let right = BitStr::from_bin("101");
    let sum = left.add(&right);

    let mut expecting = BitStr::from_bin("101");
    expecting.sign = Sign::Negative;
    assert_eq!(expecting, sum);
}

#[test]
fn bitstr_add_mixed_signs_larger_right() {
    let left = BitStr::from_bin("101");
    let mut right = BitStr::from_bin("1010");
    right.sign = Sign::Negative;
    let sum = left.add(&right);

    let mut expecting = BitStr::from_bin("101");
    expecting.sign = Sign::Negative;
    assert_eq!(expecting, sum);
}

#[test]
fn bitstr_add_cancels_to_canonical_zero() {
    let mut left = BitStr::from_bin("110");
    left.scale = 2;
    let mut right = BitStr::from_bin("110");
    right.sign = Sign::Negative;
    right.scale = 2;

    assert_eq!(BitStr::default(), left.add(&right));
}

#[test]
fn bitstr_new_from_words() {
    let words: [u32; 3] = [45, 0, 0];
    let bstr = BitStr::new(Sign::Positive, 0, words.as_slice());

    assert_eq!(BitStr::from_bin("101101"), bstr);
}

#[test]
fn bitstr_word_roundtrip() {
    let bstr = BitStr::from_str_radix("18_446_744_073_709_551_616", 10);

    assert_eq!(0, bstr.word(0));
    assert_eq!(0, bstr.word(1));
    assert_eq!(1, bstr.word(2));
}

#[test]
fn bitstr_cmp_bytes_orders_numerically() {
    let small = BitStr::from_bin("101");
    let large = BitStr::from_bin("1000");

    assert_eq!(core::cmp::Ordering::Less, small.cmp_bytes(&large));
    assert_eq!(core::cmp::Ordering::Greater, large.cmp_bytes(&small));
    assert_eq!(core::cmp::Ordering::Equal, small.cmp_bytes(&small));
}

#[test]
fn bitstr_msbi_none_on_zero() {
    assert_eq!(None, BitStr::default().msbi());
    assert_eq!(Some(93), BitStr::from_bin("101").msbi());
}
