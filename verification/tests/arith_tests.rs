use verilog_core::{arith_shr_i64, sign_extend_i64};

#[test]
fn arith_shr_11_bit_negative_one_step() {
    let m11 = (1i64 << 11) - 1;
    let neg5 = m11 & (2048 - 5);
    let neg3 = m11 & (2048 - 3);
    let out = arith_shr_i64(neg5, 1, 11) & m11;
    assert_eq!(out, neg3);
}

#[test]
fn sign_extend_11_bit_negative() {
    let bits = 2043i64;
    assert_eq!(sign_extend_i64(bits, 11), -5);
}

#[test]
fn sign_extend_keeps_positive_values_below_the_sign_bit() {
    assert_eq!(sign_extend_i64(1023, 11), 1023);
    assert_eq!(sign_extend_i64(0x7ff, 11), -1);
}

#[test]
fn arith_shr_of_negative_value_rounds_toward_minus_infinity() {
    assert_eq!(arith_shr_i64(-5, 1, 64), -3);
    assert_eq!(arith_shr_i64(-1, 5, 8), -1);
}

#[test]
fn arith_shr_full_64_bit_width_keeps_positive_value() {
    assert_eq!(arith_shr_i64(1i64 << 62, 1, 64), 1i64 << 61);
    assert_eq!(arith_shr_i64(-8, 1, 64), -4);
    assert_eq!(sign_extend_i64(i64::MAX, 64), i64::MAX);
}
