use verilog_core::DelayRational;

#[test]
fn half_delay() {
    let d = DelayRational::from_delay_lexeme("0.5");
    assert_eq!(d.num, 1);
    assert_eq!(d.den, 2);
    let fs = 1_000_000_000_000_000u128;
    assert_eq!(d.to_femtoseconds(fs), 500_000_000_000_000);
}

#[test]
fn add_halves() {
    let a = DelayRational::from_delay_lexeme("0.5");
    let s = a.add(a);
    assert_eq!(s.num, 1);
    assert_eq!(s.den, 1);
}

#[test]
fn new_reduces_to_lowest_terms() {
    let d = DelayRational::new(6, 4);
    assert_eq!((d.num, d.den), (3, 2));
}

#[test]
fn add_is_commutative_on_concrete_values() {
    let a = DelayRational::new(1, 3);
    let b = DelayRational::new(5, 7);
    let x = a.add(b);
    let y = b.add(a);
    assert_eq!((x.num, x.den), (y.num, y.den));
    assert_eq!((x.num, x.den), (22, 21));
}

#[test]
fn ceil_whole_time_units_rounds_up() {
    assert_eq!(DelayRational::new(7, 2).ceil_whole_time_units(), 4);
    assert_eq!(DelayRational::new(6, 2).ceil_whole_time_units(), 3);
    assert_eq!(DelayRational::new(0, 5).ceil_whole_time_units(), 0);
}

#[test]
fn integer_lexeme_and_scaled_multiplication() {
    let d = DelayRational::from_delay_lexeme("10");
    assert_eq!((d.num, d.den), (10, 1));
    let m = DelayRational::new(1, 2).saturating_mul_u128(3);
    assert_eq!((m.num, m.den), (3, 2));
    assert_eq!(DelayRational::from_int(7).num, 7);
}

#[test]
fn add_gives_exact_reduced_sum() {
    let r = DelayRational::new(1, 6).add(DelayRational::new(1, 3));
    assert_eq!((r.num, r.den), (1, 2));
}

#[test]
fn float_syntax_delay_lexemes_round_up() {
    let v = |s: &str| {
        let d = DelayRational::from_delay_lexeme(s);
        (d.num, d.den)
    };
    assert_eq!(v("1e3"), (1000, 1));
    assert_eq!(v("1.5e2"), (150, 1));
    assert_eq!(v("1.25e1"), (13, 1));
    assert_eq!(v("2.5E-1"), (1, 1));
    assert_eq!(v("1e-400"), (1, 1));
    assert_eq!(v("-1e3"), (1, 1));
    assert_eq!(v("inf"), (1, 1));
    assert_eq!(v("NaN"), (1, 1));
    assert_eq!(v("0e5"), (1, 1));
    assert_eq!(v("1e50"), (u128::MAX, 1));
    assert_eq!(v("1e"), (0, 1));
    assert_eq!(v("abc"), (0, 1));
}

#[test]
fn add_gives_lowest_terms_and_zero_is_neutral() {
    let a = DelayRational::new(2, 4);
    assert_eq!((a.num, a.den), (1, 2));
    let s = a.add(DelayRational::new(1, 6));
    assert_eq!((s.num, s.den), (2, 3));
    let z = DelayRational::new(0, 1);
    let b = a.add(z);
    assert_eq!((b.num, b.den), (a.num, a.den));
}
