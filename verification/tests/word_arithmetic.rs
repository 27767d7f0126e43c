use bitword::bit::Bit;
use bitword::byte::{ArithError, Byte};

fn w(n: i32) -> Byte {
    Byte::from_dec(n).unwrap()
}

fn same(a: &Byte, b: &Byte) -> bool {
    Byte::eq(a, b).bit_at(31).is_true()
}

#[test]
fn round_trip_representable_values() {
    for n in [
        0,
        1,
        -1,
        2,
        -2,
        100,
        -100,
        123456789,
        -123456789,
        2147483647,
        -2147483647,
        -800000000,
    ] {
        assert_eq!(w(n).to_dec(), n);
    }
}

#[test]
fn from_dec_overflow_magnitude() {
    assert!(matches!(Byte::from_dec(i32::MIN), Err(ArithError::Overflow)));
    assert!(Byte::from_dec(i32::MIN + 1).is_ok());
}

#[test]
fn most_negative_word_reads_back() {
    let min = w(1).shl(31);
    assert_eq!(min.to_dec(), i32::MIN);
}

#[test]
fn negate_twice_is_identity() {
    for n in [0, 1, -1, 987654, -987654, 2147483647] {
        let a = w(n);
        assert!(same(&a.neg().neg(), &a));
    }
    let min = w(1).shl(31);
    assert!(same(&min.neg().neg(), &min));
}

#[test]
fn negate_reflects_value() {
    assert_eq!(w(5).neg().to_dec(), -5);
    assert_eq!(w(-31).neg().to_dec(), 31);
    assert_eq!(w(0).neg().to_dec(), 0);
}

#[test]
fn addition_commutes() {
    let a = w(123456);
    let b = w(-98765);
    let left = a.add(&b).unwrap();
    let right = b.add(&a).unwrap();
    assert!(same(&left, &right));
    assert_eq!(left.to_dec(), 123456 - 98765);
}

#[test]
fn addition_exact_values() {
    assert_eq!(w(100).add(&w(20)).unwrap().to_dec(), 120);
    assert_eq!(w(-7).add(&w(3)).unwrap().to_dec(), -4);
}

#[test]
fn addition_overflow_raises() {
    assert!(matches!(w(2147483647).add(&w(1)), Err(ArithError::Overflow)));
    assert!(matches!(w(-2147483647).add(&w(-2)), Err(ArithError::Overflow)));
}

#[test]
fn subtract_after_add_cancels() {
    let a = w(55555);
    let b = w(-321);
    let s = a.add(&b).unwrap();
    assert!(same(&s.sub(&b).unwrap(), &a));
}

#[test]
fn subtraction_exact_and_overflow() {
    assert_eq!(w(10).sub(&w(25)).unwrap().to_dec(), -15);
    assert!(matches!(w(-2).sub(&w(2147483647)), Err(ArithError::Overflow)));
}

#[test]
fn bitwise_identities() {
    let a = w(305419896);
    let ones = w(-1);
    let zeros = Byte::empty();
    assert!(same(&a.bit_and(&ones), &a));
    assert!(same(&a.bit_and(&zeros), &zeros));
    assert!(same(&a.bit_or(&zeros), &a));
    assert!(same(&a.bit_xor(&a), &zeros));
}

#[test]
fn masked_select_both_flags() {
    let a = w(424242);
    let zeros = Byte::empty();
    assert!(same(&a.and_bit(Bit::new(1)), &a));
    assert!(same(&a.and_bit(Bit::new(0)), &zeros));
}

#[test]
fn left_shift_zero_fills() {
    assert_eq!(w(3).shl(1).to_dec(), 6);
    assert_eq!(w(5).shl(4).to_dec(), 80);
    let shifted = w(7).shl(2);
    assert!(!shifted.bit_at(31).is_true());
    assert!(!shifted.bit_at(30).is_true());
}

#[test]
fn right_shift_sign_extends() {
    assert_eq!(w(-8).shr(1).to_dec(), -4);
    assert_eq!(w(16).shr(2).to_dec(), 4);
    let shifted = w(-1).shr(5);
    for i in 0..5 {
        assert!(shifted.bit_at(i).is_true());
    }
    assert_eq!(shifted.to_dec(), -1);
}

#[test]
fn right_shift_of_large_negative() {
    let x = w(-800000000);
    assert_eq!(x.shr(3).to_dec(), -100000000);
}

#[test]
fn multiply_3_by_63() {
    let p = w(3).mul(&w(63));
    assert!(same(&p, &w(189)));
    assert_eq!(p.to_dec(), 189);
}

#[test]
fn multiply_signs_and_zero() {
    assert_eq!(w(-12).mul(&w(11)).to_dec(), -132);
    assert_eq!(w(-9).mul(&w(-9)).to_dec(), 81);
    assert_eq!(w(0).mul(&w(123456)).to_dec(), 0);
}

#[test]
fn divide_100_by_20() {
    let q = w(100).div(&w(20)).unwrap();
    assert!(same(&q, &w(5)));
    assert_eq!(q.to_dec(), 5);
}

#[test]
fn divide_truncates_toward_zero() {
    assert_eq!(w(-7).div(&w(2)).unwrap().to_dec(), -3);
    assert_eq!(w(7).div(&w(-2)).unwrap().to_dec(), -3);
    assert_eq!(w(-7).div(&w(-2)).unwrap().to_dec(), 3);
    assert_eq!(w(6).div(&w(7)).unwrap().to_dec(), 0);
}

#[test]
fn divide_by_zero_raises_domain() {
    assert!(matches!(w(100).div(&Byte::empty()), Err(ArithError::Domain)));
    assert!(matches!(w(-3).div(&w(0)), Err(ArithError::Domain)));
}

#[test]
fn power_zero_exponent_is_one() {
    let p = w(9).pow(&w(0)).unwrap();
    assert!(same(&p, &w(1)));
    assert_eq!(p.to_dec(), 1);
    assert_eq!(w(-5).pow(&w(0)).unwrap().to_dec(), 1);
}

#[test]
fn power_exact_values() {
    assert_eq!(w(2).pow(&w(10)).unwrap().to_dec(), 1024);
    assert_eq!(w(-3).pow(&w(3)).unwrap().to_dec(), -27);
    assert_eq!(w(7).pow(&w(1)).unwrap().to_dec(), 7);
}

#[test]
fn power_negative_exponent_raises_domain() {
    assert!(matches!(w(2).pow(&w(-1)), Err(ArithError::Domain)));
}

#[test]
fn log_exact_values() {
    assert_eq!(w(100).log(&w(10)).unwrap().to_dec(), 2);
    assert_eq!(w(1).log(&w(10)).unwrap().to_dec(), 0);
    assert_eq!(w(1024).log(&w(2)).unwrap().to_dec(), 10);
    assert_eq!(w(1023).log(&w(2)).unwrap().to_dec(), 9);
}

#[test]
fn log_domain_errors() {
    assert!(matches!(w(0).log(&w(10)), Err(ArithError::Domain)));
    assert!(matches!(w(-5).log(&w(10)), Err(ArithError::Domain)));
    assert!(matches!(w(100).log(&w(1)), Err(ArithError::Domain)));
    assert!(matches!(w(100).log(&w(0)), Err(ArithError::Domain)));
}

#[test]
fn equality_flag() {
    let a = w(777);
    let b = w(777);
    let c = w(-777);
    assert!(Byte::eq(&a, &b).bit_at(31).is_true());
    assert!(!Byte::eq(&a, &c).bit_at(31).is_true());
}

#[test]
fn greater_or_equal_flag() {
    assert!(Byte::greq(&w(5), &w(3)).bit_at(31).is_true());
    assert!(Byte::greq(&w(3), &w(3)).bit_at(31).is_true());
    assert!(!Byte::greq(&w(2), &w(3)).bit_at(31).is_true());
    assert!(Byte::greq(&w(1), &w(-1)).bit_at(31).is_true());
    assert!(!Byte::greq(&w(-10), &w(-1)).bit_at(31).is_true());
}

#[test]
fn to_bit_ors_value_bits() {
    assert!(!Byte::empty().to_bit().is_true());
    assert!(w(2).to_bit().is_true());
    assert!(w(-1).to_bit().is_true());
    let sign_only = w(1).shl(31);
    assert!(!sign_only.to_bit().is_true());
}

#[test]
fn width_and_copies() {
    let a = w(31415);
    assert_eq!(a.len(), 32);
    assert_eq!(a.size(), 32);
    let d = a.duplicate();
    assert!(same(&a, &d));
    assert_eq!(d.to_dec(), 31415);
}

#[test]
fn set_bit_and_bit_at() {
    let mut a = Byte::empty();
    a.set_bit(31, Bit::new(1));
    assert_eq!(a.to_dec(), 1);
    assert!(a.bit_at(31).is_true());
    assert!(!a.bit_at(0).is_true());
}

#[test]
fn multiply_wraps_on_magnitudes() {
    assert_eq!(w(65536).mul(&w(65536)).to_dec(), 0);
    assert_eq!(w(65537).mul(&w(65536)).to_dec(), 65536);
    assert_eq!(w(-65537).mul(&w(65536)).to_dec(), -65536);
}
