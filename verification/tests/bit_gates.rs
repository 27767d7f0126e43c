use bitword::bit::Bit;

fn bit(v: u8) -> Bit {
    Bit::new(v)
}

#[test]
fn new_normalizes_nonzero() {
    assert!(bit(1).is_true());
    assert!(bit(7).is_true());
    assert!(!bit(0).is_true());
    assert_eq!(bit(200).value(), 1);
    assert_eq!(bit(0).value(), 0);
}

#[test]
fn empty_and_default_are_zero() {
    assert!(!Bit::empty().is_true());
    assert!(!Bit::default().is_true());
}

#[test]
fn set_normalizes() {
    let mut b = Bit::empty();
    b.set(-5);
    assert!(b.is_true());
    b.set(0);
    assert!(!b.is_true());
}

#[test]
fn and_gate_table() {
    assert!(!bit(0).and(bit(0)).is_true());
    assert!(!bit(0).and(bit(1)).is_true());
    assert!(!bit(1).and(bit(0)).is_true());
    assert!(bit(1).and(bit(1)).is_true());
}

#[test]
fn or_gate_table() {
    assert!(!bit(0).or(bit(0)).is_true());
    assert!(bit(0).or(bit(1)).is_true());
    assert!(bit(1).or(bit(0)).is_true());
    assert!(bit(1).or(bit(1)).is_true());
}

#[test]
fn xor_gate_table() {
    assert!(!bit(0).xor(bit(0)).is_true());
    assert!(bit(0).xor(bit(1)).is_true());
    assert!(bit(1).xor(bit(0)).is_true());
    assert!(!bit(1).xor(bit(1)).is_true());
}

#[test]
fn not_gate_table() {
    assert!(bit(0).not().is_true());
    assert!(!bit(1).not().is_true());
}

#[test]
fn bit_equality() {
    assert_eq!(bit(1), bit(42));
    assert_eq!(bit(0), Bit::empty());
    assert_ne!(bit(0), bit(1));
}

#[test]
fn scalar_multiply_derives_sign() {
    assert_eq!(bit(1).mul(-1), -1);
    assert_eq!(bit(0).mul(-1), 0);
    assert_eq!(bit(1).mul(1), 1);
    assert_eq!(bit(0).mul(7), 0);
}
