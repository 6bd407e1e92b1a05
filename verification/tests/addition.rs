use scicrypt::UnsignedInteger;

#[test]
fn test_addition() {
    let mut x =
        UnsignedInteger::from_string("5378239758327583290580573280735".to_string(), 10, 103);
    let y = UnsignedInteger::from_string("49127277414859531000011129".to_string(), 10, 86);

    x.add_assign(&y);

    assert_eq!(
        UnsignedInteger::from_string("5378288885604998150111573291864".to_string(), 10, 103),
        x
    );
    assert_eq!(x.size_in_bits, 103);
}

#[test]
fn test_addition_u64() {
    let mut x =
        UnsignedInteger::from_string("5378239758327583290580573280735".to_string(), 10, 103);
    let y = 14;

    x.secure_add_assign(y);

    assert_eq!(
        UnsignedInteger::from_string("5378239758327583290580573280749".to_string(), 10, 103),
        x
    );
    assert_eq!(x.size_in_bits, 103);
}

#[test]
fn test_addition_carry_extends_length() {
    // 2^64 - 1 declared at 64 bits; adding one carries out of the top word
    // and the declared length grows by exactly one bit.
    let mut x = UnsignedInteger::from_string("18446744073709551615".to_string(), 10, 64);
    let one = UnsignedInteger::from_string("1".to_string(), 10, 1);
    x.add_assign(&one);
    assert_eq!(
        UnsignedInteger::from_string("18446744073709551616".to_string(), 10, 65),
        x
    );
    assert_eq!(x.size_in_bits, 65);
}

#[test]
fn test_addition_u64_carry_extends_length() {
    let mut x = UnsignedInteger::from_string("18446744073709551615".to_string(), 10, 64);
    x.secure_add_assign(1);
    assert_eq!(
        UnsignedInteger::from_string("18446744073709551616".to_string(), 10, 65),
        x
    );
    assert_eq!(x.size_in_bits, 65);
}

#[test]
fn test_addition_u64_deterministic() {
    // Same operands, bitwise identical results across repeated calls.
    let mut a = UnsignedInteger::from_string("987654321987654321".to_string(), 10, 60);
    let mut b = a.clone();
    a.secure_add_assign(12345);
    b.secure_add_assign(12345);
    assert_eq!(a, b);
    assert_eq!(a.size_in_bits, b.size_in_bits);
    assert_eq!(a.limbs(), b.limbs());
}

#[test]
fn test_sum() {
    let values = vec![
        UnsignedInteger::from_string("100000000000000000000".to_string(), 10, 67),
        UnsignedInteger::from_string("200".to_string(), 10, 8),
        UnsignedInteger::from_string("34".to_string(), 10, 6),
    ];
    let total = UnsignedInteger::sum(&values);
    assert_eq!(
        UnsignedInteger::from_string("100000000000000000234".to_string(), 10, 67),
        total
    );
}

#[test]
fn test_mod_u() {
    let x = UnsignedInteger::from_string("5378239758327583290580573280735".to_string(), 10, 103);
    assert_eq!(x.mod_u(2), 1);
    assert_eq!(x.mod_u(3), (5378239758327583290580573280735u128 % 3) as u64);
    assert_eq!(x.mod_u(65537), (5378239758327583290580573280735u128 % 65537) as u64);
}

#[test]
fn test_shr() {
    let x = UnsignedInteger::from_string("5378239758327583290580573280735".to_string(), 10, 103);
    let half = x.shr(1);
    assert_eq!(
        UnsignedInteger::from_string("2689119879163791645290286640367".to_string(), 10, 102),
        half
    );
    assert_eq!(half.size_in_bits, 102);
    let far = x.shr(100);
    assert_eq!(UnsignedInteger::from_string("4".to_string(), 10, 3), far);
}

#[test]
fn test_sub_one() {
    let x = UnsignedInteger::from_string("1000000000000000000000".to_string(), 10, 70);
    assert_eq!(
        UnsignedInteger::from_string("999999999999999999999".to_string(), 10, 70),
        x.sub_one()
    );
}

#[test]
fn test_set_bit() {
    let mut x = UnsignedInteger::from_string("0".to_string(), 10, 103);
    x.set_bit(102);
    x.set_bit(0);
    assert_eq!(x.mod_u(2), 1);
    // Exactly bits 102 and 0: the value is 2^102 + 1.
    assert_eq!(
        UnsignedInteger::from_string("5070602400912917605986812821505".to_string(), 10, 103),
        x
    );
}

#[test]
fn test_mul_and_lcm() {
    let a = UnsignedInteger::from_string("123456789".to_string(), 10, 27);
    let b = UnsignedInteger::from_string("987654321".to_string(), 10, 30);
    let p = a.mul(&b);
    assert_eq!(
        UnsignedInteger::from_string("121932631112635269".to_string(), 10, 57),
        p
    );
    let x = UnsignedInteger::from_string("12".to_string(), 10, 4);
    let y = UnsignedInteger::from_string("18".to_string(), 10, 5);
    assert_eq!(UnsignedInteger::from_string("36".to_string(), 10, 9), x.lcm(&y));
}

#[test]
fn test_equality_ignores_padding() {
    // The same value declared at different lengths has differently sized
    // buffers but compares equal.
    let a = UnsignedInteger::from_string("77".to_string(), 10, 7);
    let b = UnsignedInteger::from_string("77".to_string(), 10, 103);
    assert_eq!(a, b);
    let c = UnsignedInteger::from_string("78".to_string(), 10, 103);
    assert_ne!(a, c);
}
