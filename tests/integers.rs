use rsgames::integers::IntegerProperties;

#[test]
fn test_is_perfect_square_for_u64() {
    let a: u64 = 16;
    assert!(a.is_perfect_square());

    let b: u64 = 17;
    assert!(!b.is_perfect_square());

    // square of: 123456789
    let c: u64 = 15241578750190521;
    assert!(c.is_perfect_square());

    let d: u64 = c + 1;
    assert!(!d.is_perfect_square());
}

#[test]
fn test_is_perfect_square_for_u128() {
    let a: u128 = 16;
    assert!(a.is_perfect_square());

    let b: u128 = 17;
    assert!(!b.is_perfect_square());

    // square of: 1234567890123456789
    let c: u128 = 1524157875323883675019051998750190521;
    assert!(c.is_perfect_square());

    let d: u128 = c + 1;
    assert!(!d.is_perfect_square());
}

#[test]
fn perfect_squares_at_the_edges() {
    assert!(0u64.is_perfect_square());
    assert!(1u64.is_perfect_square());
    assert!(!2u64.is_perfect_square());
    assert!(!u64::MAX.is_perfect_square());
    let largest: u64 = 4294967295 * 4294967295;
    assert!(largest.is_perfect_square());
    assert!(!(largest - 1).is_perfect_square());
    assert!(!u128::MAX.is_perfect_square());
}
