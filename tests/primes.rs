use rsgames::primes::generate_primes;

#[test]
fn test_generate_primes() {
    assert_eq!(generate_primes(10), vec!(2, 3, 5, 7));
    assert_eq!(generate_primes(7), vec!(2, 3, 5));
}

#[test]
fn generate_primes_below_small_bounds_is_two_alone() {
    assert_eq!(generate_primes(0), vec![2]);
    assert_eq!(generate_primes(2), vec![2]);
    assert_eq!(generate_primes(3), vec![2]);
    assert_eq!(generate_primes(4), vec![2, 3]);
}

#[test]
fn generate_primes_below_fifty() {
    assert_eq!(
        generate_primes(50),
        vec![2, 3, 5, 7, 11, 13, 17, 19, 23, 29, 31, 37, 41, 43, 47]
    );
    assert_eq!(generate_primes(1000).len(), 168);
}
