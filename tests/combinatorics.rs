use rsgames::combinatorics::{factorial, n_choose_k, MathError};

#[test]
fn test_choose() {
    assert_eq!(n_choose_k(4, 2).unwrap(), 6);
    assert_eq!(n_choose_k(5, 1).unwrap(), 5);
    assert_eq!(n_choose_k(34, 1).unwrap(), 34);
    // the product of all factors of 40! would overflow even a u128
    assert_eq!(n_choose_k(40, 35).unwrap(), 658008);
}

#[test]
fn test_choose_when_k_is_greater_than_n() {
    assert!(n_choose_k(5, 10).is_err());

    let err = n_choose_k(10, 20).unwrap_err();
    assert_eq!(
        err,
        MathError::InvalidInput("n choose k cannot have k > n, n: 10, k: 20".to_string())
    )
}

#[test]
fn test_factorial() {
    assert_eq!(factorial(5), 120);
    assert_eq!(factorial(13), 6_227_020_800);
}

#[test]
fn factorial_of_zero_and_one() {
    assert_eq!(factorial(0), 1);
    assert_eq!(factorial(1), 1);
    assert_eq!(factorial(34), 295232799039604140847618609643520000000);
}

#[test]
fn choose_at_the_edges() {
    assert_eq!(n_choose_k(0, 0).unwrap(), 1);
    assert_eq!(n_choose_k(7, 0).unwrap(), 1);
    assert_eq!(n_choose_k(7, 7).unwrap(), 1);
    assert_eq!(n_choose_k(20, 10).unwrap(), 184756);
}

#[test]
fn choose_error_message_spells_out_large_numbers() {
    assert_eq!(
        n_choose_k(0, 1234567890).unwrap_err(),
        MathError::InvalidInput("n choose k cannot have k > n, n: 0, k: 1234567890".to_string())
    );
}
