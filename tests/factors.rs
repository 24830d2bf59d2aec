use rsgames::factors::{get_all_factors, get_multiplicative_partitions, get_proper_factors};
use std::collections::HashSet;

fn as_set(parts: Vec<Vec<u64>>) -> HashSet<Vec<u64>> {
    parts.into_iter().collect()
}

#[test]
fn test_get_all_factors() {
    assert_eq!(get_all_factors(10), vec![1, 2, 5, 10]);
    assert_eq!(get_all_factors(11), vec![1, 11]);
}

#[test]
fn test_get_proper_factors() {
    assert_eq!(get_proper_factors(10), vec![2, 5]);
    assert_eq!(get_proper_factors(11), vec![] as Vec<u64>);
}

#[test]
fn test_multiplicative_partitions_of() {
    let expected = HashSet::from([vec![19]]);
    assert_eq!(as_set(get_multiplicative_partitions(19)), expected);

    let expected2 = HashSet::from([vec![2, 2, 5], vec![2, 10], vec![4, 5], vec![20]]);
    assert_eq!(as_set(get_multiplicative_partitions(20)), expected2);

    let expected3 = HashSet::from([
        vec![60],
        vec![2, 30],
        vec![3, 20],
        vec![4, 15],
        vec![5, 12],
        vec![6, 10],
        vec![2, 2, 15],
        vec![2, 3, 10],
        vec![2, 5, 6],
        vec![3, 4, 5],
        vec![2, 2, 3, 5],
    ]);
    assert_eq!(as_set(get_multiplicative_partitions(60)), expected3);
}

#[test]
fn partitions_of_sixty_have_eleven_members_in_order() {
    let parts = get_multiplicative_partitions(60);
    assert_eq!(parts.len(), 11);
    let mut sorted = parts.clone();
    sorted.sort();
    sorted.dedup();
    assert_eq!(parts, sorted);
}

#[test]
fn factor_lists_of_one() {
    assert_eq!(get_all_factors(1), vec![1]);
    assert_eq!(get_proper_factors(1), vec![] as Vec<u64>);
    assert_eq!(get_multiplicative_partitions(1), vec![vec![1]]);
}

#[test]
fn factor_lists_of_zero_are_empty() {
    assert_eq!(get_all_factors(0), vec![] as Vec<u64>);
    assert_eq!(get_proper_factors(0), vec![] as Vec<u64>);
    assert_eq!(get_multiplicative_partitions(0), vec![vec![0]]);
}

#[test]
fn all_factors_hold_one_and_n_and_divide_n() {
    for n in 1..=72u64 {
        let all = get_all_factors(n);
        assert_eq!(all.first(), Some(&1));
        assert_eq!(all.last(), Some(&n));
        assert!(all.windows(2).all(|w| w[0] < w[1]));
        assert!(all.iter().all(|f| n % f == 0));
        let without_ends: Vec<u64> = all.iter().copied().filter(|&f| f != 1 && f != n).collect();
        assert_eq!(get_proper_factors(n), without_ends);
    }
}

#[test]
fn partitions_hold_n_multiply_to_n_and_are_distinct() {
    for n in 1..=72u64 {
        let parts = get_multiplicative_partitions(n);
        assert!(parts.contains(&vec![n]));
        for p in &parts {
            assert_eq!(p.iter().product::<u64>(), n);
            assert!(p.windows(2).all(|w| w[0] <= w[1]));
        }
        assert_eq!(as_set(parts.clone()).len(), parts.len());
    }
}

#[test]
fn partitions_are_the_same_on_a_second_call() {
    assert_eq!(get_multiplicative_partitions(48), get_multiplicative_partitions(48));
}

#[test]
fn partitions_of_a_prime_square() {
    assert_eq!(get_multiplicative_partitions(49), vec![vec![7, 7], vec![49]]);
}

#[test]
fn partitions_of_a_power_of_two() {
    let expected = vec![
        vec![2, 2, 2, 2],
        vec![2, 2, 4],
        vec![2, 8],
        vec![4, 4],
        vec![16],
    ];
    assert_eq!(get_multiplicative_partitions(16), expected);
}
