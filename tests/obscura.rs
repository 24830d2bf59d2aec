use rsgames::obscura::{get_product_sums, product_sum};

#[test]
fn test_get_product_sums() {
    assert_eq!(get_product_sums(2), vec![] as Vec<Vec<u64>>);
    assert_eq!(get_product_sums(4), vec![vec![2, 2]]);
    assert_eq!(
        get_product_sums(8),
        vec![vec![1, 1, 2, 2, 2], vec![1, 1, 2, 4]]
    );
}

#[test]
fn product_sums_of_one_and_zero_are_empty() {
    assert_eq!(get_product_sums(1), vec![] as Vec<Vec<u64>>);
    assert_eq!(get_product_sums(0), vec![] as Vec<Vec<u64>>);
}

#[test]
fn product_sums_of_a_prime_are_empty() {
    assert_eq!(get_product_sums(13), vec![] as Vec<Vec<u64>>);
}

#[test]
fn product_sums_of_twelve() {
    let expected = vec![
        vec![1, 1, 1, 1, 1, 2, 2, 3],
        vec![1, 1, 1, 1, 1, 3, 4],
        vec![1, 1, 1, 1, 2, 6],
    ];
    assert_eq!(get_product_sums(12), expected);
}

#[test]
fn product_sums_balance_sum_and_product() {
    for n in 1..=60u64 {
        for a in get_product_sums(n) {
            assert!(a.len() >= 2);
            assert_eq!(a.iter().sum::<u64>(), n);
            assert_eq!(a.iter().product::<u64>(), n);
            assert_eq!(product_sum(&a), Some(n));
        }
    }
}

#[test]
fn product_sum_of_given_numbers() {
    assert_eq!(product_sum(&vec![1, 1, 2, 4]), Some(8));
    assert_eq!(product_sum(&vec![1, 1, 2, 5]), None);
}

#[test]
fn product_sum_edge_cases() {
    assert_eq!(product_sum(&vec![]), None);
    assert_eq!(product_sum(&vec![0, 0]), Some(0));
    assert_eq!(product_sum(&vec![0, 1]), None);
    assert_eq!(product_sum(&vec![7]), Some(7));
    assert_eq!(product_sum(&vec![2, 2]), Some(4));
    assert_eq!(product_sum(&vec![u64::MAX, 1]), None);
    assert_eq!(product_sum(&vec![1 << 40, 1 << 40, 0]), None);
}
