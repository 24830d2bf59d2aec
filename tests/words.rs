use rsgames::words::WordProperties;

#[test]
fn test_is_anagram() {
    assert!(!"race".is_anagram("idk"));
    assert!(!"aab".is_anagram("ab"));

    assert!("race".is_anagram("care"));
    assert!("wow".is_anagram("oww"));
}

#[test]
fn anagram_counts_repeated_letters() {
    assert!(!"aab".is_anagram("abb"));
    assert!("listen".is_anagram("silent"));
    assert!("".is_anagram(""));
    assert!(!"a".is_anagram(""));
    assert!("été".is_anagram("téé"));
}
