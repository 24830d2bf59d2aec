use rsgames::strings::csv_string_to_list;

#[test]
fn test_csv_to_list() {
    assert_eq!(csv_string_to_list("1,2,3"), vec!["1", "2", "3"]);
}

#[test]
fn csv_keeps_empty_fields() {
    assert_eq!(csv_string_to_list(""), vec![""]);
    assert_eq!(csv_string_to_list(",a,"), vec!["", "a", ""]);
    assert_eq!(csv_string_to_list("\"ab\",\"c\""), vec!["\"ab\"", "\"c\""]);
    assert_eq!(csv_string_to_list("né,ü"), vec!["né", "ü"]);
}
