use quaestor::keys::{check_key, split_key, str_lt};

#[test]
fn splits_on_the_separator() {
    assert_eq!(split_key("a/b/c"), vec!["a", "b", "c"]);
    assert_eq!(split_key("single"), vec!["single"]);
    assert_eq!(split_key("a//b"), vec!["a", "", "b"]);
    assert_eq!(split_key("/a"), vec!["", "a"]);
    assert_eq!(split_key("a/"), vec!["a", ""]);
    assert_eq!(split_key(""), vec![""]);
}

#[test]
fn well_formed_keys_have_no_empty_segment() {
    assert!(check_key("a"));
    assert!(check_key("a/b/c"));
    assert!(!check_key(""));
    assert!(!check_key("/a"));
    assert!(!check_key("a/"));
    assert!(!check_key("a//b"));
}

#[test]
fn orders_strings_lexicographically() {
    assert!(str_lt("a", "b"));
    assert!(str_lt("a", "ab"));
    assert!(!str_lt("b", "a"));
    assert!(!str_lt("a", "a"));
    assert!(str_lt("", "a"));
    assert!(str_lt("a/b", "a/c"));
}
