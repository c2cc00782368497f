use lattice::builtins::{join, length, lower, not, upper};

#[test]
fn builtins_test_upper() {
    assert_eq!(upper("hello"), "HELLO");
}

#[test]
fn builtins_test_lower() {
    assert_eq!(lower("WORLD"), "world");
}

#[test]
fn test_length() {
    assert_eq!(length("hello"), 5);
}

#[test]
fn test_not() {
    assert_eq!(not(true), false);
    assert_eq!(not(false), true);
}

#[test]
fn builtins_test_join() {
    assert_eq!(join(vec!["a".to_string(), "b".to_string()], ", "), "a, b");
}

#[test]
fn join_edge_cases() {
    assert_eq!(join(vec![], ", "), "");
    assert_eq!(join(vec!["only".to_string()], "-"), "only");
    assert_eq!(join(vec!["a".to_string(), "b".to_string(), "c".to_string()], ", "), "a, b, c");
}

#[test]
fn length_counts_utf8_bytes() {
    assert_eq!(length("你好"), 6);
    assert_eq!(length(""), 0);
}

#[test]
fn case_mapping_is_unicode() {
    assert_eq!(upper("straße"), "STRASSE");
    assert_eq!(lower("ÀB"), "àb");
}
