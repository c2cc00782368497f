use lattice::delimiters::{has_unclosed_delimiters, is_input_complete};

#[test]
fn unclosed_brackets_and_strings() {
    assert!(has_unclosed_delimiters("foo(1, [2"));
    assert!(!has_unclosed_delimiters("foo(1, [2])"));
    assert!(has_unclosed_delimiters("\"abc"));
    assert!(!has_unclosed_delimiters("\"a\\\"b\""));
    assert!(has_unclosed_delimiters("\"\"\"raw"));
    assert!(!has_unclosed_delimiters("'{'"));
    assert!(!has_unclosed_delimiters("}"));
}

#[test]
fn input_completeness() {
    assert!(is_input_complete("   "));
    assert!(is_input_complete("let x = 1"));
    assert!(!is_input_complete("let x ="));
    assert!(!is_input_complete("a &&  \n"));
    assert!(!is_input_complete("def f() {"));
    assert!(!is_input_complete("\"open"));
    assert!(is_input_complete("\"a { b\""));
    assert!(!is_input_complete("\"\"\"raw { text"));
    assert!(!is_input_complete("f(1,"));
    assert!(is_input_complete("x -> y z"));
}
