use lattice::wrapping::wrap_text;

#[test]
fn short_text_stays_on_one_line() {
    assert_eq!(wrap_text("hello world", 20), vec!["hello world".to_string()]);
}

#[test]
fn words_move_to_the_next_line() {
    assert_eq!(
        wrap_text("the quick brown fox jumps", 10),
        vec!["the quick".to_string(), "brown fox".to_string(), "jumps".to_string()]
    );
}

#[test]
fn long_words_are_broken() {
    assert_eq!(
        wrap_text("ab abcdefghij c", 4),
        vec!["ab".to_string(), "abcd".to_string(), "efgh".to_string(), "ij".to_string(), "c".to_string()]
    );
}

#[test]
fn white_space_collapses() {
    assert_eq!(wrap_text("  a \n\t b  ", 10), vec!["a b".to_string()]);
}

#[test]
fn empty_text_is_one_empty_line() {
    assert_eq!(wrap_text("", 5), vec![String::new()]);
    assert_eq!(wrap_text("   ", 5), vec![String::new()]);
}

#[test]
fn zero_width_keeps_the_text() {
    assert_eq!(wrap_text("a  b", 0), vec!["a  b".to_string()]);
}

#[test]
fn wide_characters_count_as_one() {
    let lines = wrap_text("你好 世界 再见", 5);
    assert_eq!(lines, vec!["你好 世界".to_string(), "再见".to_string()]);
    for line in wrap_text("one two three four five six seven", 7) {
        assert!(line.chars().count() <= 7);
    }
}

#[test]
fn wrapping_keeps_the_words_in_order() {
    let text = "  a bb\tccc dddd  eeeee f ";
    let lines = wrap_text(text, 6);
    assert!(lines.iter().all(|l| l.chars().count() <= 6));
    assert_eq!(lines.join(" "), text.split_whitespace().collect::<Vec<_>>().join(" "));
}
