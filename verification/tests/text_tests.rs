use lattice::text::{safe_prefix, safe_slice, safe_suffix};

#[test]
fn test_safe_slice_ascii() {
    let text = "hello world";
    assert_eq!(safe_slice(text, 0, 5), "hello");
    assert_eq!(safe_slice(text, 6, 11), "world");
}

#[test]
fn test_safe_slice_chinese() {
    let text = "你好世界";
    assert_eq!(safe_slice(text, 0, 100), text);

    let slice = safe_slice(text, 0, 4);
    assert!(slice.len() <= 4);
    assert!(text.is_char_boundary(slice.len()));
}

#[test]
fn test_safe_slice_mixed() {
    let text = "hello你好world";
    let slice = safe_slice(text, 0, 100);
    assert_eq!(slice, text);
}

#[test]
fn test_safe_prefix() {
    let text = "你喜欢现在的我";
    let prefix = safe_prefix(text, 17);
    assert!(prefix.len() <= 17);
    assert!(text.is_char_boundary(prefix.len()));
}

#[test]
fn test_safe_suffix() {
    let text = "emotional_value(你喜欢";
    let suffix = safe_suffix(text, 16);
    assert!(text.is_char_boundary(suffix.as_ptr() as usize - text.as_ptr() as usize));
}

#[test]
fn safe_slice_rounds_both_ends_down() {
    let text = "你好世界";
    assert_eq!(safe_slice(text, 4, 8), "好");
    assert_eq!(safe_slice(text, 3, 3), "");
    assert_eq!(safe_prefix(text, 4), "你");
    assert_eq!(safe_suffix(text, 7), "世界");
    assert_eq!(safe_suffix(text, 100), "");
}
