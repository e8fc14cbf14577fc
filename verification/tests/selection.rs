use hulunote_app::editor::selection::{byte_idx_to_utf16, split_at_utf16, utf16_to_byte_idx};

#[test]
fn utf16_and_byte_offsets_agree_on_boundaries() {
    let s = "a😀é";
    assert_eq!(utf16_to_byte_idx(s, 0), 0);
    assert_eq!(utf16_to_byte_idx(s, 1), 1);
    assert_eq!(utf16_to_byte_idx(s, 2), 1);
    assert_eq!(utf16_to_byte_idx(s, 3), 5);
    assert_eq!(utf16_to_byte_idx(s, 4), 7);
    assert_eq!(utf16_to_byte_idx(s, 99), 7);
    for pos in [0u32, 1, 3, 4] {
        assert_eq!(byte_idx_to_utf16(s, utf16_to_byte_idx(s, pos)), pos);
    }
    assert_eq!(byte_idx_to_utf16(s, 100), 4);
}

#[test]
fn split_at_utf16_keeps_surrogate_pairs_whole() {
    assert_eq!(split_at_utf16("a😀b", 2), ("a".to_string(), "😀b".to_string()));
    assert_eq!(split_at_utf16("a😀b", 3), ("a😀".to_string(), "b".to_string()));
    assert_eq!(split_at_utf16("ab", 9), ("ab".to_string(), String::new()));
}
