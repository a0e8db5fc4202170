use discovery_engine_core::text::{join_strings, remove_char, str_equal, trim, usize_to_string};

#[test]
fn trim_removes_unicode_white_space_at_both_ends() {
    assert_eq!(trim(" \t\n hello world \r\n"), "hello world");
    assert_eq!(trim("\u{a0}\u{3000}text\u{2028}\u{85}"), "text");
    assert_eq!(trim("\u{200b}kept"), "\u{200b}kept");
    assert_eq!(trim("   "), "");
}

#[test]
fn numbers_and_joins() {
    assert_eq!(usize_to_string(0), "0");
    assert_eq!(usize_to_string(1234), "1234");
    assert_eq!(join_strings(&["a".to_string(), "b".to_string(), "c".to_string()], ","), "a,b,c");
    assert_eq!(join_strings(&[], ","), "");
    assert_eq!(remove_char("a\"b\"c", '"'), "abc");
    assert!(str_equal("abc", "abc"));
    assert!(!str_equal("abc", "abd"));
}

#[test]
fn trim_agrees_with_std_on_every_character() {
    for c in (0u32..=0x10FFFF).filter_map(char::from_u32) {
        let s = format!("{c}x{c}");
        assert_eq!(trim(&s), s.trim(), "{:#x}", c as u32);
    }
}
