use shell_line::text::{chars_of, is_ascii_whitespace, is_whitespace, same_text, trim_start};

#[test]
fn whitespace_is_the_unicode_class() {
    for c in ['\t', '\n', '\u{b}', '\u{c}', '\r', ' ', '\u{85}', '\u{a0}', '\u{1680}', '\u{2000}',
        '\u{2005}', '\u{200a}', '\u{2028}', '\u{2029}', '\u{202f}', '\u{205f}', '\u{3000}']
    {
        assert!(is_whitespace(c));
    }
    for c in ['a', '\\', '\'', '"', '>', '\u{8}', '\u{e}', '\u{200b}', '\u{180e}', '\u{feff}',
        '\u{2060}', '\u{1f}', '\u{86}']
    {
        assert!(!is_whitespace(c));
    }
}

#[test]
fn whitespace_agrees_with_the_standard_library_everywhere() {
    let mut c = '\0';
    loop {
        assert_eq!(is_whitespace(c), c.is_whitespace());
        assert_eq!(is_ascii_whitespace(c), c.is_ascii_whitespace());
        if c == char::MAX {
            break;
        }
        c = char::from_u32(c as u32 + 1).unwrap_or('\u{e000}');
    }
}

#[test]
fn ascii_whitespace_has_five_characters() {
    for c in [' ', '\t', '\n', '\u{c}', '\r'] {
        assert!(is_ascii_whitespace(c));
    }
    for c in ['\u{b}', '\u{a0}', 'a', '\u{85}'] {
        assert!(!is_ascii_whitespace(c));
    }
}

#[test]
fn trim_start_removes_leading_whitespace_only() {
    assert_eq!(trim_start("  \t a b "), "a b ");
    assert_eq!(trim_start("a b"), "a b");
    assert_eq!(trim_start("   "), "");
    assert_eq!(trim_start(""), "");
    assert_eq!(trim_start("\u{3000}\u{a0}é "), "é ");
}

#[test]
fn chars_of_lists_characters() {
    assert_eq!(chars_of("aé日"), vec!['a', 'é', '日']);
    assert_eq!(chars_of(""), Vec::<char>::new());
}

#[test]
fn same_text_compares_letter_for_letter() {
    assert!(same_text("abc", "abc"));
    assert!(same_text("", ""));
    assert!(!same_text("abc", "abd"));
    assert!(!same_text("abc", "ab"));
    assert!(!same_text("abc", "ABC"));
}
