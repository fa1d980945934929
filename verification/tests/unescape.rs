use shell_line::tokenize::Quote;
use shell_line::unescape::{unescape, unescape_inside, UnescapeState};

#[test]
fn test_unescape_none() {
    assert_eq!(unescape("abcdef"), "abcdef");
}

#[test]
fn test_unescape_space() {
    assert_eq!(unescape(r"abc\ def"), r"abc def");
}

#[test]
fn test_unescape_quote() {
    assert_eq!(unescape(r#"abc\"def"#), r#"abc"def"#);
}

#[test]
fn test_double_quote_backslash_space() {
    assert_eq!(unescape(r#""before\   after""#), r#"before\   after"#);
}

#[test]
fn test_double_in_single() {
    assert_eq!(unescape(r#"'exe with "quotes"'"#), r#"exe with "quotes""#);
}

#[test]
fn test_single_in_double() {
    assert_eq!(unescape(r#""exe with 'single quotes'""#), r#"exe with 'single quotes'"#);
}

#[test]
fn test_backslash_within_double_quotes_1() {
    assert_eq!(
        unescape(r#""hello'script'\\n'world""#),
        r#"hello'script'\n'world"#
    );
}

#[test]
fn test_escape_baclslash_in_double_quote() {
    assert_eq!(unescape(r#""a\\b""#), r#"a\b"#);
}

#[test]
fn test_escape_backslash_in_double_quote_2() {
    assert_eq!(
        unescape(r#""hello\"insidequotes"script\""#),
        r#"hello"insidequotesscript""#
    );
}

#[test]
fn test_backslash_within_single_quotes() {
    assert_eq!(unescape(r#"'shell\\\nscript'"#), r#"shell\\\nscript"#);
    assert_eq!(
        unescape(r#"'example\"testhello\"shell'"#),
        r#"example\"testhello\"shell"#
    )
}

#[test]
fn unescape_strips_single_quotes() {
    assert_eq!(unescape("'a b'"), "a b");
}

#[test]
fn unescape_keeps_a_backslash_inside_single_quotes() {
    assert_eq!(unescape(r#"'a\"b'"#), r#"a\"b"#);
    assert_eq!(unescape(r#"'a\\b'"#), r#"a\\b"#);
}

#[test]
fn unescape_closes_a_single_quote_after_a_backslash() {
    assert_eq!(unescape(r#"'abc \' def'"#), r#"abc \ def"#);
}

#[test]
fn unescape_drops_a_trailing_backslash_outside_quotes() {
    assert_eq!(unescape("abc\\"), "abc");
    assert_eq!(unescape("\\"), "");
}

#[test]
fn unescape_keeps_a_trailing_backslash_inside_double_quotes() {
    assert_eq!(unescape("\"abc\\"), "abc\\");
}

#[test]
fn unescape_outside_quotes_escapes_any_character() {
    assert_eq!(unescape(r#"\a\'\"\\\>"#), r#"a'"\>"#);
}

#[test]
fn unescape_keeps_state_across_quote_spans() {
    assert_eq!(unescape(r#"a'b c'"d e"f\ g"#), "ab cd ef g");
    assert_eq!(unescape(r#"''"""#), "");
}

#[test]
fn unescape_of_nothing_is_nothing() {
    assert_eq!(unescape(""), "");
}

#[test]
fn unescape_keeps_characters_beyond_ascii() {
    assert_eq!(unescape("'日本語' \\é"), "日本語 é");
}

#[test]
fn unescape_inside_steps() {
    let start = UnescapeState { escape: false, is_in_quote: None };
    let (out, next) = unescape_inside('\\', Some('x'), start);
    assert_eq!(out, None);
    assert!(next.escape);
    let (out, next) = unescape_inside('x', None, next);
    assert_eq!(out, Some('x'));
    assert!(!next.escape);
    let (out, next) = unescape_inside('"', Some('\\'), next);
    assert_eq!(out, None);
    assert_eq!(next.is_in_quote, Some(Quote::DoubleQuote));
    let (out, next) = unescape_inside('\\', Some('n'), next);
    assert_eq!(out, Some('\\'));
    assert!(!next.escape);
    let (out, next) = unescape_inside('\'', Some('"'), next);
    assert_eq!(out, Some('\''));
    let (out, next) = unescape_inside('"', None, next);
    assert_eq!(out, None);
    assert_eq!(next.is_in_quote, None);
}

fn state(escape: bool, is_in_quote: Option<Quote>) -> UnescapeState {
    UnescapeState { escape, is_in_quote }
}

fn step(ch: char, peek: Option<char>, from: UnescapeState) -> (Option<char>, bool, Option<Quote>) {
    let (out, next) = unescape_inside(ch, peek, from);
    (out, next.escape, next.is_in_quote)
}

#[test]
fn an_escaped_character_is_emitted_and_leaves_the_quote_as_it_is() {
    for quote in [None, Some(Quote::SingleQuote), Some(Quote::DoubleQuote)] {
        for ch in ['a', '\\', '\'', '"', ' '] {
            for peek in [None, Some('a'), Some('"'), Some('\\')] {
                assert_eq!(step(ch, peek, state(true, quote)), (Some(ch), false, quote));
            }
        }
    }
}

#[test]
fn outside_quotes_a_backslash_is_dropped_and_escapes() {
    for peek in [None, Some('a'), Some('"'), Some('\''), Some('\\')] {
        assert_eq!(step('\\', peek, state(false, None)), (None, true, None));
    }
}

#[test]
fn in_double_quotes_a_backslash_escapes_a_double_quote_and_a_backslash_only() {
    let double = Some(Quote::DoubleQuote);
    for peek in [Some('"'), Some('\\')] {
        assert_eq!(step('\\', peek, state(false, double)), (None, true, double));
    }
    for peek in [None, Some('a'), Some('\''), Some(' '), Some('n')] {
        assert_eq!(step('\\', peek, state(false, double)), (Some('\\'), false, double));
    }
}

#[test]
fn in_single_quotes_a_backslash_is_a_character_like_any_other() {
    let single = Some(Quote::SingleQuote);
    for peek in [None, Some('a'), Some('\''), Some('"'), Some('\\')] {
        assert_eq!(step('\\', peek, state(false, single)), (Some('\\'), false, single));
    }
}

#[test]
fn a_quote_character_opens_and_closes_its_own_quote() {
    let single = Some(Quote::SingleQuote);
    let double = Some(Quote::DoubleQuote);
    for peek in [None, Some('a'), Some('\''), Some('"')] {
        assert_eq!(step('\'', peek, state(false, None)), (None, false, single));
        assert_eq!(step('"', peek, state(false, None)), (None, false, double));
        assert_eq!(step('\'', peek, state(false, single)), (None, false, None));
        assert_eq!(step('"', peek, state(false, double)), (None, false, None));
        assert_eq!(step('"', peek, state(false, single)), (Some('"'), false, single));
        assert_eq!(step('\'', peek, state(false, double)), (Some('\''), false, double));
        for quote in [None, single, double] {
            assert_eq!(step('a', peek, state(false, quote)), (Some('a'), false, quote));
        }
    }
}
