use librubyfmt::text::blanks;
use librubyfmt::text::char_is_whitespace;
use librubyfmt::text::has_newline;
use librubyfmt::text::joined;
use librubyfmt::text::same_text;
use librubyfmt::text::strip_quotes;
use librubyfmt::text::strip_trailing_newline;
use librubyfmt::text::trim_text;

#[test]
fn blanks_of_each_length() {
    assert_eq!(blanks(0), "");
    assert_eq!(blanks(1), " ");
    assert_eq!(blanks(5), "     ");
}

#[test]
fn same_text_compares_whole_strings() {
    assert!(same_text(&"if".to_string(), "if"));
    assert!(!same_text(&"iff".to_string(), "if"));
    assert!(!same_text(&"".to_string(), "if"));
    assert!(same_text(&"".to_string(), ""));
}

#[test]
fn joined_appends() {
    assert_eq!(joined(&"ab".to_string(), "cd"), "abcd");
    assert_eq!(joined(&"".to_string(), ""), "");
}

#[test]
fn trim_takes_whitespace_from_both_ends_only() {
    assert_eq!(trim_text("  # a comment \n"), "# a comment");
    assert_eq!(trim_text("a b"), "a b");
    assert_eq!(trim_text("\t\n x \r\n y \u{3000}"), "x \r\n y");
    assert_eq!(trim_text(""), "");
    assert_eq!(trim_text(" \n\t "), "");
    assert_eq!(trim_text("é"), "é");
}

#[test]
fn trim_agrees_with_std_on_every_whitespace_character() {
    let spaces = [
        '\u{9}', '\u{a}', '\u{b}', '\u{c}', '\u{d}', '\u{20}', '\u{85}', '\u{a0}', '\u{1680}',
        '\u{2000}', '\u{2005}', '\u{200a}', '\u{2028}', '\u{2029}', '\u{202f}', '\u{205f}',
        '\u{3000}',
    ];
    for c in spaces {
        assert!(char_is_whitespace(c));
        assert!(c.is_whitespace());
        let s = format!("{}x{}", c, c);
        assert_eq!(trim_text(&s), s.trim());
    }
    let others = ['a', '0', '\u{200b}', '\u{180e}', '\u{feff}', '\u{8}', '\u{e}', '\u{1f}'];
    for c in others {
        assert!(!char_is_whitespace(c));
        assert!(!c.is_whitespace());
        let s = format!("{}x{}", c, c);
        assert_eq!(trim_text(&s), s.trim());
    }
}

#[test]
fn whitespace_predicate_agrees_with_std_on_the_basic_plane() {
    let mut u: u32 = 0;
    while u < 0x1_0000 {
        if let Some(c) = char::from_u32(u) {
            assert_eq!(char_is_whitespace(c), c.is_whitespace());
        }
        u += 1;
    }
}

#[test]
fn has_newline_finds_a_newline_anywhere() {
    assert!(has_newline("a\nb"));
    assert!(has_newline("\n"));
    assert!(!has_newline("ab"));
    assert!(!has_newline(""));
}

#[test]
fn strip_trailing_newline_takes_one() {
    assert_eq!(strip_trailing_newline("a\n\n".to_string()), "a\n");
    assert_eq!(strip_trailing_newline("a\n".to_string()), "a");
    assert_eq!(strip_trailing_newline("a".to_string()), "a");
    assert_eq!(strip_trailing_newline("".to_string()), "");
    assert_eq!(strip_trailing_newline("\n".to_string()), "");
    assert_eq!(strip_trailing_newline("é\n".to_string()), "é");
}

#[test]
fn strip_quotes_takes_every_single_quote() {
    assert_eq!(strip_quotes("'EOS'"), "EOS");
    assert_eq!(strip_quotes("EOS"), "EOS");
    assert_eq!(strip_quotes("''"), "");
    assert_eq!(strip_quotes("a'b'c"), "abc");
    assert_eq!(strip_quotes("\"EOS\""), "\"EOS\"");
}
