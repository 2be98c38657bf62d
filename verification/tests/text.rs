use bazooka::text::{append, find_char, same, split_chars, to_chars, to_string, trim_chars};
use bazooka::text::whitespace;
use bazooka::text::Separator;

fn chars(s: &str) -> Vec<char> {
    s.chars().collect()
}

fn pieces(s: &str, sep: Separator) -> Vec<String> {
    split_chars(&chars(s), sep).iter().map(|p| p.iter().collect()).collect()
}

#[test]
fn whitespace_is_what_the_standard_library_calls_whitespace() {
    for code in 0..=0x10ffffu32 {
        if let Some(c) = char::from_u32(code) {
            assert_eq!(whitespace(c), c.is_whitespace(), "U+{:04X}", code);
        }
    }
}

#[test]
fn split_keeps_empty_pieces() {
    assert_eq!(pieces("a;b;c", Separator::Char(';')), vec!["a", "b", "c"]);
    assert_eq!(pieces(";a;;b;", Separator::Char(';')), vec!["", "a", "", "b", ""]);
    assert_eq!(pieces("", Separator::Char(';')), vec![""]);
    assert_eq!(pieces("abc", Separator::Char(';')), vec!["abc"]);
    assert_eq!(pieces(";", Separator::Char(';')), vec!["", ""]);
}

#[test]
fn split_agrees_with_the_standard_library() {
    for text in ["", ":", "a:b", "/usr/share:/usr/local/share:", "::a", "x"] {
        let expected: Vec<String> = text.split(':').map(str::to_string).collect();
        assert_eq!(pieces(text, Separator::Char(':')), expected);
    }
}

#[test]
fn split_at_whitespace_cuts_at_every_whitespace_character() {
    assert_eq!(pieces("a  b\tc", Separator::Whitespace), vec!["a", "", "b", "c"]);
    assert_eq!(pieces(" a\u{3000}", Separator::Whitespace), vec!["", "a", ""]);
}

#[test]
fn trim_removes_whitespace_at_both_ends_only() {
    for text in ["", " ", "a", "  a b  ", "\t\r\na\u{a0}", "a \u{2003} b", "\u{3000}", " é "] {
        let trimmed: String = trim_chars(&chars(text)).iter().collect();
        assert_eq!(trimmed, text.trim());
    }
}

#[test]
fn strings_and_characters_convert_both_ways() {
    for text in ["", "abc", "Füße 日本語", "a\nb"] {
        assert_eq!(to_chars(text), chars(text));
        assert_eq!(to_string(&chars(text)), text);
    }
}

#[test]
fn append_adds_at_the_end() {
    let mut text = chars("ab");
    append(&mut text, &chars("cd"));
    assert_eq!(text, chars("abcd"));
    append(&mut text, &[]);
    assert_eq!(text, chars("abcd"));
}

#[test]
fn same_compares_character_by_character() {
    assert!(same(&chars("abc"), &chars("abc")));
    assert!(same(&[], &[]));
    assert!(!same(&chars("abc"), &chars("abd")));
    assert!(!same(&chars("abc"), &chars("ab")));
    assert!(!same(&chars("ab"), &chars("abc")));
}

#[test]
fn find_char_gives_the_first_position() {
    assert_eq!(find_char(&chars("a=b=c"), '='), Some(1));
    assert_eq!(find_char(&chars("=a"), '='), Some(0));
    assert_eq!(find_char(&chars("abc="), '='), Some(3));
    assert_eq!(find_char(&chars("abc"), '='), None);
    assert_eq!(find_char(&[], '='), None);
}

#[test]
fn a_separator_is_one_character_or_any_whitespace() {
    assert!(Separator::Char(';').is_match(';'));
    assert!(!Separator::Char(';').is_match(':'));
    assert!(!Separator::Char(';').is_match(' '));
    assert!(Separator::Whitespace.is_match(' '));
    assert!(Separator::Whitespace.is_match('\u{2003}'));
    assert!(!Separator::Whitespace.is_match(';'));
}

#[test]
fn joining_the_pieces_gives_the_text_back() {
    for text in ["", ";", "a;b", ";;a;", "abc", "a;b;c;d"] {
        let parts: Vec<String> = pieces(text, Separator::Char(';'));
        assert_eq!(parts.join(";"), text);
    }
}
