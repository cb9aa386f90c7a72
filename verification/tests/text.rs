//! Text, numbers and their order.
use rtk_grep::number::{from_decimal, to_decimal};
use rtk_grep::order::is_before;
use rtk_grep::text::{
    find, is_whitespace, joined, same, split_at_each, split_lines, string_of, to_chars, trimmed,
};

#[test]
fn whitespace_is_that_of_unicode() {
    for code in 0..0x110000u32 {
        if let Some(c) = char::from_u32(code) {
            assert_eq!(is_whitespace(c), c.is_whitespace(), "{:?}", c);
        }
    }
}

#[test]
fn trims_both_ends() {
    assert_eq!(trimmed("\u{2003}\n a b\u{85}\t"), "a b");
    assert_eq!(trimmed(" \n "), "");
    assert_eq!(trimmed(""), "");
    assert_eq!(trimmed(trimmed("  \u{e9}  ")), "\u{e9}");
}

#[test]
fn lines_end_in_newlines() {
    for s in ["", "a", "a\n", "a\nb", "a\r\nb\r", "\n", "\n\n", "\r\n", "a\r\r\n\nb\n", "\r"] {
        let expected: Vec<&str> = s.lines().collect();
        assert_eq!(split_lines(s), expected, "{:?}", s);
    }
}

#[test]
fn splits_at_each_separator() {
    for s in ["", "/", "a", "/a", "a/", "a//b", "\u{e9}/b/c"] {
        let expected: Vec<&str> = s.split('/').collect();
        assert_eq!(split_at_each(s, '/'), expected, "{:?}", s);
    }
}

#[test]
fn joins_with_a_separator() {
    let parts = vec!["a".to_string(), "".to_string(), "b".to_string()];
    assert_eq!(joined(&parts, ", "), "a, , b");
    assert_eq!(joined(&parts[..1], ", "), "a");
    assert_eq!(joined(&[], ", "), "");
}

#[test]
fn finds_the_first_occurrence_in_characters() {
    assert_eq!(find("\u{e9}abcabc", "bc"), Some(2));
    assert_eq!(find("aab", "ab"), Some(1));
    assert_eq!(find("abc", ""), Some(0));
    assert_eq!(find("", ""), Some(0));
    assert_eq!(find("", "a"), None);
    assert_eq!(find("ab", "abc"), None);
    assert_eq!(find("abab", "ba "), None);
}

#[test]
fn characters_and_back() {
    let chars = to_chars("a\u{e9}\u{1f389}");
    assert_eq!(chars, vec!['a', '\u{e9}', '\u{1f389}']);
    assert_eq!(string_of(&chars, 1, 3), "\u{e9}\u{1f389}");
    assert_eq!(string_of(&chars, 2, 2), "");
    assert!(same("a\u{e9}", "a\u{e9}"));
    assert!(!same("a\u{e9}", "ae"));
    assert!(!same("a", "ab"));
}

#[test]
fn decimal_notation() {
    for n in [0, 7, 10, 99, 100, 1234567890, usize::MAX] {
        let text = to_decimal(n);
        assert_eq!(text, n.to_string());
        assert_eq!(from_decimal(&to_chars(&text)), Some(n));
    }
    assert_eq!(from_decimal(&[]), None);
    assert_eq!(from_decimal(&['1', 'a']), None);
    assert_eq!(from_decimal(&to_chars("99999999999999999999999999")), None);
}

#[test]
fn order_is_that_of_strings() {
    let texts = ["", "a", "aa", "ab", "b", "B", "\u{e9}", "\u{ffff}", "\u{10000}", "a/b", "a.b"];
    for a in texts {
        for b in texts {
            assert_eq!(is_before(a, b), a < b, "{:?} {:?}", a, b);
        }
    }
}
