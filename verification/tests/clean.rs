//! Cutting lines and paths down.
use regex::Regex;
use rtk_grep::clean::{clean_line, clip, show_whole, try_clean_line};
use rtk_grep::context::{context_text, ContextRegex};
use rtk_grep::path::compact_path;

#[test]
fn test_clean_line() {
    let line = "            const result = someFunction();";
    let cleaned = clean_line(line, 50, None, "result");
    assert!(!cleaned.starts_with(' '));
    assert!(cleaned.len() <= 50);
}

#[test]
fn test_compact_path() {
    let path = "/Users/patrick/dev/project/src/components/Button.tsx";
    let compact = compact_path(path);
    assert!(compact.len() <= 60);
}

#[test]
fn test_clean_line_multibyte() {
    // Thai text that exceeds max_len in bytes
    let line = "  สวัสดีครับ นี่คือข้อความที่ยาวมากสำหรับทดสอบ  ";
    let cleaned = clean_line(line, 20, None, "ครับ");
    // Should not panic
    assert!(!cleaned.is_empty());
}

#[test]
fn test_clean_line_emoji() {
    let line = "🎉🎊🎈🎁🎂🎄 some text 🎃🎆🎇✨";
    let cleaned = clean_line(line, 15, None, "text");
    assert!(!cleaned.is_empty());
}

const ALPHABET: &str = "abcdefghijklmnopqrstuvwxyz";

#[test]
fn clean_short_line_is_trimmed() {
    assert_eq!(clean_line("\t\u{3000}foo bar \r", 7, None, "x"), "foo bar");
    assert_eq!(clean_line("   ", 0, None, "x"), "");
}

#[test]
fn clean_cuts_round_the_pattern() {
    assert_eq!(clean_line(ALPHABET, 9, None, "m"), "...jklmnopqr...");
    assert_eq!(clean_line(ALPHABET, 9, None, "MN"), "...jklmnopqr...");
    assert_eq!(clean_line(ALPHABET, 9, None, "c"), "abcdefghi...");
    assert_eq!(clean_line(ALPHABET, 9, None, "z"), "...rstuvwxyz");
    assert_eq!(clean_line(ALPHABET, 9, None, "u"), "...rstuvwxyz");
    assert_eq!(clean_line(ALPHABET, 9, None, "t"), "...qrstuvwxy...");
    assert_eq!(clean_line(ALPHABET, 9, None, ""), "abcdefghi...");
}

#[test]
fn clean_cuts_the_end_without_the_pattern() {
    assert_eq!(clean_line(ALPHABET, 9, None, "0"), "abcdef...");
    assert_eq!(clean_line(ALPHABET, 3, None, "0"), "...");
}

#[test]
fn clean_counts_bytes_first_and_characters_then() {
    assert_eq!(clean_line("\u{e9}\u{e9}\u{e9}", 6, None, "0"), "\u{e9}\u{e9}\u{e9}");
    assert_eq!(clean_line("\u{e9}\u{e9}\u{e9}", 5, None, "\u{e9}"), "\u{e9}\u{e9}\u{e9}...");
    assert_eq!(clean_line("\u{e9}\u{e9}\u{e9}", 5, None, "0"), "\u{e9}\u{e9}...");
}

#[test]
fn clean_position_in_lower_case_may_lie_past_the_end() {
    let line = "\u{130}\u{130}\u{130}\u{130}\u{130}x";
    assert_eq!(clean_line(line, 3, None, "X"), "...\u{130}\u{130}x");
}

#[test]
fn clean_by_context() {
    let re = ContextRegex::around("M.").unwrap();
    let line = "  0123456789abcdefghijklm.nop  ";
    assert_eq!(clean_line(line, 40, Some(&re), "M."), "23456789abcdefghijklm.nop");
    assert_eq!(clean_line(line, 25, Some(&re), "M."), "23456789abcdefghijklm.nop");
    assert_eq!(clean_line(line, 24, Some(&re), "M."), "...3456789abcdefghijklm.nop");
    let other = "  0123456789abcdefghijklmnop  ";
    assert_eq!(clean_line(other, 40, Some(&re), "M."), "0123456789abcdefghijklmnop");
}

#[test]
fn clean_narrow_lines() {
    assert_eq!(try_clean_line(ALPHABET, 2, None, "0"), None);
    assert_eq!(try_clean_line(ALPHABET, 2, None, "b"), Some("...bc...".to_string()));
    assert_eq!(try_clean_line(ALPHABET, 0, None, "b"), Some("......".to_string()));
    assert_eq!(try_clean_line("ab", 2, None, "0"), Some("ab".to_string()));
    assert_eq!(try_clean_line(ALPHABET, 3, None, "0"), Some("...".to_string()));
    let re = ContextRegex::around("yz").unwrap();
    assert_eq!(try_clean_line(ALPHABET, 2, Some(&re), "0"), None);
}

#[test]
fn clip_and_show_whole() {
    assert_eq!(clip(ALPHABET, 4, Some(100)), "...wxyz");
    assert_eq!(clip("ab", 9, Some(0)), "ab...");
    assert_eq!(clip("ab", 9, None), "ab...");
    assert_eq!(show_whole("abc", 3, None), Some("abc"));
    assert_eq!(show_whole("abc", 2, None), None);
    assert_eq!(show_whole("abc", 2, Some("bc")), Some("bc"));
    assert_eq!(show_whole("abc", 3, Some("b")), Some("b"));
}

#[test]
fn context_expression_takes_the_pattern_literally() {
    assert_eq!(context_text("foo"), "(?i).{0,20}foo.*");
    assert_eq!(
        context_text(r"\.+*?()|[]{}^$#&-~ a/%"),
        r"(?i).{0,20}\\\.\+\*\?\(\)\|\[\]\{\}\^\$\#\&\-\~ a/%.*"
    );
}

#[test]
fn compact_keeps_the_first_component_and_the_last_two() {
    assert_eq!(
        compact_path("/Users/patrick/dev/project/src/components/Button.tsx"),
        "/.../components/Button.tsx"
    );
    let long = "a/bbbbbbbbbbbbbbbbbbbbbbbbbbbbbbbbbbbbbbbbbbbbbbbbbbbbbbbbbbbbb/c";
    assert_eq!(compact_path(long), long);
    let four = "a/b/cccccccccccccccccccccccccccccccccccccccccccccccccccccccc/d";
    let shorter = "a/.../cccccccccccccccccccccccccccccccccccccccccccccccccccccccc/d";
    assert_eq!(compact_path(four), shorter);
    assert_eq!(compact_path(shorter), shorter);
}

#[test]
fn compact_counts_bytes() {
    let fifty = "a/b/c/d/eeeeeeeeeeeeeeeeeeeeeeeeeeeeeeeeeeeeeeeeee";
    assert_eq!(fifty.len(), 50);
    assert_eq!(compact_path(fifty), fifty);
    let more = "a/b/c/d/eeeeeeeeeeeeeeeeeeeeeeeeeeeeeeeeeeeeeeeee\u{e9}";
    assert_eq!(more.len(), 51);
    assert_eq!(compact_path(more), "a/.../d/eeeeeeeeeeeeeeeeeeeeeeeeeeeeeeeeeeeeeeeee\u{e9}");
}

#[test]
fn clean_is_short_and_shows_the_pattern() {
    for max_len in 3..30 {
        for c in ALPHABET.chars() {
            let cleaned = clean_line(&format!("  {}  ", ALPHABET), max_len, None, &c.to_string());
            assert!(cleaned.chars().count() <= max_len + 6);
            assert!(cleaned.contains(c));
            assert!(!cleaned.starts_with(' '));
        }
        let cleaned = clean_line(ALPHABET, max_len, None, "0");
        assert!(cleaned.len() <= max_len);
    }
}

#[test]
fn context_expression_is_kept_where_it_was_compiled() {
    let error = Regex::new("(").unwrap_err();
    assert!(ContextRegex::if_compiled(Err(error)).is_none());
    let re = ContextRegex::around("m").unwrap();
    let kept = ContextRegex::if_compiled(Ok(re)).unwrap();
    assert_eq!(clean_line(ALPHABET, 30, Some(&kept), "m"), ALPHABET);
    assert_eq!(clean_line(&format!("{}{}", ALPHABET, ALPHABET), 60, Some(&kept), "m").len(), 52);
    let late = ContextRegex::if_compiled(Ok(ContextRegex::around("Z").unwrap())).unwrap();
    assert_eq!(clean_line(ALPHABET, 30, Some(&late), "Z"), &ALPHABET[5..]);
}
