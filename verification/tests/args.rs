//! Reading the command line.
use rtk_grep::args::{
    extract_pattern_path, has_format_flag, has_info_flag, strip_r, strip_recursive, takes_value,
};

#[test]
fn test_strip_r() {
    assert_eq!(strip_r(""), None);
    assert_eq!(strip_r("r"), None);
    assert_eq!(strip_r("rr"), None);
    assert_eq!(strip_r("R"), None);
    assert_eq!(strip_r("rn"), Some("n".to_string()));
    assert_eq!(strip_r("Rni"), Some("ni".to_string()));
    assert_eq!(strip_r("i"), Some("i".to_string()));
}

#[test]
fn test_strip_recursive() {
    assert_eq!(strip_recursive("--recursive"), None);
    assert_eq!(strip_recursive("--glob"), Some("--glob".to_string()));
    assert_eq!(strip_recursive("--type"), Some("--type".to_string()));
}

#[test]
fn test_extract_simple() {
    let (patterns, paths, flags) = extract_pattern_path(&["foo", "src/"]);
    assert_eq!(patterns, vec!["foo"]);
    assert_eq!(paths, vec!["src/"]);
    assert!(flags.is_empty());
}

#[test]
fn test_extract_with_bool_flag() {
    let (patterns, paths, flags) = extract_pattern_path(&["-i", "foo", "src/"]);
    assert_eq!(patterns, vec!["foo"]);
    assert_eq!(paths, vec!["src/"]);
    assert_eq!(flags, vec!["-i"]);
}

#[test]
fn test_extract_value_taking_flag() {
    // -A 2 must not steal "error" as its value
    let (patterns, paths, flags) = extract_pattern_path(&["-A", "2", "error", "src"]);
    assert_eq!(patterns, vec!["error"]);
    assert_eq!(paths, vec!["src"]);
    assert_eq!(flags, vec!["-A", "2"]);
}

#[test]
fn test_extract_cluster_strip_r() {
    // -rn: r stripped, n forwarded (not leaked to rg as --replace value)
    let (patterns, paths, flags) = extract_pattern_path(&["-rn", "foo", "src"]);
    assert_eq!(patterns, vec!["foo"]);
    assert_eq!(paths, vec!["src"]);
    assert_eq!(flags, vec!["-n"]);
}

#[test]
fn test_extract_cluster_ending_in_e() {
    // -rne PATTERN: r stripped, n in prefix, e consumes PATTERN as pattern
    let (patterns, paths, flags) = extract_pattern_path(&["-rne", "PATTERN", "src"]);
    assert_eq!(patterns, vec!["PATTERN"]);
    assert_eq!(paths, vec!["src"]);
    assert_eq!(flags, vec!["-n"]);
}

#[test]
fn test_extract_cluster_ending_in_value_flag() {
    // -rA 2: r stripped, A consumes 2 as context value
    let (patterns, paths, flags) = extract_pattern_path(&["-rA", "2", "foo", "src"]);
    assert_eq!(patterns, vec!["foo"]);
    assert_eq!(paths, vec!["src"]);
    assert_eq!(flags, vec!["-A", "2"]);
}

#[test]
fn test_extract_multi_path() {
    let (patterns, paths, flags) = extract_pattern_path(&["TODO", "src", "tests"]);
    assert_eq!(patterns, vec!["TODO"]);
    assert_eq!(paths, vec!["src", "tests"]);
    assert!(flags.is_empty());
}

#[test]
fn test_extract_glob_value() {
    // -g '*.md' must not steal "agent" as its value
    let (patterns, paths, flags) = extract_pattern_path(&["-i", "x", "agent", "-g", "*.md"]);
    assert_eq!(patterns, vec!["x"]);
    assert_eq!(paths, vec!["agent"]);
    assert_eq!(flags, vec!["-i", "-g", "*.md"]);
}

#[test]
fn test_extract_e_flag() {
    let (patterns, paths, flags) = extract_pattern_path(&["-e", "fn run", "src"]);
    assert_eq!(patterns, vec!["fn run"]);
    assert_eq!(paths, vec!["src"]);
    assert!(flags.is_empty());
}

#[test]
fn test_extract_multi_e() {
    let (patterns, paths, flags) = extract_pattern_path(&["-e", "foo", "-e", "bar", "src"]);
    assert_eq!(patterns, vec!["foo", "bar"]);
    assert_eq!(paths, vec!["src"]);
    assert!(flags.is_empty());
}

#[test]
fn test_extract_dashdash_boundary() {
    // After --, args are positional even if they look like flags
    let (patterns, paths, flags) = extract_pattern_path(&["--", "--version"]);
    assert_eq!(patterns, vec!["--version"]);
    assert!(paths.is_empty());
    assert!(flags.is_empty());
}

#[test]
fn test_extract_no_args() {
    let (patterns, paths, flags) = extract_pattern_path::<&str>(&[]);
    assert!(patterns.is_empty());
    assert!(paths.is_empty());
    assert!(flags.is_empty());
}

#[test]
fn test_extract_default_path_empty() {
    // Caller is responsible for defaulting empty paths to ["."]
    let (patterns, paths, _) = extract_pattern_path(&["foo"]);
    assert_eq!(patterns, vec!["foo"]);
    assert!(paths.is_empty());
}

#[test]
fn test_extract_ending_e() {
    let (patterns, paths, flags) =
        extract_pattern_path(&["-e", "foo", "-e", "bar", "src", "-e"]);
    assert_eq!(patterns, vec!["foo", "bar"]);
    assert_eq!(paths, vec!["src"]);
    assert_eq!(flags, vec!["-e"]);
}

#[test]
fn test_format_flag_detects_count() {
    assert!(has_format_flag(&["-c"]));
    assert!(has_format_flag(&["--count"]));
}

#[test]
fn test_format_flag_detects_files_with_matches() {
    assert!(has_format_flag(&["-l"]));
    assert!(has_format_flag(&["--files-with-matches"]));
}

#[test]
fn test_format_flag_detects_files_without_match() {
    assert!(has_format_flag(&["-L"]));
    assert!(has_format_flag(&["--files-without-match"]));
}

#[test]
fn test_format_flag_detects_only_matching() {
    assert!(has_format_flag(&["-o"]));
    assert!(has_format_flag(&["--only-matching"]));
}

#[test]
fn test_format_flag_detects_null() {
    assert!(has_format_flag(&["-Z"]));
    assert!(has_format_flag(&["--null"]));
}

#[test]
fn test_format_flag_ignores_normal_flags() {
    assert!(!has_format_flag(&["-i", "-w", "-A", "3"]));
}

#[test]
fn extract_words_after_double_dash_are_operands() {
    let (patterns, paths, flags) =
        extract_pattern_path(&["-i", "--", "-e", "--recursive", "-A", "--"]);
    assert_eq!(patterns, vec!["-e"]);
    assert_eq!(paths, vec!["--recursive", "-A", "--"]);
    assert_eq!(flags, vec!["-i"]);
}

#[test]
fn extract_every_value_flag_takes_the_next_word() {
    for flag in ["-A", "-B", "-C", "-g", "-f", "-j", "-m"] {
        let (patterns, paths, flags) = extract_pattern_path(&[flag, "--recursive", "p", "q"]);
        assert_eq!(patterns, vec!["p"]);
        assert_eq!(paths, vec!["q"]);
        assert_eq!(flags, vec![flag, "--recursive"]);
    }
}

#[test]
fn extract_value_flag_without_value() {
    let (patterns, paths, flags) = extract_pattern_path(&["p", "-irA"]);
    assert_eq!(patterns, vec!["p"]);
    assert!(paths.is_empty());
    assert_eq!(flags, vec!["-i", "-A"]);
}

#[test]
fn extract_value_letter_before_the_last_takes_nothing() {
    let (patterns, paths, flags) = extract_pattern_path(&["-Ar", "2", "foo"]);
    assert_eq!(patterns, vec!["2"]);
    assert_eq!(paths, vec!["foo"]);
    assert_eq!(flags, vec!["-A"]);
}

#[test]
fn extract_pattern_as_operand_or_with_e() {
    let bare = extract_pattern_path(&["foo", "-n", "src", "-g", "*.rs"]);
    let flagged = extract_pattern_path(&["-e", "foo", "-n", "src", "-g", "*.rs"]);
    assert_eq!(bare, flagged);
}

#[test]
fn extract_recursive_letters_change_nothing() {
    let plain = extract_pattern_path(&["-inA", "3", "foo"]);
    assert_eq!(extract_pattern_path(&["-rinRA", "3", "foo"]), plain);
    assert_eq!(extract_pattern_path(&["--recursive", "-inA", "3", "-r", "foo", "-RR"]), plain);
}

#[test]
fn extract_odd_words() {
    let (patterns, paths, flags) = extract_pattern_path(&["-", "", "-\u{e9}", "--r", "-5"]);
    assert_eq!(patterns, vec!["-"]);
    assert_eq!(paths, vec![""]);
    assert_eq!(flags, vec!["-\u{e9}", "--r", "-5"]);
}

#[test]
fn extract_takes_strings_too() {
    let args = vec!["-rn".to_string(), "foo".to_string()];
    let (patterns, paths, flags) = extract_pattern_path(&args);
    assert_eq!(patterns, vec!["foo"]);
    assert!(paths.is_empty());
    assert_eq!(flags, vec!["-n"]);
}

#[test]
fn info_flags() {
    assert!(has_info_flag(&["foo", "--version"]));
    assert!(has_info_flag(&["--help"]));
    assert!(has_info_flag(&["-h", "foo"]));
    assert!(!has_info_flag(&["-H", "--vers", "foo"]));
    assert!(!has_info_flag::<&str>(&[]));
}

#[test]
fn value_letters() {
    for c in "ABCgfjm".chars() {
        assert!(takes_value(c));
    }
    for c in "abcGFJMerR-".chars() {
        assert!(!takes_value(c));
    }
}
