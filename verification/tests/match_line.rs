//! Reading the lines of matches.
use regex::Regex;
use rtk_grep::match_line::parse_match_line;

#[test]
fn test_parse_match_line_simple() {
    let line = "file.php\x0010:use Foo\\Bar;";
    let (file, line_num, content) = parse_match_line(line).unwrap();
    assert_eq!(file, "file.php");
    assert_eq!(line_num, 10);
    assert_eq!(content, "use Foo\\Bar;");
}

#[test]
fn test_parse_match_line_content_with_double_colon() {
    let line = "externalImportShell.class.php\x0081:        $this->queueProcessModel = ClassRegistry::init('Collections.QueueProcess');";
    let (file, line_num, content) = parse_match_line(line).unwrap();
    assert_eq!(file, "externalImportShell.class.php");
    assert_eq!(line_num, 81);
    assert_eq!(
        content,
        "        $this->queueProcessModel = ClassRegistry::init('Collections.QueueProcess');"
    );
}

#[test]
fn test_parse_match_line_windows_path() {
    let line = "C:\\src\\file.rs\x0042:fn main() {}";
    let (file, line_num, content) = parse_match_line(line).unwrap();
    assert_eq!(file, r"C:\src\file.rs");
    assert_eq!(line_num, 42);
    assert_eq!(content, "fn main() {}");
}

#[test]
fn test_parse_match_line_filename_with_colons() {
    let line = "badly_named:52:file.txt\x001:xxx";
    let (file, line_num, content) = parse_match_line(line).unwrap();
    assert_eq!(file, "badly_named:52:file.txt");
    assert_eq!(line_num, 1);
    assert_eq!(content, "xxx");
}

#[test]
fn test_parse_match_line_content_with_digit_colons() {
    let line = "log.txt\x007:debug: counter is :42: now";
    let (file, line_num, content) = parse_match_line(line).unwrap();
    assert_eq!(file, "log.txt");
    assert_eq!(line_num, 7);
    assert_eq!(content, "debug: counter is :42: now");
}

#[test]
fn test_parse_match_line_malformed_returns_none() {
    // No NUL separator (e.g. rg/grep invoked without --null/-Z, or a
    // context line written with `-`).
    assert!(parse_match_line("file.rs:1:content").is_none());
    assert!(parse_match_line("not a match line").is_none());
    // Missing line number after NUL
    assert!(parse_match_line("file.rs\x00fn foo()").is_none());
    // Empty
    assert!(parse_match_line("").is_none());
}

#[test]
fn test_parse_match_line_empty_content() {
    let line = "file.rs\x007:";
    let (file, line_num, content) = parse_match_line(line).unwrap();
    assert_eq!(file, "file.rs");
    assert_eq!(line_num, 7);
    assert_eq!(content, "");
}

#[test]
fn parse_numbers() {
    let parsed = parse_match_line("f\x00007:x");
    assert_eq!(parsed, Some(("f".to_string(), 7, "x")));
    let largest = format!("f\x00{}:x", usize::MAX);
    assert_eq!(parse_match_line(&largest), Some(("f".to_string(), usize::MAX, "x")));
    let too_large = format!("f\x00{}0:x", usize::MAX);
    assert_eq!(parse_match_line(&too_large), None);
    assert_eq!(parse_match_line("f\x00+7:x"), None);
    assert_eq!(parse_match_line("f\x00:x"), None);
    assert_eq!(parse_match_line("f\x00\u{663}:x"), None);
}

#[test]
fn parse_nul_and_newline() {
    assert_eq!(parse_match_line("\x007:x"), None);
    assert_eq!(parse_match_line("f\x007:x\x00y:z"), Some(("f".to_string(), 7, "x\x00y:z")));
    assert_eq!(parse_match_line("f\ng\x007:x"), Some(("f\ng".to_string(), 7, "x")));
    assert_eq!(parse_match_line("f\x007:x\ny"), None);
    assert_eq!(parse_match_line("f\x007:x\n"), None);
    assert_eq!(parse_match_line("f\x007:x\r"), Some(("f".to_string(), 7, "x\r")));
    assert_eq!(parse_match_line("f\x007-x"), None);
}

#[test]
fn parse_reads_back_what_is_written() {
    for file in ["a", "a:1:b", "\u{e9}/\u{1f389} x"] {
        for number in [0, 9, 10, 12345] {
            for content in ["", ":", " 4: \u{1f389}"] {
                let line = format!("{}\x00{}:{}", file, number, content);
                assert_eq!(parse_match_line(&line), Some((file.to_string(), number, content)));
            }
        }
    }
}

#[test]
fn parse_agrees_with_the_regular_expression() {
    let re = Regex::new(r"^([^\x00]+)\x00(\d+):(.*)$").unwrap();
    let alphabet = ['a', '\x00', ':', '1', '\u{663}', '\n', '\r'];
    let mut lines: Vec<String> = vec![String::new()];
    let mut from = 0;
    for _ in 0..6 {
        let to = lines.len();
        for i in from..to {
            for c in alphabet {
                let mut line = lines[i].clone();
                line.push(c);
                lines.push(line);
            }
        }
        from = to;
    }
    for line in &lines {
        let expected = re.captures(line).and_then(|caps| {
            let (_, [file, number, content]) = caps.extract();
            let number: usize = number.parse().ok()?;
            Some((file.to_string(), number, content))
        });
        assert_eq!(parse_match_line(line), expected, "{:?}", line);
    }
}
