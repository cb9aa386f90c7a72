//! Searches from the command line to the answer.
use rtk_grep::context::ContextRegex;
use rtk_grep::group::group_matches;
use rtk_grep::query::{grep_args, plan_search, rg_args, translate_alternation, Query};
use rtk_grep::report::render;
use rtk_grep::session::{
    advance, command, missing_pattern, plan, plan_info, reply_to_search, Limits, Output, Record,
    Reply, Request, Step, Tool,
};

const LIMITS: Limits = Limits { max_line_len: 80, max_results: 200, per_file: 25 };

fn query(args: &[&str]) -> Query {
    plan_search(args).unwrap()
}

fn output(stdout: &str, stderr: &str, exit_code: i32) -> Output {
    Output { stdout: stdout.to_string(), stderr: stderr.to_string(), exit_code }
}

fn finished(step: Step) -> Reply {
    match step {
        Step::Finish(reply) => reply,
        _ => panic!("not finished"),
    }
}

#[test]
fn test_bre_alternation_translated() {
    let pattern = r"fn foo\|pub.*bar";
    let rg_pattern = translate_alternation(pattern);
    assert_eq!(rg_pattern, "fn foo|pub.*bar");
}

#[test]
fn translation_is_that_of_replace() {
    for p in ["", r"\", "|", r"\|", r"\\|", r"a\|b\|", r"\|\", "plain", r"\\\||"] {
        assert_eq!(translate_alternation(p), p.replace(r"\|", "|"), "{:?}", p);
    }
}

#[test]
fn test_grep_overflow_uses_uncapped_total() {
    let per_file = LIMITS.per_file;
    let total_matches = per_file + 42;
    let overflow = total_matches - per_file;
    assert_eq!(overflow, 42, "overflow must equal true suppressed count");
    let hypothetical_cap = per_file + 5;
    let capped = total_matches.min(hypothetical_cap);
    let wrong_overflow = capped - per_file;
    assert_ne!(wrong_overflow, overflow, "capping before subtraction gives wrong overflow");

    let mut stdout = String::new();
    for i in 0..total_matches {
        stdout.push_str(&format!("f\x00{}:x\n", i));
    }
    let (groups, total) = group_matches(&stdout, 80, None, "x").unwrap();
    assert_eq!(total, total_matches);
    let text = render(&groups, total, per_file, 1000);
    assert!(text.starts_with(&format!("{} matches in 1 files:\n\nf:0:x\n", total_matches)));
    assert!(text.ends_with(&format!("f:{}:x\n[+42 more]\n", per_file - 1)));
}

#[test]
fn test_rg_always_has_line_numbers() {
    let args = rg_args(&query(&["NONEXISTENT_PATTERN_12345", "."]), None);
    assert_eq!(
        args,
        vec![
            "-nH0",
            "--no-heading",
            "--no-ignore-vcs",
            "-e",
            "NONEXISTENT_PATTERN_12345",
            "--",
            "."
        ],
        "rg -n should be accepted"
    );
}

#[test]
fn test_rg_no_ignore_vcs_flag_accepted() {
    for args in [vec!["NONEXISTENT_PATTERN_12345", "."], vec!["-n", "--no-heading", "-e", "x"]] {
        let args = rg_args(&query(&args), Some("rust"));
        assert!(
            args.iter().any(|a| a == "--no-ignore-vcs"),
            "rg --no-ignore-vcs should be accepted"
        );
    }
}

#[test]
fn rg_command_line() {
    let q = query(&["-ri", r"-e", r"a\|b", "-e", "c", "-A", "2", "src", "tests"]);
    assert_eq!(
        rg_args(&q, Some("rust")),
        vec![
            "-nH0", "--no-heading", "--no-ignore-vcs", "--type", "rust", "-i", "-A", "2", "-e", "a|b",
            "-e", "c", "--", "src", "tests"
        ]
    );
    assert_eq!(
        grep_args(&q),
        vec!["-i", "-A", "2", "-e", r"a\|b", "-e", "c", "-rnHZ", "--", "src", "tests"]
    );
    assert_eq!(q.pattern_display(), r"a\|b|c");
    assert_eq!(q.path_display(), "src tests");
    assert_eq!(q.notice(1).unwrap(), r"grep: 'a\|b|c' in src tests");
    assert_eq!(q.notice(0), None);
}

#[test]
fn search_defaults_to_the_current_directory() {
    let q = query(&["foo"]);
    assert_eq!(q.paths, vec!["."]);
    assert!(plan_search(&["-i"]).is_none());
}

#[test]
fn plan_without_a_pattern() {
    for args in [vec![], vec!["-i"], vec!["-e"], vec!["--"]] {
        match plan(&args) {
            Ok(_) => panic!("planned"),
            Err(reply) => {
                assert_eq!(reply.exit_code, 1);
                assert_eq!(reply.stderr, "rtk grep: pattern required (positional or -e)\n");
                assert_eq!(reply.stdout, "");
                assert!(matches!(reply.record, Record::Nothing));
            }
        }
    }
    assert_eq!(missing_pattern().exit_code, 1);
}

#[test]
fn info_goes_to_the_tool_as_it_is() {
    let args = vec!["-r".to_string(), "--version".to_string()];
    let request = plan_info(&args).unwrap();
    assert_eq!(command(&request, Tool::Rg, Some("rust")), args);
    assert_eq!(command(&request, Tool::Grep, None), args);
    let step = advance(&request, Tool::Grep, Some(output(" v1 \n", " e \n", 3)), LIMITS, false);
    let reply = finished(step);
    assert_eq!(reply.stdout, " v1 \n");
    assert_eq!(reply.stderr, " e \n");
    assert_eq!(reply.exit_code, 3);
    assert!(matches!(reply.record, Record::Nothing));
    assert!(plan_info(&vec!["-r".to_string()]).is_none());
}

#[test]
fn grep_is_tried_where_rg_cannot_be_run() {
    let request = Request::Search(query(&["foo"]));
    assert_eq!(command(&request, Tool::Rg, None).last().unwrap(), ".");
    assert_eq!(command(&request, Tool::Grep, None), vec!["-e", "foo", "-rnHZ", "--", "."]);
    assert!(matches!(
        advance(&request, Tool::Rg, None, LIMITS, false),
        Step::Run(Tool::Grep)
    ));
    assert!(matches!(advance(&request, Tool::Grep, None, LIMITS, false), Step::Failed));
}

#[test]
fn output_with_a_format_flag_is_handed_on() {
    let q = query(&["-c", "-i", "foo", "src"]);
    let reply = reply_to_search(&q, output("  f:3\n", " warn \n", 0), LIMITS, None).unwrap();
    assert_eq!(reply.stdout, "  f:3\n");
    assert_eq!(reply.stderr, "warn");
    assert_eq!(reply.exit_code, 0);
    match reply.record {
        Record::Passthrough { original, filtered } => {
            assert_eq!(original, "grep -c -i 'foo' src");
            assert_eq!(filtered, "rtk grep -c -i 'foo' src (passthrough)");
        }
        _ => panic!("filtered"),
    }
}

#[test]
fn no_matches() {
    let q = query(&["-e", "a", "-e", "b", "src"]);
    let reply = reply_to_search(&q, output(" \n", " bad \n", 2), LIMITS, None).unwrap();
    assert_eq!(reply.stdout, "0 matches for 'a|b'\n");
    assert_eq!(reply.stderr, "bad\n");
    assert_eq!(reply.exit_code, 2);
    match reply.record {
        Record::Filtered { original, filtered, input, output } => {
            assert_eq!(original, "grep -rn 'a|b' src");
            assert_eq!(filtered, "rtk grep");
            assert_eq!(input, " \n");
            assert_eq!(output, "0 matches for 'a|b'");
        }
        _ => panic!("not filtered"),
    }
    let reply = reply_to_search(&q, output("", " bad \n", 1), LIMITS, None).unwrap();
    assert_eq!(reply.stderr, "");
    assert_eq!(reply.exit_code, 1);
    let reply = reply_to_search(&q, output("", " \n", 2), LIMITS, None).unwrap();
    assert_eq!(reply.stderr, "");
}

const FOUND: &str = "b.rs\x003:  three \na.rs\x0010:ten\r\nb.rs-4-context\nb.rs\x001:one\na.rs\x0012:twelve";

#[test]
fn matches_are_grouped_by_file() {
    let (groups, total) = group_matches(FOUND, 80, None, "t").unwrap();
    assert_eq!(total, 4);
    assert_eq!(groups.len(), 2);
    assert_eq!(groups[0].file, "a.rs");
    assert_eq!(groups[0].matches, vec![(10, "ten".to_string()), (12, "twelve".to_string())]);
    assert_eq!(groups[1].file, "b.rs");
    assert_eq!(groups[1].matches, vec![(3, "three".to_string()), (1, "one".to_string())]);
    assert!(group_matches(FOUND, 2, None, "0").is_none());
    let (groups, total) = group_matches("nothing\nhere\n", 2, None, "0").unwrap();
    assert_eq!((groups.len(), total), (0, 0));
}

#[test]
fn groups_come_in_the_order_of_their_files() {
    let mut stdout = String::new();
    for i in 0..50 {
        stdout.push_str(&format!("{}\x00{}:x\n", (i * 37) % 50, i));
    }
    let (groups, total) = group_matches(&stdout, 80, None, "x").unwrap();
    assert_eq!(total, 50);
    let files: Vec<String> = groups.iter().map(|g| g.file.clone()).collect();
    let mut sorted = files.clone();
    sorted.sort();
    sorted.dedup();
    assert_eq!(files, sorted);
    assert_eq!(files.len(), 50);
}

#[test]
fn report_text() {
    let (groups, total) = group_matches(FOUND, 80, None, "t").unwrap();
    let all = "4 matches in 2 files:\n\na.rs:10:ten\na.rs:12:twelve\nb.rs:3:three\nb.rs:1:one\n";
    assert_eq!(render(&groups, total, 2, 4), all);
    assert_eq!(
        render(&groups, total, 1, 4),
        "4 matches in 2 files:\n\na.rs:10:ten\nb.rs:3:three\n[+2 more]\n"
    );
    assert_eq!(
        render(&groups, total, 2, 3),
        "4 matches in 2 files:\n\na.rs:10:ten\na.rs:12:twelve\nb.rs:3:three\n[+1 more]\n"
    );
    assert_eq!(render(&groups, total, 2, 0), "4 matches in 2 files:\n\n[+4 more]\n");
    assert_eq!(render(&groups, total, 0, 9), "4 matches in 2 files:\n\n[+4 more]\n");
}

#[test]
fn search_is_answered_with_the_report() {
    let request = Request::Search(query(&["t", "src"]));
    let reply = finished(advance(&request, Tool::Rg, Some(output(FOUND, "e", 0)), LIMITS, false));
    let text = "4 matches in 2 files:\n\na.rs:10:ten\na.rs:12:twelve\nb.rs:3:three\nb.rs:1:one\n";
    assert_eq!(reply.stdout, text);
    assert_eq!(reply.stderr, "");
    assert_eq!(reply.exit_code, 0);
    match reply.record {
        Record::Filtered { original, filtered, input, output } => {
            assert_eq!(original, "grep -rn 't' src");
            assert_eq!(filtered, "rtk grep");
            assert_eq!(input, FOUND);
            assert_eq!(output, text);
        }
        _ => panic!("not filtered"),
    }
}

#[test]
fn lines_that_are_no_matches_count_for_nothing() {
    let q = query(&["t"]);
    let reply = reply_to_search(&q, output("f-1-x\n", "", 0), LIMITS, None).unwrap();
    assert_eq!(reply.stdout, "0 matches in 0 files:\n\n");
}

#[test]
fn context_only_cuts_lines_by_the_expression() {
    let line = "f\x001:0123456789abcdefghijklmNopqrst\n";
    let request = Request::Search(query(&["n"]));
    let whole = finished(advance(&request, Tool::Rg, Some(output(line, "", 0)), LIMITS, false));
    assert_eq!(
        whole.stdout,
        "1 matches in 1 files:\n\nf:1:0123456789abcdefghijklmNopqrst\n"
    );
    let cut = finished(advance(&request, Tool::Rg, Some(output(line, "", 0)), LIMITS, true));
    assert_eq!(cut.stdout, "1 matches in 1 files:\n\nf:1:3456789abcdefghijklmNopqrst\n");
    let re = ContextRegex::around("n").unwrap();
    let q = query(&["n"]);
    let reply = reply_to_search(&q, output(line, "", 0), LIMITS, Some(&re)).unwrap();
    assert_eq!(reply.stdout, cut.stdout);
}

#[test]
fn lines_too_narrow_for_dots() {
    let limits = Limits { max_line_len: 2, max_results: 9, per_file: 9 };
    let request = Request::Search(query(&["zzz"]));
    let step = advance(&request, Tool::Rg, Some(output(FOUND, "", 0)), limits, false);
    assert!(matches!(step, Step::TooNarrow));
}

#[test]
fn three_characters_are_enough() {
    let limits = Limits { max_line_len: 3, max_results: 9, per_file: 9 };
    let request = Request::Search(query(&["zzz"]));
    let reply = finished(advance(&request, Tool::Grep, Some(output(FOUND, "", 7)), limits, false));
    assert_eq!(
        reply.stdout,
        "4 matches in 2 files:\n\na.rs:10:ten\na.rs:12:...\nb.rs:3:...\nb.rs:1:one\n"
    );
    assert_eq!(reply.exit_code, 7);
}
