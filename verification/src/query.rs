//! What is searched for, and the commands that search for it.
use crate::args::{
    explicit_of, extract_pattern_path, flags_of, items, law_collected, law_no_words,
    law_operand_word, law_patterns_and_paths, operands_of, paths_of, patterns_of, words, Argument,
    Item,
};
use crate::text::{is_part, join, joined, law_join_concat, occurs_at, to_chars, views};
use vstd::prelude::*;

verus! {

/// A search: patterns, the paths to search, and flags to hand on.
pub struct Query {
    pub patterns: Vec<String>,
    pub paths: Vec<String>,
    pub flags: Vec<String>,
}

/// The view of a `Query`.
pub struct QueryView {
    pub patterns: Seq<Seq<char>>,
    pub paths: Seq<Seq<char>>,
    pub flags: Seq<Seq<char>>,
}

impl View for Query {
    type V = QueryView;

    open spec fn view(&self) -> QueryView {
        QueryView {
            patterns: views(self.patterns@),
            paths: views(self.paths@),
            flags: views(self.flags@),
        }
    }
}

/// The search that a command line asks for; `None` where it names no pattern. Without paths
/// the current directory is searched.
pub open spec fn query_of(words: Seq<Seq<char>>) -> Option<QueryView> {
    let read = items(words);
    if patterns_of(read).len() == 0 {
        None
    } else {
        Some(
            QueryView {
                patterns: patterns_of(read),
                paths: if paths_of(read).len() == 0 {
                    seq!["."@]
                } else {
                    paths_of(read)
                },
                flags: flags_of(read),
            },
        )
    }
}

/// Reads the search that a command line asks for.
pub fn plan_search<T: Argument>(args: &[T]) -> (r: Option<Query>)
    ensures
        match r {
            Some(q) => query_of(words(args@)) == Some(q@),
            None => query_of(words(args@)) is None,
        },
{
    let (patterns, mut paths, flags) = extract_pattern_path(args);
    if patterns.len() == 0 {
        assert(views(patterns@).len() == 0);
        return None;
    }
    if paths.len() == 0 {
        paths.push(".".to_string());
        assert(views(paths@) =~= seq!["."@]);
    }
    Some(Query { patterns, paths, flags })
}

/// The patterns as they are shown.
pub open spec fn pattern_display(q: QueryView) -> Seq<char> {
    join(q.patterns, "|"@)
}

/// The paths as they are shown.
pub open spec fn path_display(q: QueryView) -> Seq<char> {
    join(q.paths, " "@)
}

/// What is said before the search, where `verbose` asks for it.
pub open spec fn notice_of(q: QueryView, verbose: u8) -> Option<Seq<char>> {
    if verbose == 0 {
        None
    } else {
        Some("grep: '"@ + pattern_display(q) + "' in "@ + path_display(q))
    }
}

impl Query {
    /// The patterns as they are shown.
    pub fn pattern_display(&self) -> (r: String)
        ensures
            r@ == pattern_display(self@),
    {
        joined(self.patterns.as_slice(), "|")
    }

    /// The paths as they are shown.
    pub fn path_display(&self) -> (r: String)
        ensures
            r@ == path_display(self@),
    {
        joined(self.paths.as_slice(), " ")
    }

    /// What is said before the search, where `verbose` asks for it.
    pub fn notice(&self, verbose: u8) -> (r: Option<String>)
        ensures
            match r {
                Some(s) => verbose > 0 && s@ == "grep: '"@ + pattern_display(self@) + "' in "@
                    + path_display(self@),
                None => verbose == 0,
            },
            match r {
                Some(s) => notice_of(self@, verbose) == Some(s@),
                None => notice_of(self@, verbose) is None,
            },
    {
        if verbose == 0 {
            return None;
        }
        let mut r = String::new();
        let patterns = self.pattern_display();
        let paths = self.path_display();
        r.append("grep: '");
        r.append(patterns.as_str());
        r.append("' in ");
        r.append(paths.as_str());
        assert(r@ =~= "grep: '"@ + pattern_display(self@) + "' in "@ + path_display(self@));
        Some(r)
    }
}

/// A pattern with `\|`, the alternation of basic regular expressions, written `|`.
pub open spec fn translated(pattern: Seq<char>) -> Seq<char>
    decreases pattern.len(),
{
    if pattern.len() == 0 {
        seq![]
    } else if pattern.len() >= 2 && pattern[0] == '\\' && pattern[1] == '|' {
        seq!['|'] + translated(pattern.skip(2))
    } else {
        seq![pattern[0]] + translated(pattern.skip(1))
    }
}

/// Translates the alternation of basic regular expressions for rg.
pub fn translate_alternation(pattern: &str) -> (r: String)
    ensures
        r@ == translated(pattern@),
{
    let chars = to_chars(pattern);
    let mut r = String::new();
    let mut i: usize = 0;
    assert(pattern@.skip(0) =~= pattern@);
    while i < chars.len()
        invariant
            i <= chars@.len(),
            chars@ == pattern@,
            translated(pattern@) =~= r@ + translated(pattern@.skip(i as int)),
        decreases chars@.len() - i,
    {
        let ghost rest = pattern@.skip(i as int);
        if chars.len() - i >= 2 && chars[i] == '\\' && chars[i + 1] == '|' {
            assert(rest.skip(2) =~= pattern@.skip(i + 2));
            r.push('|');
            i += 2;
        } else {
            assert(rest.skip(1) =~= pattern@.skip(i + 1));
            r.push(chars[i]);
            i += 1;
        }
    }
    r
}

/// A pattern without `\|` is handed on as it is.
pub proof fn law_plain_pattern_unchanged(pattern: Seq<char>)
    requires
        !is_part(pattern, seq!['\\', '|']),
    ensures
        translated(pattern) == pattern,
    decreases pattern.len(),
{
    if pattern.len() > 0 {
        let bar = seq!['\\', '|'];
        if pattern.len() >= 2 && pattern[0] == '\\' && pattern[1] == '|' {
            assert(pattern.subrange(0, 2) =~= bar);
            assert(occurs_at(pattern, bar, 0));
        }
        let rest = pattern.skip(1);
        if is_part(rest, bar) {
            let i = choose|i: int| occurs_at(rest, bar, i);
            assert(rest.subrange(i, i + 2) =~= pattern.subrange(i + 1, i + 3));
            assert(occurs_at(pattern, bar, i + 1));
        }
        law_plain_pattern_unchanged(rest);
        assert(seq![pattern[0]] + rest =~= pattern);
    } else {
        assert(pattern =~= seq![]);
    }
}

/// Patterns as arguments, each after an `-e`.
pub open spec fn pattern_args(patterns: Seq<Seq<char>>) -> Seq<Seq<char>>
    decreases patterns.len(),
{
    if patterns.len() == 0 {
        seq![]
    } else {
        pattern_args(patterns.drop_last()).push("-e"@).push(patterns.last())
    }
}

/// The arguments of rg. Line numbers, file names and a NUL after each file name are always
/// asked for, and files that a version control system ignores are searched too. The patterns
/// are translated, and nothing after `--` can be taken for a flag.
pub open spec fn rg_command(q: QueryView, file_type: Option<Seq<char>>) -> Seq<Seq<char>> {
    seq!["-nH0"@, "--no-heading"@, "--no-ignore-vcs"@] + match file_type {
        Some(t) => seq!["--type"@, t],
        None => seq![],
    } + q.flags + pattern_args(q.patterns.map_values(|p: Seq<char>| translated(p))) + seq!["--"@]
        + q.paths
}

/// The arguments of grep: the patterns as they were given.
pub open spec fn grep_command(q: QueryView) -> Seq<Seq<char>> {
    q.flags + pattern_args(q.patterns) + seq!["-rnHZ"@, "--"@] + q.paths
}

/// Adds the words `more` to `args`.
pub(crate) fn push_all(args: &mut Vec<String>, more: &Vec<String>)
    ensures
        views(final(args)@) == views(old(args)@) + views(more@),
{
    let ghost start = views(args@);
    let mut i: usize = 0;
    while i < more.len()
        invariant
            i <= more@.len(),
            views(args@) =~= start + views(more@).take(i as int),
        decreases more@.len() - i,
    {
        push_word(args, more[i].as_str());
        i += 1;
    }
    assert(views(more@).take(i as int) =~= views(more@));
}

/// Adds a word to `args`.
pub(crate) fn push_word(args: &mut Vec<String>, word: &str)
    ensures
        views(final(args)@) == views(old(args)@).push(word@),
{
    let ghost start = views(args@);
    args.push(word.to_string());
    assert(views(args@) =~= start.push(word@));
}

/// Writes the arguments of rg.
pub fn rg_args(q: &Query, file_type: Option<&str>) -> (r: Vec<String>)
    ensures
        views(r@) == rg_command(
            q@,
            match file_type {
                Some(t) => Some(t@),
                None => None,
            },
        ),
{
    let mut r: Vec<String> = Vec::new();
    assert(views(r@) =~= seq![]);
    push_word(&mut r, "-nH0");
    push_word(&mut r, "--no-heading");
    push_word(&mut r, "--no-ignore-vcs");
    match file_type {
        Some(t) => {
            push_word(&mut r, "--type");
            push_word(&mut r, t);
        },
        None => {},
    }
    push_all(&mut r, &q.flags);
    let ghost start = views(r@);
    let ghost all = q@.patterns.map_values(|p: Seq<char>| translated(p));
    let mut i: usize = 0;
    assert(start =~= start + pattern_args(all.take(0)));
    while i < q.patterns.len()
        invariant
            i <= q.patterns@.len(),
            all == q@.patterns.map_values(|p: Seq<char>| translated(p)),
            views(r@) == start + pattern_args(all.take(i as int)),
        decreases q.patterns@.len() - i,
    {
        let p = translate_alternation(q.patterns[i].as_str());
        push_word(&mut r, "-e");
        push_word(&mut r, p.as_str());
        proof {
            let next = all.take(i + 1);
            assert(next.drop_last() =~= all.take(i as int));
            assert(next.last() == p@);
            assert(views(r@) =~= start + pattern_args(next));
        }
        i += 1;
    }
    assert(all.take(i as int) =~= all);
    push_word(&mut r, "--");
    push_all(&mut r, &q.paths);
    assert(views(r@) =~= rg_command(
        q@,
        match file_type {
            Some(t) => Some(t@),
            None => None,
        },
    ));
    r
}

/// Writes the arguments of grep.
pub fn grep_args(q: &Query) -> (r: Vec<String>)
    ensures
        views(r@) == grep_command(q@),
{
    let mut r: Vec<String> = Vec::new();
    assert(views(r@) =~= seq![]);
    push_all(&mut r, &q.flags);
    let ghost start = views(r@);
    let ghost all = q@.patterns;
    let mut i: usize = 0;
    assert(start =~= start + pattern_args(all.take(0)));
    while i < q.patterns.len()
        invariant
            i <= q.patterns@.len(),
            all == q@.patterns,
            views(r@) == start + pattern_args(all.take(i as int)),
        decreases q.patterns@.len() - i,
    {
        push_word(&mut r, "-e");
        push_word(&mut r, q.patterns[i].as_str());
        proof {
            let next = all.take(i + 1);
            assert(next.drop_last() =~= all.take(i as int));
            assert(next.last() == q.patterns@[i as int]@);
            assert(views(r@) =~= start + pattern_args(next));
        }
        i += 1;
    }
    assert(all.take(i as int) =~= all);
    push_word(&mut r, "-rnHZ");
    push_word(&mut r, "--");
    push_all(&mut r, &q.paths);
    assert(views(r@) =~= grep_command(q@));
    r
}

/// Whatever the command line asks for, rg is told to number the lines, to print each file name
/// with a NUL after it, not to group the matches, and to search ignored files; grep to search
/// directories, to number the lines and to print file names with a NUL. Both get the paths after
/// `--`.
pub proof fn law_commands(q: QueryView, file_type: Option<Seq<char>>)
    ensures
        rg_command(q, file_type).take(3) == seq!["-nH0"@, "--no-heading"@, "--no-ignore-vcs"@],
        rg_command(q, file_type).len() > q.paths.len(),
        rg_command(q, file_type).skip(rg_command(q, file_type).len() - q.paths.len() - 1) == seq![
            "--"@,
        ] + q.paths,
        grep_command(q).len() > q.paths.len() + 1,
        grep_command(q).skip(grep_command(q).len() - q.paths.len() - 2) == seq!["-rnHZ"@, "--"@]
            + q.paths,
{
    let rg = rg_command(q, file_type);
    let grep = grep_command(q);
    assert(rg.take(3) =~= seq!["-nH0"@, "--no-heading"@, "--no-ignore-vcs"@]);
    assert(rg.skip(rg.len() - q.paths.len() - 1) =~= seq!["--"@] + q.paths);
    assert(grep.skip(grep.len() - q.paths.len() - 2) =~= seq!["-rnHZ"@, "--"@] + q.paths);
}

/// Whether `pattern` is given after an `-e`, as number `i` from zero.
pub open spec fn is_given(args: Seq<Seq<char>>, i: int, pattern: Seq<char>) -> bool {
    args[2 * i] == "-e"@ && args[2 * i + 1] == pattern
}

/// Both commands are given every pattern, in its order, each after an `-e`: rg translated, grep
/// as it was given.
pub proof fn law_every_pattern_given(patterns: Seq<Seq<char>>)
    ensures
        pattern_args(patterns).len() == 2 * patterns.len(),
        forall|i: int|
            0 <= i < patterns.len() ==> #[trigger] is_given(
                pattern_args(patterns),
                i,
                patterns[i],
            ),
    decreases patterns.len(),
{
    if patterns.len() > 0 {
        let earlier = patterns.drop_last();
        law_every_pattern_given(earlier);
        assert forall|i: int| 0 <= i < patterns.len() implies #[trigger] is_given(
            pattern_args(patterns),
            i,
            patterns[i],
        ) by {
            if i < patterns.len() - 1 {
                assert(is_given(pattern_args(earlier), i, earlier[i]));
            }
        }
    }
}

/// Each `\|` is written `|`, and what stands before it and after it stays as it is, but for the
/// other ones.
pub proof fn law_alternation_replaced(a: Seq<char>, b: Seq<char>)
    requires
        !is_part(a, seq!['\\', '|']),
    ensures
        translated(a + seq!['\\', '|'] + b) == a + seq!['|'] + translated(b),
    decreases a.len(),
{
    let bar = seq!['\\', '|'];
    let all = a + bar + b;
    if a.len() == 0 {
        assert(all.skip(2) =~= b);
        assert(a + seq!['|'] + translated(b) =~= seq!['|'] + translated(b));
    } else {
        let rest = a.skip(1);
        if a[0] == '\\' && all[1] == '|' {
            assert(a.len() >= 2);
            assert(a.subrange(0, 2) =~= bar);
            assert(occurs_at(a, bar, 0));
        }
        if is_part(rest, bar) {
            let i = choose|i: int| occurs_at(rest, bar, i);
            assert(rest.subrange(i, i + 2) =~= a.subrange(i + 1, i + 3));
            assert(occurs_at(a, bar, i + 1));
        }
        law_alternation_replaced(rest, b);
        assert(all.skip(1) =~= rest + bar + b);
        assert(seq![a[0]] + (rest + seq!['|'] + translated(b)) =~= a + seq!['|'] + translated(b));
    }
}

/// Where the arguments of rg stand. For every search and every file type, given or not, the
/// flags of the search are handed on whole and in their order, after the fixed ones and the
/// type; then come the patterns, each translated and after an `-e`, then `--` and the paths; and
/// nothing else.
pub proof fn law_rg_arguments(q: QueryView, file_type: Option<Seq<char>>)
    ensures
        ({
            let r = rg_command(q, file_type);
            let k: int = if file_type is Some {
                5
            } else {
                3
            };
            let n = q.flags.len();
            let m = q.patterns.len();
            &&& r.len() == k + n + 2 * m + 1 + q.paths.len()
            &&& r[0] == "-nH0"@
            &&& r[1] == "--no-heading"@
            &&& r[2] == "--no-ignore-vcs"@
            &&& file_type matches Some(t) ==> r[3] == "--type"@ && r[4] == t
            &&& r.subrange(k, k + n) == q.flags
            &&& forall|i: int|
                0 <= i < m ==> #[trigger] is_given(r.skip(k + n), i, translated(q.patterns[i]))
            &&& r[k + n + 2 * m] == "--"@
            &&& r.skip(k + n + 2 * m + 1) == q.paths
        }),
{
    let r = rg_command(q, file_type);
    let k: int = if file_type is Some {
        5
    } else {
        3
    };
    let n = q.flags.len() as int;
    let m = q.patterns.len() as int;
    let patterns = q.patterns.map_values(|p: Seq<char>| translated(p));
    law_every_pattern_given(patterns);
    assert(r.subrange(k, k + n) =~= q.flags);
    assert(r.skip(k + n).take(2 * m) =~= pattern_args(patterns));
    assert forall|i: int| 0 <= i < m implies #[trigger] is_given(
        r.skip(k + n),
        i,
        translated(q.patterns[i]),
    ) by {
        assert(is_given(pattern_args(patterns), i, patterns[i]));
        assert(r.skip(k + n)[2 * i] == pattern_args(patterns)[2 * i]);
        assert(r.skip(k + n)[2 * i + 1] == pattern_args(patterns)[2 * i + 1]);
    }
    assert(r.skip(k + n + 2 * m + 1) =~= q.paths);
}

/// Where the arguments of grep stand: the flags of the search first, whole and in their order,
/// then the patterns as they were given, each after an `-e`, then the fixed flags, `--` and the
/// paths; and nothing else.
pub proof fn law_grep_arguments(q: QueryView)
    ensures
        ({
            let r = grep_command(q);
            let n = q.flags.len() as int;
            let m = q.patterns.len() as int;
            &&& r.len() == n + 2 * m + 2 + q.paths.len()
            &&& r.take(n) == q.flags
            &&& forall|i: int| 0 <= i < m ==> #[trigger] is_given(r.skip(n), i, q.patterns[i])
            &&& r[n + 2 * m] == "-rnHZ"@
            &&& r[n + 2 * m + 1] == "--"@
            &&& r.skip(n + 2 * m + 2) == q.paths
        }),
{
    let r = grep_command(q);
    let n = q.flags.len() as int;
    let m = q.patterns.len() as int;
    law_every_pattern_given(q.patterns);
    assert(r.take(n) =~= q.flags);
    assert(r.skip(n).take(2 * m) =~= pattern_args(q.patterns));
    assert forall|i: int| 0 <= i < m implies #[trigger] is_given(r.skip(n), i, q.patterns[i]) by {
        assert(is_given(pattern_args(q.patterns), i, q.patterns[i]));
        assert(r.skip(n)[2 * i] == pattern_args(q.patterns)[2 * i]);
        assert(r.skip(n)[2 * i + 1] == pattern_args(q.patterns)[2 * i + 1]);
    }
    assert(r.skip(n + 2 * m + 2) =~= q.paths);
}

/// All patterns are shown, with a bar between any two, and all paths, with a space between any
/// two: what is shown of a search is what is shown of two parts of it.
pub proof fn law_display(a: QueryView, b: QueryView, q: QueryView)
    ensures
        q.patterns == a.patterns + b.patterns && a.patterns.len() > 0 && b.patterns.len() > 0
            ==> pattern_display(q) == pattern_display(a) + seq!['|'] + pattern_display(b),
        q.patterns.len() == 1 ==> pattern_display(q) == q.patterns[0],
        q.paths == a.paths + b.paths && a.paths.len() > 0 && b.paths.len() > 0 ==> path_display(q)
            == path_display(a) + seq![' '] + path_display(b),
        q.paths.len() == 1 ==> path_display(q) == q.paths[0],
{
    reveal_strlit("|");
    reveal_strlit(" ");
    assert("|"@ =~= seq!['|']);
    assert(" "@ =~= seq![' ']);
    law_join_concat(a.patterns, b.patterns, "|"@);
    law_join_concat(a.paths, b.paths, " "@);
}

/// The search that a command line asks for has all its flags, and its patterns: those given with
/// `-e`, or else the first operand. The other operands are the paths, or the current directory
/// where there are none. Only a command line without `-e` and without operands asks for none.
pub proof fn law_query(words: Seq<Seq<char>>)
    ensures
        ({
            let explicit = explicit_of(items(words));
            let operands = operands_of(items(words));
            match query_of(words) {
                None => explicit.len() == 0 && operands.len() == 0,
                Some(q) => {
                    let first: int = if explicit.len() > 0 {
                        0
                    } else {
                        1
                    };
                    &&& explicit.len() > 0 || operands.len() > 0
                    &&& q.flags == flags_of(items(words))
                    &&& explicit.len() > 0 ==> q.patterns == explicit
                    &&& explicit.len() == 0 ==> q.patterns == seq![operands[0]]
                    &&& operands.len() == first ==> q.paths == seq![seq!['.']]
                    &&& operands.len() > first ==> q.paths == operands.skip(first)
                },
            }
        }),
{
    reveal_strlit(".");
    assert("."@ =~= seq!['.']);
    let operands = operands_of(items(words));
    law_patterns_and_paths(items(words));
    assert(operands.skip(0) =~= operands);
}

proof fn lemma_operands(words: Seq<Seq<char>>)
    requires
        forall|i: int|
            0 <= i < words.len() ==> (#[trigger] words[i]).len() < 2 || words[i][0] != '-',
    ensures
        operands_of(items(words)) == words,
        flags_of(items(words)).len() == 0,
        explicit_of(items(words)).len() == 0,
    decreases words.len(),
{
    if words.len() == 0 {
        law_no_words();
        assert(words =~= seq![]);
    } else {
        let rest = words.skip(1);
        assert forall|i: int| 0 <= i < rest.len() implies (#[trigger] rest[i]).len() < 2
            || rest[i][0] != '-' by {
            assert(rest[i] == words[i + 1]);
        }
        lemma_operands(rest);
        assert(words =~= seq![words[0]] + rest);
        law_operand_word(words[0], rest);
        let first = seq![Item::Operand(words[0])];
        law_collected(first, items(rest), words[0]);
        assert(flags_of(first).len() == 0);
    }
}

/// Words without dashes are a pattern and the paths, handed on as they are and in their order.
pub proof fn law_plain_search(pattern: Seq<char>, paths: Seq<Seq<char>>)
    requires
        pattern.len() < 2 || pattern[0] != '-',
        forall|i: int|
            0 <= i < paths.len() ==> (#[trigger] paths[i]).len() < 2 || paths[i][0] != '-',
    ensures
        query_of(seq![pattern] + paths) == Some(
            QueryView {
                patterns: seq![pattern],
                paths: if paths.len() == 0 {
                    seq![seq!['.']]
                } else {
                    paths
                },
                flags: seq![],
            },
        ),
{
    let words = seq![pattern] + paths;
    assert forall|i: int| 0 <= i < words.len() implies (#[trigger] words[i]).len() < 2
        || words[i][0] != '-' by {
        if i > 0 {
            assert(words[i] == paths[i - 1]);
        }
    }
    lemma_operands(words);
    law_query(words);
    assert(words.skip(1) =~= paths);
    assert(flags_of(items(words)) =~= seq![]);
}

/// Something is said before the search at every level of verbosity but zero, and it holds all
/// patterns and all paths as they are shown.
pub proof fn law_notice(q: QueryView, verbose: u8)
    ensures
        notice_of(q, verbose) is Some <==> verbose > 0,
        notice_of(q, verbose) matches Some(s) ==> {
            let n = pattern_display(q).len() as int;
            &&& s.len() == 7 + n + 5 + path_display(q).len()
            &&& s.take(7) == "grep: '"@
            &&& s.subrange(7, 7 + n) == pattern_display(q)
            &&& s.subrange(7 + n, 7 + n + 5) == "' in "@
            &&& s.skip(7 + n + 5) == path_display(q)
        },
{
    reveal_strlit("grep: '");
    reveal_strlit("' in ");
    if verbose > 0 {
        let s = notice_of(q, verbose)->0;
        let n = pattern_display(q).len() as int;
        assert(s.take(7) =~= "grep: '"@);
        assert(s.subrange(7, 7 + n) =~= pattern_display(q));
        assert(s.subrange(7 + n, 7 + n + 5) =~= "' in "@);
        assert(s.skip(7 + n + 5) =~= path_display(q));
    }
}

} // verus!
