//! The course of a search: which command is run next, and what is answered in the end.
use crate::args::{has_format_flag, has_info_flag, is_format_flag, is_info_flag, words, Argument};
use crate::clean::context_view;
use crate::context::{context_source, ContextRegex};
use crate::group::{all_cleanable, by_file, group_matches, rows, Cleaning};
use crate::query::{
    grep_args, grep_command, path_display, pattern_display, plan_search, push_all, query_of,
    rg_args, rg_command, Query, QueryView,
};
use crate::report::{render, report};
use crate::text::{
    is_white, join, joined, law_join_concat, law_trim_ends, law_trim_takes_white_space_only, lines,
    trim, trimmed, views,
};
use vstd::prelude::*;

verus! {

/// The commands that can do a search.
#[derive(Clone, Copy, PartialEq, Eq, Structural, Debug)]
pub enum Tool {
    Rg,
    Grep,
}

/// What a command line asks for.
pub enum Request {
    /// The version or the help of the search tool; the words go to it as they are.
    Info(Vec<String>),
    /// A search.
    Search(Query),
}

/// The view of a `Request`.
pub enum RequestView {
    Info(Seq<Seq<char>>),
    Search(QueryView),
}

impl View for Request {
    type V = RequestView;

    open spec fn view(&self) -> RequestView {
        match *self {
            Request::Info(args) => RequestView::Info(views(args@)),
            Request::Search(q) => RequestView::Search(q@),
        }
    }
}

/// The arguments with which a tool does what is asked for.
pub open spec fn command_of(
    request: RequestView,
    tool: Tool,
    file_type: Option<Seq<char>>,
) -> Seq<Seq<char>> {
    match request {
        RequestView::Info(args) => args,
        RequestView::Search(q) => match tool {
            Tool::Rg => rg_command(q, file_type),
            Tool::Grep => grep_command(q),
        },
    }
}

/// Writes the arguments with which a tool does what is asked for.
pub fn command(request: &Request, tool: Tool, file_type: Option<&str>) -> (r: Vec<String>)
    ensures
        views(r@) == command_of(
            request@,
            tool,
            match file_type {
                Some(t) => Some(t@),
                None => None,
            },
        ),
{
    match request {
        Request::Info(args) => {
            let mut r: Vec<String> = Vec::new();
            push_all(&mut r, args);
            assert(views(r@) =~= views(args@));
            r
        },
        Request::Search(q) => match tool {
            Tool::Rg => rg_args(q, file_type),
            Tool::Grep => grep_args(q),
        },
    }
}

/// What a command left behind.
pub struct Output {
    pub stdout: String,
    pub stderr: String,
    pub exit_code: i32,
}

/// The view of an `Output`.
pub struct OutputView {
    pub stdout: Seq<char>,
    pub stderr: Seq<char>,
    pub exit_code: i32,
}

impl View for Output {
    type V = OutputView;

    open spec fn view(&self) -> OutputView {
        OutputView { stdout: self.stdout@, stderr: self.stderr@, exit_code: self.exit_code }
    }
}

/// What is kept on record of a run.
pub enum Record {
    /// Nothing.
    Nothing,
    /// The command that would have been run otherwise, and the one that was run, where the
    /// output was not filtered.
    Passthrough { original: String, filtered: String },
    /// The same two commands, and the output before and after it was filtered.
    Filtered { original: String, filtered: String, input: String, output: String },
}

/// The view of a `Record`.
pub enum RecordView {
    Nothing,
    Passthrough { original: Seq<char>, filtered: Seq<char> },
    Filtered { original: Seq<char>, filtered: Seq<char>, input: Seq<char>, output: Seq<char> },
}

impl View for Record {
    type V = RecordView;

    open spec fn view(&self) -> RecordView {
        match *self {
            Record::Nothing => RecordView::Nothing,
            Record::Passthrough { original, filtered } => RecordView::Passthrough {
                original: original@,
                filtered: filtered@,
            },
            Record::Filtered { original, filtered, input, output } => RecordView::Filtered {
                original: original@,
                filtered: filtered@,
                input: input@,
                output: output@,
            },
        }
    }
}

/// What is printed in the end, the exit code, and the record.
pub struct Reply {
    pub stdout: String,
    pub stderr: String,
    pub exit_code: i32,
    pub record: Record,
}

/// The view of a `Reply`.
pub struct ReplyView {
    pub stdout: Seq<char>,
    pub stderr: Seq<char>,
    pub exit_code: i32,
    pub record: RecordView,
}

impl View for Reply {
    type V = ReplyView;

    open spec fn view(&self) -> ReplyView {
        ReplyView {
            stdout: self.stdout@,
            stderr: self.stderr@,
            exit_code: self.exit_code,
            record: self.record@,
        }
    }
}

/// The answer to a command line that names no pattern.
pub open spec fn missing_pattern_reply() -> ReplyView {
    ReplyView {
        stdout: seq![],
        stderr: "rtk grep: pattern required (positional or -e)\n"@,
        exit_code: 1,
        record: RecordView::Nothing,
    }
}

/// Answers a command line that names no pattern.
pub fn missing_pattern() -> (r: Reply)
    ensures
        r@ == missing_pattern_reply(),
{
    Reply {
        stdout: String::new(),
        stderr: "rtk grep: pattern required (positional or -e)\n".to_string(),
        exit_code: 1,
        record: Record::Nothing,
    }
}

/// How much is shown.
#[derive(Clone, Copy, Debug)]
pub struct Limits {
    /// The length to which lines are cut.
    pub max_line_len: usize,
    /// How many matches are listed in all.
    pub max_results: usize,
    /// How many matches are listed of a file.
    pub per_file: usize,
}

/// `grep -rn 'pattern' paths`, the command that the search stands for.
pub open spec fn original_command(q: QueryView) -> Seq<char> {
    "grep -rn '"@ + pattern_display(q) + "' "@ + path_display(q)
}

/// The flags, the pattern and the paths of a search as they are shown.
pub open spec fn args_display(q: QueryView) -> Seq<char> {
    let search = "'"@ + pattern_display(q) + "' "@ + path_display(q);
    if q.flags.len() == 0 {
        search
    } else {
        join(q.flags, " "@) + " "@ + search
    }
}

/// Whether the output is handed on as it is, because a flag asks for a form of its own.
pub open spec fn keeps_format(q: QueryView) -> bool {
    exists|i: int| 0 <= i < q.flags.len() && is_format_flag(#[trigger] q.flags[i])
}

/// The answer where the output is handed on as it is.
pub open spec fn passthrough_reply(q: QueryView, output: OutputView) -> ReplyView {
    ReplyView {
        stdout: output.stdout,
        stderr: trim(output.stderr),
        exit_code: output.exit_code,
        record: RecordView::Passthrough {
            original: "grep "@ + args_display(q),
            filtered: "rtk grep "@ + args_display(q) + " (passthrough)"@,
        },
    }
}

/// The message that there are no matches.
pub open spec fn no_matches(q: QueryView) -> Seq<char> {
    "0 matches for '"@ + pattern_display(q) + "'"@
}

/// The answer where the search printed nothing. What it reported is shown if it failed.
pub open spec fn empty_reply(q: QueryView, output: OutputView) -> ReplyView {
    ReplyView {
        stdout: no_matches(q) + "\n"@,
        stderr: if output.exit_code == 2 && trim(output.stderr).len() > 0 {
            trim(output.stderr) + "\n"@
        } else {
            seq![]
        },
        exit_code: output.exit_code,
        record: RecordView::Filtered {
            original: original_command(q),
            filtered: "rtk grep"@,
            input: output.stdout,
            output: no_matches(q),
        },
    }
}

/// How the matches of a search are cleaned.
pub open spec fn cleaning_of(
    q: QueryView,
    limits: Limits,
    context: Option<Seq<char>>,
) -> Cleaning {
    Cleaning { max_len: limits.max_line_len as int, context, pattern: pattern_display(q) }
}

/// The report on what a search printed.
pub open spec fn summary(
    q: QueryView,
    stdout: Seq<char>,
    limits: Limits,
    context: Option<Seq<char>>,
) -> Seq<char> {
    let found = rows(lines(stdout), cleaning_of(q, limits, context));
    report(by_file(found), found.len(), limits.per_file as int, limits.max_results as int)
}

/// The answer where the search printed something.
pub open spec fn summary_reply(
    q: QueryView,
    output: OutputView,
    limits: Limits,
    context: Option<Seq<char>>,
) -> ReplyView {
    let text = summary(q, output.stdout, limits, context);
    ReplyView {
        stdout: text,
        stderr: seq![],
        exit_code: output.exit_code,
        record: RecordView::Filtered {
            original: original_command(q),
            filtered: "rtk grep"@,
            input: output.stdout,
            output: text,
        },
    }
}

/// The answer to a search; `None` where a match cannot be cut down to the length asked for.
pub open spec fn search_reply(
    q: QueryView,
    output: OutputView,
    limits: Limits,
    context: Option<Seq<char>>,
) -> Option<ReplyView> {
    if keeps_format(q) {
        Some(passthrough_reply(q, output))
    } else if trim(output.stdout).len() == 0 {
        Some(empty_reply(q, output))
    } else if all_cleanable(lines(output.stdout), cleaning_of(q, limits, context)) {
        Some(summary_reply(q, output, limits, context))
    } else {
        None
    }
}

fn original_text(q: &Query) -> (r: String)
    ensures
        r@ == original_command(q@),
{
    let mut r = String::new();
    let patterns = q.pattern_display();
    let paths = q.path_display();
    r.append("grep -rn '");
    r.append(patterns.as_str());
    r.append("' ");
    r.append(paths.as_str());
    assert(r@ =~= original_command(q@));
    r
}

fn args_text(q: &Query) -> (r: String)
    ensures
        r@ == args_display(q@),
{
    let mut r = String::new();
    if q.flags.len() > 0 {
        let flags = joined(q.flags.as_slice(), " ");
        r.append(flags.as_str());
        r.append(" ");
    }
    let patterns = q.pattern_display();
    let paths = q.path_display();
    r.append("'");
    r.append(patterns.as_str());
    r.append("' ");
    r.append(paths.as_str());
    assert(r@ =~= args_display(q@));
    r
}

fn reply_as_is(q: &Query, output: Output) -> (r: Reply)
    ensures
        r@ == passthrough_reply(q@, output@),
{
    let args = args_text(q);
    let mut original = String::new();
    original.append("grep ");
    original.append(args.as_str());
    let mut filtered = String::new();
    filtered.append("rtk grep ");
    filtered.append(args.as_str());
    filtered.append(" (passthrough)");
    assert(original@ =~= "grep "@ + args_display(q@));
    assert(filtered@ =~= "rtk grep "@ + args_display(q@) + " (passthrough)"@);
    let stderr = trimmed(output.stderr.as_str()).to_string();
    Reply {
        stdout: output.stdout,
        stderr,
        exit_code: output.exit_code,
        record: Record::Passthrough { original, filtered },
    }
}

fn reply_no_matches(q: &Query, output: Output) -> (r: Reply)
    ensures
        r@ == empty_reply(q@, output@),
{
    let mut stderr = String::new();
    let report = trimmed(output.stderr.as_str());
    if output.exit_code == 2 && !report.is_empty() {
        stderr.append(report);
        stderr.append("\n");
        assert(stderr@ =~= trim(output.stderr@) + "\n"@);
    }
    let patterns = q.pattern_display();
    let mut message = String::new();
    message.append("0 matches for '");
    message.append(patterns.as_str());
    message.append("'");
    assert(message@ =~= no_matches(q@));
    let mut stdout = message.as_str().to_string();
    stdout.append("\n");
    let original = original_text(q);
    Reply {
        stdout,
        stderr,
        exit_code: output.exit_code,
        record: Record::Filtered {
            original,
            filtered: "rtk grep".to_string(),
            input: output.stdout,
            output: message,
        },
    }
}

/// Answers a search from what the command left behind, with the context expression to cut
/// lines down by, if there is one.
pub fn reply_to_search(
    q: &Query,
    output: Output,
    limits: Limits,
    context_re: Option<&ContextRegex>,
) -> (r: Option<Reply>)
    ensures
        match r {
            Some(reply) => search_reply(q@, output@, limits, context_view(context_re)) == Some(
                reply@,
            ),
            None => search_reply(q@, output@, limits, context_view(context_re)) is None,
        },
{
    let as_is = has_format_flag(q.flags.as_slice());
    assert(words(q.flags@) =~= views(q.flags@));
    if as_is {
        return Some(reply_as_is(q, output));
    }
    if trimmed(output.stdout.as_str()).is_empty() {
        return Some(reply_no_matches(q, output));
    }
    let patterns = q.pattern_display();
    match group_matches(
        output.stdout.as_str(),
        limits.max_line_len,
        context_re,
        patterns.as_str(),
    ) {
        Some((groups, total)) => {
            let text = render(&groups, total, limits.per_file, limits.max_results);
            let shown = text.as_str().to_string();
            let original = original_text(q);
            Some(
                Reply {
                    stdout: shown,
                    stderr: String::new(),
                    exit_code: output.exit_code,
                    record: Record::Filtered {
                        original,
                        filtered: "rtk grep".to_string(),
                        input: output.stdout,
                        output: text,
                    },
                },
            )
        },
        None => None,
    }
}

/// Whether a command line asks the search tool about itself.
pub open spec fn asks_for_info(words: Seq<Seq<char>>) -> bool {
    exists|i: int| 0 <= i < words.len() && is_info_flag(#[trigger] words[i])
}

/// Reads a command line that asks the search tool about itself; `None` for any other.
pub fn plan_info(args: &Vec<String>) -> (r: Option<Request>)
    ensures
        match r {
            Some(request) => asks_for_info(views(args@)) && request@ == RequestView::Info(
                views(args@),
            ),
            None => !asks_for_info(views(args@)),
        },
{
    let asks = has_info_flag(args.as_slice());
    assert(words(args@) =~= views(args@));
    if asks {
        let mut words: Vec<String> = Vec::new();
        push_all(&mut words, args);
        assert(views(words@) =~= views(args@));
        Some(Request::Info(words))
    } else {
        None
    }
}

/// Reads a command line that asks for a search; answers one that names no pattern.
pub fn plan<T: Argument>(args: &[T]) -> (r: Result<Request, Reply>)
    ensures
        match r {
            Ok(request) => query_of(words(args@)) is Some && request@ == RequestView::Search(
                query_of(words(args@))->0,
            ),
            Err(reply) => query_of(words(args@)) is None && reply@ == missing_pattern_reply(),
        },
{
    match plan_search(args) {
        Some(q) => Ok(Request::Search(q)),
        None => Err(missing_pattern()),
    }
}

/// The answer where the search tool was asked about itself: what it printed.
pub open spec fn info_reply(output: OutputView) -> ReplyView {
    ReplyView {
        stdout: output.stdout,
        stderr: output.stderr,
        exit_code: output.exit_code,
        record: RecordView::Nothing,
    }
}

/// What is done next.
pub enum Step {
    /// A command is run.
    Run(Tool),
    /// The answer is given.
    Finish(Reply),
    /// No command could be run.
    Failed,
    /// A match cannot be cut down to the length asked for.
    TooNarrow,
}

/// The view of a `Step`.
pub enum StepView {
    Run(Tool),
    Finish(ReplyView),
    Failed,
    TooNarrow,
}

impl View for Step {
    type V = StepView;

    open spec fn view(&self) -> StepView {
        match *self {
            Step::Run(tool) => StepView::Run(tool),
            Step::Finish(reply) => StepView::Finish(reply@),
            Step::Failed => StepView::Failed,
            Step::TooNarrow => StepView::TooNarrow,
        }
    }
}

/// Whether lines may be cut down by `context`: there is such an expression only where it is
/// asked for, and then none if it cannot be compiled.
pub open spec fn may_cut_by(context: Option<Seq<char>>, q: QueryView, context_only: bool) -> bool {
    match context {
        Some(source) => context_only && source == context_source(pattern_display(q)),
        None => true,
    }
}

/// The step after a search, once lines are cut down by `context`.
pub open spec fn search_step(
    q: QueryView,
    output: OutputView,
    limits: Limits,
    context: Option<Seq<char>>,
) -> StepView {
    match search_reply(q, output, limits, context) {
        Some(reply) => StepView::Finish(reply),
        None => StepView::TooNarrow,
    }
}

/// Whether `step` comes after `tool` was tried for `request`; `outcome` is `None` where it could
/// not be run. Where rg cannot be run grep is tried.
pub open spec fn is_next(
    step: StepView,
    request: RequestView,
    tool: Tool,
    outcome: Option<OutputView>,
    limits: Limits,
    context_only: bool,
) -> bool {
    match outcome {
        None => step == match tool {
            Tool::Rg => StepView::Run(Tool::Grep),
            Tool::Grep => StepView::Failed,
        },
        Some(output) => match request {
            RequestView::Info(_) => step == StepView::Finish(info_reply(output)),
            RequestView::Search(q) => exists|context: Option<Seq<char>>| #[trigger]
                may_cut_by(context, q, context_only) && step == search_step(
                    q,
                    output,
                    limits,
                    context,
                ),
        },
    }
}

/// The view of what came of running a command.
pub open spec fn outcome_view(outcome: Option<Output>) -> Option<OutputView> {
    match outcome {
        Some(output) => Some(output@),
        None => None,
    }
}

/// Decides what is done after `tool` was tried for `request`.
pub fn advance(
    request: &Request,
    tool: Tool,
    outcome: Option<Output>,
    limits: Limits,
    context_only: bool,
) -> (r: Step)
    ensures
        is_next(r@, request@, tool, outcome_view(outcome), limits, context_only),
{
    let output = match outcome {
        Some(output) => output,
        None => {
            return match tool {
                Tool::Rg => Step::Run(Tool::Grep),
                Tool::Grep => Step::Failed,
            };
        },
    };
    match request {
        Request::Info(_) => Step::Finish(
            Reply {
                stdout: output.stdout,
                stderr: output.stderr,
                exit_code: output.exit_code,
                record: Record::Nothing,
            },
        ),
        Request::Search(q) => {
            let context_re = if context_only {
                ContextRegex::around(q.pattern_display().as_str())
            } else {
                None
            };
            let context = context_re.as_ref();
            assert(may_cut_by(context_view(context), q@, context_only));
            match reply_to_search(q, output, limits, context) {
                Some(reply) => Step::Finish(reply),
                None => Step::TooNarrow,
            }
        },
    }
}

/// The exit code of the search is the exit code of the answer.
pub proof fn law_exit_code_kept(
    q: QueryView,
    output: OutputView,
    limits: Limits,
    context: Option<Seq<char>>,
)
    ensures
        search_reply(q, output, limits, context) matches Some(reply) ==> reply.exit_code
            == output.exit_code,
{
}

/// A run ends after two commands at the latest: only where rg cannot be run another one is
/// tried, and that is grep.
pub proof fn law_two_commands(
    step: StepView,
    request: RequestView,
    tool: Tool,
    outcome: Option<OutputView>,
    limits: Limits,
    context_only: bool,
)
    requires
        is_next(step, request, tool, outcome, limits, context_only),
    ensures
        step is Run <==> tool == Tool::Rg && outcome is None,
        step matches StepView::Run(t) ==> t == Tool::Grep,
        step is Failed <==> tool == Tool::Grep && outcome is None,
{
}

/// A search cannot fail to be answered where lines may be three characters long or longer.
pub proof fn law_wide_enough(
    q: QueryView,
    output: OutputView,
    limits: Limits,
    context: Option<Seq<char>>,
)
    requires
        limits.max_line_len >= 3,
    ensures
        search_reply(q, output, limits, context) is Some,
{
}

/// Where a flag of the search is a format flag, wherever it stands among the flags, what the
/// command printed is handed on character for character, and nothing is filtered.
pub proof fn law_format_kept(
    q: QueryView,
    output: OutputView,
    limits: Limits,
    context: Option<Seq<char>>,
    i: int,
)
    requires
        0 <= i < q.flags.len(),
        is_format_flag(q.flags[i]),
    ensures
        keeps_format(q),
        search_reply(q, output, limits, context) matches Some(reply) && {
            &&& reply.stdout == output.stdout
            &&& reply.stderr == trim(output.stderr)
            &&& reply.exit_code == output.exit_code
            &&& reply.record matches RecordView::Passthrough { original, filtered }
            &&& exists|search: Seq<char>| #[trigger]
                is_shown_search(search, q) && original == "grep "@ + search && filtered
                    == "rtk grep "@ + search + " (passthrough)"@
        },
{
    lemma_args_display(q);
}

/// A search whose format is kept hands on what the command printed, character for character; only
/// a format flag among its flags makes it one.
pub proof fn law_kept_format(
    q: QueryView,
    output: OutputView,
    limits: Limits,
    context: Option<Seq<char>>,
)
    ensures
        keeps_format(q) ==> (search_reply(q, output, limits, context) matches Some(reply)
            && reply.stdout == output.stdout),
        keeps_format(q) <==> exists|i: int|
            0 <= i < q.flags.len() && is_format_flag(#[trigger] q.flags[i]),
{
}

/// Whether `text` shows the flags of a search with a space after each, then its patterns in
/// quotes, then its paths.
pub open spec fn is_shown_search(text: Seq<char>, q: QueryView) -> bool {
    let search = seq!['\''] + pattern_display(q) + seq!['\'', ' '] + path_display(q);
    if q.flags.len() == 0 {
        text == search
    } else {
        text == join(q.flags.push(search), seq![' '])
    }
}

proof fn lemma_args_display(q: QueryView)
    ensures
        is_shown_search(args_display(q), q),
{
    reveal_strlit("'");
    reveal_strlit("' ");
    reveal_strlit(" ");
    assert("'"@ =~= seq!['\'']);
    assert("' "@ =~= seq!['\'', ' ']);
    assert(" "@ =~= seq![' ']);
    let search = seq!['\''] + pattern_display(q) + seq!['\'', ' '] + path_display(q);
    law_join_concat(q.flags, seq![search], seq![' ']);
    law_join_concat(seq![search], seq![], seq![' ']);
    assert(q.flags.push(search) =~= q.flags + seq![search]);
}

/// A search that printed nothing but white space, and has no format flag, is answered with the
/// message that nothing was found; what the command reported is shown only where it failed with
/// code 2. What it printed goes on record, and the message without its newline.
pub proof fn law_nothing_found(
    q: QueryView,
    output: OutputView,
    limits: Limits,
    context: Option<Seq<char>>,
)
    requires
        forall|i: int| 0 <= i < q.flags.len() ==> !is_format_flag(#[trigger] q.flags[i]),
        forall|i: int| 0 <= i < output.stdout.len() ==> is_white(#[trigger] output.stdout[i]),
    ensures
        search_reply(q, output, limits, context) matches Some(reply) && {
            let message = "0 matches for '"@ + pattern_display(q) + seq!['\''];
            let report = trim(output.stderr);
            &&& reply.stdout == message.push('\n')
            &&& output.exit_code == 2 && report.len() > 0 ==> reply.stderr == report.push('\n')
            &&& output.exit_code != 2 || report.len() == 0 ==> reply.stderr.len() == 0
            &&& reply.exit_code == output.exit_code
            &&& reply.record matches RecordView::Filtered {
                original,
                filtered,
                input,
                output: text,
            }
            &&& original == "grep -rn '"@ + pattern_display(q) + seq!['\'', ' '] + path_display(q)
            &&& filtered == "rtk grep"@
            &&& input == output.stdout
            &&& text == message
        },
{
    reveal_strlit("'");
    reveal_strlit("' ");
    reveal_strlit("\n");
    assert("'"@ =~= seq!['\'']);
    assert("' "@ =~= seq!['\'', ' ']);
    assert(no_matches(q) + "\n"@ =~= no_matches(q).push('\n'));
    assert(trim(output.stderr) + "\n"@ =~= trim(output.stderr).push('\n'));
    law_trim_ends(output.stdout);
    let (from, to) = law_trim_takes_white_space_only(output.stdout);
    if from < to {
        assert(trim(output.stdout)[0] == output.stdout[from]);
    }
}

/// A search that printed something other than white space, and has no format flag, is answered
/// with the report on all matches among the lines that it printed, if lines are wide enough. The
/// report is what is printed and what goes on record beside what the command printed.
pub proof fn law_matches_reported(
    q: QueryView,
    output: OutputView,
    limits: Limits,
    context: Option<Seq<char>>,
    i: int,
)
    requires
        forall|k: int| 0 <= k < q.flags.len() ==> !is_format_flag(#[trigger] q.flags[k]),
        0 <= i < output.stdout.len(),
        !is_white(output.stdout[i]),
    ensures
        ({
            let how = Cleaning {
                max_len: limits.max_line_len as int,
                context,
                pattern: pattern_display(q),
            };
            let found = rows(lines(output.stdout), how);
            match search_reply(q, output, limits, context) {
                Some(reply) => {
                    &&& all_cleanable(lines(output.stdout), how)
                    &&& reply.stdout == report(
                        by_file(found),
                        found.len(),
                        limits.per_file as int,
                        limits.max_results as int,
                    )
                    &&& reply.stderr.len() == 0
                    &&& reply.exit_code == output.exit_code
                    &&& reply.record matches RecordView::Filtered {
                        original,
                        filtered,
                        input,
                        output: text,
                    }
                    &&& original == "grep -rn '"@ + pattern_display(q) + seq!['\'', ' ']
                        + path_display(q)
                    &&& filtered == "rtk grep"@
                    &&& input == output.stdout
                    &&& text == reply.stdout
                },
                None => !all_cleanable(lines(output.stdout), how),
            }
        }),
{
    reveal_strlit("' ");
    assert("' "@ =~= seq!['\'', ' ']);
    let (from, to) = law_trim_takes_white_space_only(output.stdout);
    assert(from <= i < to);
}

/// Words that ask a tool about itself go to it as they are, whichever it is; a search goes to
/// each tool in its own words.
pub proof fn law_command(
    args: Seq<Seq<char>>,
    q: QueryView,
    tool: Tool,
    file_type: Option<Seq<char>>,
)
    ensures
        command_of(RequestView::Info(args), tool, file_type) == args,
        command_of(RequestView::Search(q), Tool::Rg, file_type) == rg_command(q, file_type),
        command_of(RequestView::Search(q), Tool::Grep, file_type) == grep_command(q),
{
}

/// Where a tool was asked about itself, all that it left behind is handed on unchanged, and
/// nothing goes on record.
pub proof fn law_info_handed_on(
    step: StepView,
    args: Seq<Seq<char>>,
    tool: Tool,
    output: OutputView,
    limits: Limits,
    context_only: bool,
)
    requires
        is_next(step, RequestView::Info(args), tool, Some(output), limits, context_only),
    ensures
        step matches StepView::Finish(reply) && {
            &&& reply.stdout == output.stdout
            &&& reply.stderr == output.stderr
            &&& reply.exit_code == output.exit_code
            &&& reply.record is Nothing
        },
{
}

/// Once a search was run, by whichever tool, it is answered. Lines are cut down by a context
/// expression only where that is asked for, and then by the one for the patterns of the search.
pub proof fn law_search_answered(
    step: StepView,
    q: QueryView,
    tool: Tool,
    output: OutputView,
    limits: Limits,
    context_only: bool,
)
    requires
        is_next(step, RequestView::Search(q), tool, Some(output), limits, context_only),
    ensures
        ({
            let plain = search_reply(q, output, limits, None);
            let cut = search_reply(q, output, limits, Some(context_source(pattern_display(q))));
            match step {
                StepView::Finish(reply) => plain == Some(reply) || context_only && cut == Some(
                    reply,
                ),
                StepView::TooNarrow => plain is None || context_only && cut is None,
                _ => false,
            }
        }),
{
}

/// A command line asks a tool about itself just where one of its words does, wherever that
/// stands.
pub proof fn law_info_asked(words: Seq<Seq<char>>)
    ensures
        asks_for_info(words) <==> exists|i: int|
            0 <= i < words.len() && is_info_flag(#[trigger] words[i]),
{
}

/// A command line that names no pattern fails, prints a message of one line, and leaves no
/// record.
pub proof fn law_missing_pattern()
    ensures
        ({
            let r = missing_pattern_reply();
            &&& r.stdout.len() == 0
            &&& r.stderr == "rtk grep: pattern required (positional or -e)"@.push('\n')
            &&& r.exit_code == 1
            &&& r.record is Nothing
        }),
{
    reveal_strlit("rtk grep: pattern required (positional or -e)");
    reveal_strlit("rtk grep: pattern required (positional or -e)\n");
    assert(missing_pattern_reply().stderr
        =~= "rtk grep: pattern required (positional or -e)"@.push('\n'));
}

} // verus!
