//! The regular expression that cuts a line down to the surroundings of a match.
use crate::text::is_part;
use vstd::prelude::*;

verus! {

/// Declares `regex::Regex`.
#[verifier::external_type_specification]
#[verifier::external_body]
pub struct ExRegex(regex::Regex);

/// Declares `regex::Error`.
#[verifier::external_type_specification]
#[verifier::external_body]
pub struct ExError(regex::Error);

/// Whether `c` has a meaning of its own in a regular expression.
pub open spec fn is_meta(c: char) -> bool {
    ||| c == '\\'
    ||| c == '.'
    ||| c == '+'
    ||| c == '*'
    ||| c == '?'
    ||| c == '('
    ||| c == ')'
    ||| c == '|'
    ||| c == '['
    ||| c == ']'
    ||| c == '{'
    ||| c == '}'
    ||| c == '^'
    ||| c == '$'
    ||| c == '#'
    ||| c == '&'
    ||| c == '-'
    ||| c == '~'
}

/// `s` as a regular expression that matches `s` itself: a backslash before each character that
/// has a meaning of its own.
pub open spec fn escaped(s: Seq<char>) -> Seq<char>
    decreases s.len(),
{
    if s.len() == 0 {
        seq![]
    } else {
        let before = escaped(s.drop_last());
        if is_meta(s.last()) {
            before.push('\\').push(s.last())
        } else {
            before.push(s.last())
        }
    }
}

/// Specifies `regex::escape`: it puts a backslash before each meta character of the pattern and
/// leaves the others alone.
pub assume_specification[ regex::escape ](pattern: &str) -> (r: String)
    ensures
        r@ == escaped(pattern@),
;

/// What `regex::Regex::find` matches first in `text` when `source` is the regular expression;
/// `None` where it matches nothing.
pub uninterp spec fn first_match(source: Seq<char>, text: Seq<char>) -> Option<Seq<char>>;

/// The text of an optional string slice.
pub open spec fn opt_view(s: Option<&str>) -> Option<Seq<char>> {
    match s {
        Some(s) => Some(s@),
        None => None,
    }
}

/// A compiled regular expression, with the text that it was compiled from. The fields are
/// private and only `compile` sets them, so the two belong together.
pub struct ContextRegex {
    source: String,
    compiled: regex::Regex,
}

impl View for ContextRegex {
    type V = Seq<char>;

    /// The text of the regular expression.
    closed spec fn view(&self) -> Seq<char> {
        self.source@
    }
}

impl ContextRegex {
    /// Calls `regex::Regex::new`. What it compiles is `source`. Which sources it refuses is left
    /// open: besides those that are malformed, the ones whose compiled form takes too much
    /// memory, which is not the same on every machine.
    #[verifier::external_body]
    fn compile(source: &str) -> (r: Result<ContextRegex, regex::Error>)
        ensures
            r matches Ok(re) ==> re@ == source@,
    {
        let compiled = regex::Regex::new(source)?;
        Ok(ContextRegex { source: source.to_string(), compiled })
    }

    /// Calls `regex::Regex::find` and takes the text of the match. It is the first match of the
    /// regular expression in `text`, and a part of `text`.
    #[verifier::external_body]
    pub(crate) fn find<'t>(&self, text: &'t str) -> (r: Option<&'t str>)
        ensures
            opt_view(r) == first_match(self@, text@),
            r matches Some(m) ==> is_part(text@, m@),
    {
        self.compiled.find(text).map(|m| m.as_str())
    }

    /// The regular expression for the surroundings of `pattern`, taken literally. `None` where
    /// `regex::Regex::new` refuses it, which is left open as it is there.
    pub fn around(pattern: &str) -> (r: Option<ContextRegex>)
        ensures
            r matches Some(re) ==> re@ == context_source(pattern@),
    {
        let source = context_text(pattern);
        ContextRegex::if_compiled(ContextRegex::compile(source.as_str()))
    }

    /// What is left of an attempt to compile: the expression, or nothing. The error is not kept.
    pub fn if_compiled(attempt: Result<ContextRegex, regex::Error>) -> (r: Option<ContextRegex>)
        ensures
            match attempt {
                Ok(re) => r == Some(re),
                Err(_) => r is None,
            },
    {
        match attempt {
            Ok(re) => Some(re),
            Err(_) => None,
        }
    }
}

/// The text of the regular expression for the surroundings of `pattern`: up to twenty
/// characters before it, and the rest of the line, without regard to case.
pub open spec fn context_source(pattern: Seq<char>) -> Seq<char> {
    "(?i).{0,20}"@ + escaped(pattern) + ".*"@
}

/// Writes the regular expression for the surroundings of `pattern`.
pub fn context_text(pattern: &str) -> (r: String)
    ensures
        r@ == context_source(pattern@),
{
    let mut r = String::new();
    r.append("(?i).{0,20}");
    let literal = regex::escape(pattern);
    r.append(literal.as_str());
    r.append(".*");
    assert(r@ =~= context_source(pattern@));
    r
}

/// Escaping goes character by character: it puts a backslash before each one that has a meaning
/// of its own, and changes nothing else.
pub proof fn law_escaped(a: Seq<char>, b: Seq<char>, c: char)
    ensures
        escaped(a + b) == escaped(a) + escaped(b),
        escaped(seq![c]) == if seq![
            '\\', '.', '+', '*', '?', '(', ')', '|', '[', ']', '{', '}', '^', '$', '#', '&', '-',
            '~',
        ].contains(c) {
            seq!['\\', c]
        } else {
            seq![c]
        },
    decreases b.len(),
{
    let meta = seq![
        '\\', '.', '+', '*', '?', '(', ')', '|', '[', ']', '{', '}', '^', '$', '#', '&', '-', '~',
    ];
    let one = seq![c];
    assert(one.drop_last() =~= seq![]);
    assert(escaped(one.drop_last()) =~= seq![]);
    assert(is_meta(c) ==> meta.contains(c)) by {
        assert(meta[0] == '\\' && meta[1] == '.' && meta[2] == '+' && meta[3] == '*' && meta[4]
            == '?' && meta[5] == '(' && meta[6] == ')' && meta[7] == '|' && meta[8] == '['
            && meta[9] == ']' && meta[10] == '{' && meta[11] == '}' && meta[12] == '^' && meta[13]
            == '$' && meta[14] == '#' && meta[15] == '&' && meta[16] == '-' && meta[17] == '~');
    }
    assert(escaped(one) =~= if is_meta(c) {
        seq!['\\', c]
    } else {
        seq![c]
    });
    if b.len() == 0 {
        assert(a + b =~= a);
        assert(escaped(a) + escaped(b) =~= escaped(a));
    } else {
        law_escaped(a, b.drop_last(), c);
        assert((a + b).drop_last() =~= a + b.drop_last());
        assert(escaped(a + b) =~= escaped(a) + escaped(b));
    }
}

/// The expression for the surroundings of a pattern holds the escaped pattern between the same
/// start and the same end, whatever the pattern is.
pub proof fn law_context_source(pattern: Seq<char>)
    ensures
        ({
            let r = context_source(pattern);
            let n = escaped(pattern).len() as int;
            &&& r.len() == 11 + n + 2
            &&& r.take(11) == "(?i).{0,20}"@
            &&& r.subrange(11, 11 + n) == escaped(pattern)
            &&& r.skip(11 + n) == seq!['.', '*']
        }),
{
    reveal_strlit("(?i).{0,20}");
    reveal_strlit(".*");
    let r = context_source(pattern);
    let n = escaped(pattern).len() as int;
    assert(r.take(11) =~= "(?i).{0,20}"@);
    assert(r.subrange(11, 11 + n) =~= escaped(pattern));
    assert(r.skip(11 + n) =~= seq!['.', '*']);
}

} // verus!
