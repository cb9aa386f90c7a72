//! The lines that the search tool prints for a match.
use crate::number::{all_digits, decimal, from_decimal, law_decimal_reads_back, value};
use crate::text::{first_at, lemma_first_at, lemma_first_at_is, string_of, to_chars};
use vstd::prelude::*;

verus! {

/// A match: the file, the line number and the content of the line.
pub struct MatchLine {
    pub file: Seq<char>,
    pub number: usize,
    pub content: Seq<char>,
}

/// Whether `line` reads `file`, a NUL, `digits`, a colon and `content`. A file name is not
/// empty and holds no NUL, and the content is on one line.
pub open spec fn reads(
    line: Seq<char>,
    file: Seq<char>,
    digits: Seq<char>,
    content: Seq<char>,
) -> bool {
    &&& line == file + seq!['\0'] + digits + seq![':'] + content
    &&& file.len() > 0
    &&& !file.contains('\0')
    &&& digits.len() > 0
    &&& all_digits(digits)
    &&& !content.contains('\n')
}

/// The match that `line` stands for. The file name ends at the first NUL, the number at the
/// first colon after it.
pub open spec fn parsed(line: Seq<char>) -> Option<MatchLine> {
    let nul = first_at(line, '\0') as int;
    let rest = line.skip(nul + 1);
    let colon = first_at(rest, ':') as int;
    let digits = rest.take(colon);
    let content = rest.skip(colon + 1);
    if {
        &&& 0 < nul < line.len()
        &&& 0 < colon < rest.len()
        &&& all_digits(digits)
        &&& value(digits) <= usize::MAX
        &&& !content.contains('\n')
    } {
        Some(MatchLine { file: line.take(nul), number: value(digits) as usize, content })
    } else {
        None
    }
}

/// A line is a match just where it has the shape of one with a number that is not too large,
/// and there is one way to read it, whatever colons and digits the file name and the content
/// hold.
pub proof fn law_one_reading(
    line: Seq<char>,
    file: Seq<char>,
    digits: Seq<char>,
    content: Seq<char>,
)
    ensures
        reads(line, file, digits, content) ==> parsed(line) == if value(digits) <= usize::MAX {
            Some(MatchLine { file, number: value(digits) as usize, content })
        } else {
            None
        },
        parsed(line) matches Some(m) ==> exists|d: Seq<char>| #[trigger]
            reads(line, m.file, d, m.content) && value(d) == m.number,
{
    if reads(line, file, digits, content) {
        let nul = file.len() as int;
        assert forall|j: int| 0 <= j < nul implies line[j] != '\0' by {
            assert(line[j] == file[j]);
            assert(file.contains(file[j]));
        }
        lemma_first_at_is(line, '\0', nul);
        let rest = line.skip(nul + 1);
        assert(rest =~= digits + seq![':'] + content);
        let colon = digits.len() as int;
        assert forall|j: int| 0 <= j < colon implies rest[j] != ':' by {
            assert(rest[j] == digits[j]);
            assert('0' <= digits[j] <= '9');
        }
        lemma_first_at_is(rest, ':', colon);
        assert(rest.take(colon) =~= digits);
        assert(rest.skip(colon + 1) =~= content);
        assert(line.take(nul) =~= file);
    }
    if parsed(line) is Some {
        let m = parsed(line)->0;
        lemma_first_at(line, '\0');
        let nul = first_at(line, '\0') as int;
        let rest = line.skip(nul + 1);
        lemma_first_at(rest, ':');
        let colon = first_at(rest, ':') as int;
        let d = rest.take(colon);
        assert(line =~= m.file + seq!['\0'] + d + seq![':'] + m.content);
        assert(!m.file.contains('\0'));
        assert(reads(line, m.file, d, m.content) && value(d) == m.number);
    }
}

/// What the search tool writes for a match is read back as that match.
pub proof fn law_written_line_is_read_back(file: Seq<char>, number: usize, content: Seq<char>)
    requires
        file.len() > 0,
        !file.contains('\0'),
        !content.contains('\n'),
    ensures
        parsed(file + seq!['\0'] + decimal(number as nat) + seq![':'] + content) == Some(
            MatchLine { file, number, content },
        ),
{
    law_decimal_reads_back(number as nat);
    let line = file + seq!['\0'] + decimal(number as nat) + seq![':'] + content;
    law_one_reading(line, file, decimal(number as nat), content);
}

/// A line without a NUL is no match, such as a context line.
pub proof fn law_no_nul_no_match(line: Seq<char>)
    requires
        !line.contains('\0'),
    ensures
        parsed(line) is None,
{
    lemma_first_at(line, '\0');
    let nul = first_at(line, '\0') as int;
    if nul < line.len() {
        assert(line.contains(line[nul]));
    }
}

/// The first position from `from` on at which `c` stands, or the length.
fn position_from(chars: &[char], from: usize, c: char) -> (r: usize)
    requires
        from <= chars@.len(),
    ensures
        from <= r <= chars@.len(),
        r == from + first_at(chars@.skip(from as int), c),
{
    let mut i: usize = from;
    while i < chars.len() && chars[i] != c
        invariant
            from <= i <= chars@.len(),
            forall|j: int| from <= j < i ==> chars@[j] != c,
        decreases chars@.len() - i,
    {
        i += 1;
    }
    proof {
        lemma_first_at_is(chars@.skip(from as int), c, i - from);
    }
    i
}

/// The view of what `parse_match_line` returns.
pub open spec fn match_view(r: Option<(String, usize, &str)>) -> Option<MatchLine> {
    match r {
        Some((file, number, content)) => Some(
            MatchLine { file: file@, number, content: content@ },
        ),
        None => None,
    }
}

/// Parses a single match line of the form `file\0line_number:content`.
///
/// The search tool has to be invoked so that a NUL follows the file name. No path can hold a
/// NUL, so the line is read correctly even if the path or the content hold colons and digits.
///
/// Returns `None` for lines of another shape, such as context lines.
pub fn parse_match_line(line: &str) -> (r: Option<(String, usize, &str)>)
    ensures
        match_view(r) == parsed(line@),
{
    let chars = to_chars(line);
    let len: usize = chars.len();
    let nul = position_from(chars.as_slice(), 0, '\0');
    assert(line@.skip(0) =~= line@);
    if nul == 0 || nul == len {
        return None;
    }
    let colon = position_from(chars.as_slice(), nul + 1, ':');
    let ghost rest = line@.skip(nul + 1);
    if colon == nul + 1 || colon == len {
        return None;
    }
    let digits = vstd::slice::slice_subrange(chars.as_slice(), nul + 1, colon);
    assert(digits@ =~= rest.take(colon - nul - 1));
    let newline = position_from(chars.as_slice(), colon + 1, '\n');
    let ghost content = rest.skip(colon - nul);
    proof {
        assert(content =~= line@.skip(colon + 1));
        lemma_first_at(content, '\n');
        if newline < len {
            assert(content.contains(content[newline - colon - 1]));
        }
    }
    if newline < len {
        return None;
    }
    match from_decimal(digits) {
        Some(number) => {
            let file = string_of(chars.as_slice(), 0, nul);
            assert(file@ =~= line@.take(nul as int));
            let text = line.substring_char(colon + 1, len);
            assert(text@ =~= content);
            Some((file, number, text))
        },
        None => None,
    }
}

} // verus!
