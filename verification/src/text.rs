//! Plain text operations on characters: trimming, splitting, joining and searching.
use vstd::prelude::*;
use vstd::utf8::{encode_utf8, encode_utf8_decode_utf8};

verus! {

/// Specifies `std::string::String::push`: the character goes to the end of the string.
pub assume_specification[ String::push ](s: &mut String, ch: char)
    ensures
        final(s)@ == old(s)@.push(ch),
;

/// The texts of a sequence of strings.
pub open spec fn views(strings: Seq<String>) -> Seq<Seq<char>> {
    strings.map_values(|s: String| s@)
}

/// The length of a text in bytes, as UTF-8.
pub open spec fn byte_len(s: Seq<char>) -> nat {
    encode_utf8(s).len()
}

/// The characters of `s`.
pub fn to_chars(s: &str) -> (r: Vec<char>)
    ensures
        r@ == s@,
{
    let mut r: Vec<char> = Vec::new();
    for c in it: s.chars()
        invariant
            r@ =~= it.seq().take(it.index() as int),
            it.seq() == s@,
    {
        r.push(c);
    }
    r
}

/// The string made of the characters of `chars` from `from` up to `to`.
pub fn string_of(chars: &[char], from: usize, to: usize) -> (r: String)
    requires
        from <= to <= chars@.len(),
    ensures
        r@ == chars@.subrange(from as int, to as int),
{
    let mut r = String::new();
    let mut i: usize = from;
    while i < to
        invariant
            from <= i <= to <= chars@.len(),
            r@ =~= chars@.subrange(from as int, i as int),
        decreases to - i,
    {
        r.push(chars[i]);
        i += 1;
    }
    r
}

/// Whether two texts are the same.
pub fn same(a: &str, b: &str) -> (r: bool)
    ensures
        r == (a@ == b@),
{
    let x = a.as_bytes();
    let y = b.as_bytes();
    proof {
        encode_utf8_decode_utf8(a@);
        encode_utf8_decode_utf8(b@);
    }
    if x.len() != y.len() {
        return false;
    }
    let mut i: usize = 0;
    while i < x.len()
        invariant
            i <= x@.len() == y@.len(),
            x@ == encode_utf8(a@),
            y@ == encode_utf8(b@),
            forall|j: int| 0 <= j < i ==> x@[j] == y@[j],
        decreases x@.len() - i,
    {
        if x[i] != y[i] {
            return false;
        }
        i += 1;
    }
    assert(x@ =~= y@);
    true
}

/// The position of the first `c` in `s`, or the length of `s` where there is none.
pub open spec fn first_at(s: Seq<char>, c: char) -> nat
    decreases s.len(),
{
    if s.len() == 0 || s[0] == c {
        0
    } else {
        1 + first_at(s.skip(1), c)
    }
}

/// Describes `first_at` by its position alone.
pub proof fn lemma_first_at(s: Seq<char>, c: char)
    ensures
        0 <= first_at(s, c) <= s.len(),
        forall|j: int| 0 <= j < first_at(s, c) ==> s[j] != c,
        first_at(s, c) < s.len() ==> s[first_at(s, c) as int] == c,
    decreases s.len(),
{
    if s.len() > 0 && s[0] != c {
        let t = s.skip(1);
        lemma_first_at(t, c);
        assert forall|j: int| 0 <= j < first_at(s, c) implies s[j] != c by {
            if j > 0 {
                assert(s[j] == t[j - 1]);
            }
        }
    }
}

/// A position before which `c` does not occur, and at which `c` stands or the text ends,
/// is the first one.
pub proof fn lemma_first_at_is(s: Seq<char>, c: char, i: int)
    requires
        0 <= i <= s.len(),
        forall|j: int| 0 <= j < i ==> s[j] != c,
        i < s.len() ==> s[i] == c,
    ensures
        first_at(s, c) == i,
{
    lemma_first_at(s, c);
    let k = first_at(s, c) as int;
    if k < i {
        assert(s[k] != c);
    }
}

/// The pieces of `s` between the separators `sep`; one more than there are separators.
pub open spec fn split(s: Seq<char>, sep: char) -> Seq<Seq<char>>
    decreases s.len(),
{
    let i = first_at(s, sep) as int;
    if i >= s.len() {
        seq![s]
    } else {
        seq![s.take(i)] + split(s.skip(i + 1), sep)
    }
}

/// Splits `s` at each `sep`.
pub fn split_at_each(s: &str, sep: char) -> (r: Vec<String>)
    ensures
        views(r@) == split(s@, sep),
        r@.len() > 0,
{
    let chars = to_chars(s);
    let mut r: Vec<String> = Vec::new();
    let mut start: usize = 0;
    let mut i: usize = 0;
    assert(s@.skip(0) =~= s@);
    while i < chars.len()
        invariant
            start <= i <= chars@.len(),
            chars@ == s@,
            forall|j: int| start <= j < i ==> chars@[j] != sep,
            split(s@, sep) =~= views(r@) + split(s@.skip(start as int), sep),
        decreases chars@.len() - i,
    {
        if chars[i] == sep {
            let piece = string_of(chars.as_slice(), start, i);
            proof {
                let rest = s@.skip(start as int);
                lemma_first_at_is(rest, sep, i - start);
                assert(rest.take(i - start) =~= piece@);
                assert(rest.skip(i - start + 1) =~= s@.skip(i + 1));
                assert(views(r@.push(piece)) =~= views(r@).push(piece@));
            }
            r.push(piece);
            start = i + 1;
        }
        i += 1;
    }
    let piece = string_of(chars.as_slice(), start, i);
    proof {
        let rest = s@.skip(start as int);
        lemma_first_at_is(rest, sep, rest.len() as int);
        assert(rest =~= piece@);
        assert(views(r@.push(piece)) =~= views(r@).push(piece@));
    }
    r.push(piece);
    r
}

/// A piece without separators in front of a separator is the first piece.
pub proof fn lemma_split_first(piece: Seq<char>, sep: char, rest: Seq<char>)
    requires
        !piece.contains(sep),
    ensures
        split(piece + seq![sep] + rest, sep) == seq![piece] + split(rest, sep),
{
    let s = piece + seq![sep] + rest;
    assert forall|j: int| 0 <= j < piece.len() implies s[j] != sep by {
        assert(s[j] == piece[j]);
        assert(piece.contains(piece[j]));
    }
    lemma_first_at_is(s, sep, piece.len() as int);
    assert(s.take(piece.len() as int) =~= piece);
    assert(s.skip(piece.len() as int + 1) =~= rest);
}

/// A text without separators is its only piece.
pub proof fn lemma_split_last(piece: Seq<char>, sep: char)
    requires
        !piece.contains(sep),
    ensures
        split(piece, sep) == seq![piece],
{
    assert forall|j: int| 0 <= j < piece.len() implies piece[j] != sep by {
        assert(piece.contains(piece[j]));
    }
    lemma_first_at_is(piece, sep, piece.len() as int);
}

/// No piece holds a separator.
pub proof fn lemma_split_pieces(s: Seq<char>, sep: char)
    ensures
        split(s, sep).len() > 0,
        forall|i: int| 0 <= i < split(s, sep).len() ==> !(#[trigger] split(s, sep)[i]).contains(sep),
    decreases s.len(),
{
    let i = first_at(s, sep) as int;
    lemma_first_at(s, sep);
    if i < s.len() {
        let rest = split(s.skip(i + 1), sep);
        lemma_split_pieces(s.skip(i + 1), sep);
        assert forall|k: int| 0 <= k < split(s, sep).len() implies !(#[trigger] split(
            s,
            sep,
        )[k]).contains(sep) by {
            if k > 0 {
                assert(split(s, sep)[k] == rest[k - 1]);
            }
        }
    }
}

/// A line without one carriage return at its end.
pub open spec fn chomp(s: Seq<char>) -> Seq<char> {
    if s.len() > 0 && s.last() == '\r' {
        s.drop_last()
    } else {
        s
    }
}

/// The lines of `s`: each ends in a newline, or in a carriage return and a newline, which do
/// not belong to it; the last one may lack its newline.
pub open spec fn lines(s: Seq<char>) -> Seq<Seq<char>>
    decreases s.len(),
{
    let i = first_at(s, '\n') as int;
    if s.len() == 0 {
        seq![]
    } else if i >= s.len() {
        seq![s]
    } else {
        seq![chomp(s.take(i))] + lines(s.skip(i + 1))
    }
}

/// Splits `s` into its lines.
pub fn split_lines(s: &str) -> (r: Vec<String>)
    ensures
        views(r@) == lines(s@),
{
    let chars = to_chars(s);
    let mut r: Vec<String> = Vec::new();
    let mut start: usize = 0;
    let mut i: usize = 0;
    assert(s@.skip(0) =~= s@);
    while i < chars.len()
        invariant
            start <= i <= chars@.len(),
            chars@ == s@,
            forall|j: int| start <= j < i ==> chars@[j] != '\n',
            lines(s@) =~= views(r@) + lines(s@.skip(start as int)),
        decreases chars@.len() - i,
    {
        if chars[i] == '\n' {
            let end: usize = if start < i && chars[i - 1] == '\r' {
                i - 1
            } else {
                i
            };
            let piece = string_of(chars.as_slice(), start, end);
            proof {
                let rest = s@.skip(start as int);
                lemma_first_at_is(rest, '\n', i - start);
                assert(chomp(rest.take(i - start)) =~= piece@);
                assert(rest.skip(i - start + 1) =~= s@.skip(i + 1));
                assert(views(r@.push(piece)) =~= views(r@).push(piece@));
            }
            r.push(piece);
            start = i + 1;
        }
        i += 1;
    }
    if start < i {
        let piece = string_of(chars.as_slice(), start, i);
        proof {
            let rest = s@.skip(start as int);
            lemma_first_at_is(rest, '\n', rest.len() as int);
            assert(rest =~= piece@);
            assert(views(r@.push(piece)) =~= views(r@).push(piece@));
        }
        r.push(piece);
    }
    r
}

/// Whether `c` is white space, that is, has the Unicode property `White_Space`.
pub open spec fn is_white(c: char) -> bool {
    ||| '\t' <= c <= '\r'
    ||| c == ' '
    ||| c == '\u{85}'
    ||| c == '\u{a0}'
    ||| c == '\u{1680}'
    ||| '\u{2000}' <= c <= '\u{200a}'
    ||| c == '\u{2028}'
    ||| c == '\u{2029}'
    ||| c == '\u{202f}'
    ||| c == '\u{205f}'
    ||| c == '\u{3000}'
}

/// Tells white space from other characters.
pub fn is_whitespace(c: char) -> (r: bool)
    ensures
        r == is_white(c),
{
    ('\t' <= c && c <= '\r') || c == ' ' || c == '\u{85}' || c == '\u{a0}' || c == '\u{1680}' || (
    '\u{2000}' <= c && c <= '\u{200a}') || c == '\u{2028}' || c == '\u{2029}' || c == '\u{202f}'
        || c == '\u{205f}' || c == '\u{3000}'
}

/// `s` without the white space at its start.
pub open spec fn trim_start(s: Seq<char>) -> Seq<char>
    decreases s.len(),
{
    if s.len() > 0 && is_white(s[0]) {
        trim_start(s.skip(1))
    } else {
        s
    }
}

/// `s` without the white space at its end.
pub open spec fn trim_end(s: Seq<char>) -> Seq<char>
    decreases s.len(),
{
    if s.len() > 0 && is_white(s.last()) {
        trim_end(s.drop_last())
    } else {
        s
    }
}

/// `s` without the white space at its start and at its end.
pub open spec fn trim(s: Seq<char>) -> Seq<char> {
    trim_end(trim_start(s))
}

/// Trims white space from both ends of `s`.
pub fn trimmed(s: &str) -> (r: &str)
    ensures
        r@ == trim(s@),
{
    let chars = to_chars(s);
    let mut from: usize = 0;
    assert(s@.skip(0) =~= s@);
    while from < chars.len() && is_whitespace(chars[from])
        invariant
            from <= chars@.len(),
            chars@ == s@,
            trim_start(s@) == trim_start(s@.skip(from as int)),
        decreases chars@.len() - from,
    {
        assert(s@.skip(from as int).skip(1) =~= s@.skip(from + 1));
        from += 1;
    }
    let mut to: usize = chars.len();
    assert(s@.subrange(from as int, to as int) =~= s@.skip(from as int));
    while from < to && is_whitespace(chars[to - 1])
        invariant
            from <= to <= chars@.len(),
            chars@ == s@,
            trim(s@) == trim_end(s@.subrange(from as int, to as int)),
        decreases to,
    {
        assert(s@.subrange(from as int, to as int).drop_last() =~= s@.subrange(
            from as int,
            to - 1,
        ));
        to -= 1;
    }
    s.substring_char(from, to)
}

/// Trimming leaves no white space at either end.
pub proof fn law_trim_ends(s: Seq<char>)
    ensures
        trim(s).len() > 0 ==> !is_white(trim(s)[0]) && !is_white(trim(s).last()),
{
    lemma_trim_start(s);
    lemma_trim_end(trim_start(s));
}

/// Trimming a second time changes nothing.
pub proof fn law_trim_idempotent(s: Seq<char>)
    ensures
        trim(trim(s)) == trim(s),
{
    law_trim_ends(s);
}

proof fn lemma_trim_start(s: Seq<char>)
    ensures
        trim_start(s).len() > 0 ==> !is_white(trim_start(s)[0]),
    decreases s.len(),
{
    if s.len() > 0 && is_white(s[0]) {
        lemma_trim_start(s.skip(1));
    }
}

proof fn lemma_trim_end(s: Seq<char>)
    ensures
        trim_end(s).len() <= s.len(),
        trim_end(s) == s.take(trim_end(s).len() as int),
        trim_end(s).len() > 0 ==> !is_white(trim_end(s).last()),
    decreases s.len(),
{
    if s.len() > 0 && is_white(s.last()) {
        lemma_trim_end(s.drop_last());
        assert(s.drop_last().take(trim_end(s).len() as int) =~= s.take(trim_end(s).len() as int));
    } else {
        assert(s.take(s.len() as int) =~= s);
    }
}

/// The texts of `parts` in a row, with `sep` between any two.
pub open spec fn join(parts: Seq<Seq<char>>, sep: Seq<char>) -> Seq<char>
    decreases parts.len(),
{
    if parts.len() == 0 {
        seq![]
    } else if parts.len() == 1 {
        parts[0]
    } else {
        join(parts.drop_last(), sep) + sep + parts.last()
    }
}

/// Joins `parts` with `sep` between any two.
pub fn joined(parts: &[String], sep: &str) -> (r: String)
    ensures
        r@ == join(views(parts@), sep@),
{
    let mut r = String::new();
    let mut i: usize = 0;
    while i < parts.len()
        invariant
            i <= parts@.len(),
            r@ == join(views(parts@).take(i as int), sep@),
        decreases parts@.len() - i,
    {
        proof {
            let next = views(parts@).take(i + 1);
            assert(next.drop_last() =~= views(parts@).take(i as int));
            assert(next.last() == parts@[i as int]@);
            if i == 0 {
                assert(r@ + parts@[i as int]@ =~= parts@[i as int]@);
            }
        }
        if i > 0 {
            r.append(sep);
        }
        r.append(parts[i].as_str());
        i += 1;
    }
    assert(views(parts@).take(i as int) =~= views(parts@));
    r
}

/// Whether `pattern` stands in `s` at position `i`.
pub open spec fn occurs_at(s: Seq<char>, pattern: Seq<char>, i: int) -> bool {
    &&& 0 <= i
    &&& i + pattern.len() <= s.len()
    &&& s.subrange(i, i + pattern.len()) == pattern
}

/// Whether `piece` is a part of `s`.
pub open spec fn is_part(s: Seq<char>, piece: Seq<char>) -> bool {
    exists|i: int| occurs_at(s, piece, i)
}

/// Whether `found` is the first position at which `pattern` stands in `s`, or `None` where it
/// does not occur.
pub open spec fn is_first_occurrence(
    s: Seq<char>,
    pattern: Seq<char>,
    found: Option<int>,
) -> bool {
    match found {
        Some(i) => occurs_at(s, pattern, i) && forall|j: int| 0 <= j < i ==> !occurs_at(
            s,
            pattern,
            j,
        ),
        None => forall|j: int| !occurs_at(s, pattern, j),
    }
}

/// The first position at which `pattern` stands in `s`.
pub open spec fn first_occurrence(s: Seq<char>, pattern: Seq<char>) -> Option<int> {
    choose|found: Option<int>| is_first_occurrence(s, pattern, found)
}

/// The first occurrence is the only position that meets its description.
pub proof fn lemma_first_occurrence_is(s: Seq<char>, pattern: Seq<char>, found: Option<int>)
    requires
        is_first_occurrence(s, pattern, found),
    ensures
        first_occurrence(s, pattern) == found,
{
    let other = first_occurrence(s, pattern);
    assert(is_first_occurrence(s, pattern, other));
    match (found, other) {
        (Some(i), Some(j)) => {
            if i < j {
                assert(!occurs_at(s, pattern, i));
            } else if j < i {
                assert(!occurs_at(s, pattern, j));
            }
        },
        (Some(i), None) => {
            assert(!occurs_at(s, pattern, i));
        },
        (None, Some(j)) => {
            assert(!occurs_at(s, pattern, j));
        },
        (None, None) => {},
    }
}

/// Whether `pattern` stands in `s` at position `i`.
fn stands_at(s: &[char], pattern: &[char], i: usize) -> (r: bool)
    ensures
        r == occurs_at(s@, pattern@, i as int),
{
    let len: usize = s.len();
    if i > len || len - i < pattern.len() {
        return false;
    }
    let mut k: usize = 0;
    while k < pattern.len()
        invariant
            len == s@.len(),
            k <= pattern@.len(),
            i + pattern@.len() <= s@.len(),
            forall|j: int| 0 <= j < k ==> s@[i + j] == pattern@[j],
        decreases pattern@.len() - k,
    {
        if s[i + k] != pattern[k] {
            assert(s@.subrange(i as int, i + pattern@.len())[k as int] != pattern@[k as int]);
            return false;
        }
        k += 1;
    }
    assert(s@.subrange(i as int, i + pattern@.len()) =~= pattern@);
    true
}

/// A position counted in machine integers, as a mathematical one.
pub open spec fn position(r: Option<usize>) -> Option<int> {
    match r {
        Some(i) => Some(i as int),
        None => None,
    }
}

/// Looks for `pattern` in `s`, and counts in characters where it first stands.
pub fn find(s: &str, pattern: &str) -> (r: Option<usize>)
    ensures
        position(r) == first_occurrence(s@, pattern@),
        is_first_occurrence(s@, pattern@, position(r)),
{
    let text = to_chars(s);
    let wanted = to_chars(pattern);
    let mut i: usize = 0;
    while i < text.len()
        invariant
            i <= text@.len(),
            text@ == s@,
            wanted@ == pattern@,
            forall|j: int| 0 <= j < i ==> !occurs_at(s@, pattern@, j),
        decreases text@.len() - i,
    {
        if stands_at(text.as_slice(), wanted.as_slice(), i) {
            proof {
                lemma_first_occurrence_is(s@, pattern@, Some(i as int));
            }
            return Some(i);
        }
        i += 1;
    }
    if wanted.len() == 0 {
        proof {
            assert(s@.subrange(i as int, i as int) =~= pattern@);
            lemma_first_occurrence_is(s@, pattern@, Some(i as int));
        }
        return Some(i);
    }
    proof {
        assert forall|j: int| !occurs_at(s@, pattern@, j) by {
            if occurs_at(s@, pattern@, j) {
                assert(0 <= j < i);
            }
        }
        lemma_first_occurrence_is(s@, pattern@, None);
    }
    None
}

/// Joining two rows of texts joins each, with a separator between them.
pub proof fn law_join_concat(a: Seq<Seq<char>>, b: Seq<Seq<char>>, sep: Seq<char>)
    ensures
        a.len() > 0 && b.len() > 0 ==> join(a + b, sep) == join(a, sep) + sep + join(b, sep),
        a.len() == 1 ==> join(a, sep) == a[0],
        a.len() == 0 ==> join(a, sep).len() == 0,
    decreases b.len(),
{
    if a.len() > 0 && b.len() > 0 {
        let all = a + b;
        assert(all.last() == b.last());
        assert(all.drop_last() =~= a + b.drop_last());
        if b.len() == 1 {
            assert(a + b.drop_last() =~= a);
        } else {
            law_join_concat(a, b.drop_last(), sep);
        }
        assert(join(all, sep) =~= join(a, sep) + sep + join(b, sep));
    }
}

/// The pieces of a text hold no separators, there is one more of them than separators, and
/// joined by the separator they are the text again.
pub proof fn law_split_joins_back(s: Seq<char>, sep: char)
    ensures
        join(split(s, sep), seq![sep]) == s,
        split(s, sep).len() == s.to_multiset().count(sep) + 1,
        forall|i: int| 0 <= i < split(s, sep).len() ==> !(#[trigger] split(s, sep)[i]).contains(sep),
    decreases s.len(),
{
    broadcast use vstd::seq_lib::group_to_multiset_ensures;

    lemma_split_pieces(s, sep);
    lemma_first_at(s, sep);
    let i = first_at(s, sep) as int;
    if i < s.len() {
        let head = s.take(i);
        let rest = s.skip(i + 1);
        law_split_joins_back(rest, sep);
        lemma_split_pieces(rest, sep);
        law_join_concat(seq![head], split(rest, sep), seq![sep]);
        assert(s =~= head + seq![sep] + rest);
        assert(!head.contains(sep));
        assert(s =~= head.push(sep) + rest);
        vstd::seq_lib::lemma_multiset_commutative(head.push(sep), rest);
        assert(head.push(sep).to_multiset() =~= head.to_multiset().insert(sep));
    } else {
        assert(!s.contains(sep)) by {
            if s.contains(sep) {
                let j = choose|j: int| 0 <= j < s.len() && s[j] == sep;
                assert(s[j] != sep);
            }
        }
    }
}

/// The first line of a text ends before the first newline, without one carriage return at its
/// end if there is one there; the other lines are those of the text after the newline.
pub proof fn law_first_line(line: Seq<char>, rest: Seq<char>)
    requires
        !line.contains('\n'),
    ensures
        lines(line + seq!['\r', '\n'] + rest) == seq![line] + lines(rest),
        line.len() == 0 || line.last() != '\r' ==> lines(line + seq!['\n'] + rest) == seq![line]
            + lines(rest),
{
    let s = line + seq!['\n'] + rest;
    assert forall|j: int| 0 <= j < line.len() implies line[j] != '\n' by {
        assert(line.contains(line[j]));
    }
    let n = line.len() as int;
    lemma_first_at_is(s, '\n', n);
    assert(s.take(n) =~= line);
    assert(s.skip(n + 1) =~= rest);
    let t = line + seq!['\r', '\n'] + rest;
    lemma_first_at_is(t, '\n', n + 1);
    assert(t.take(n + 1) =~= line.push('\r'));
    assert(chomp(line.push('\r')) =~= line);
    assert(t.skip(n + 2) =~= rest);
}

/// A text without a newline is one line, whatever it ends in, and an empty text has no lines.
pub proof fn law_last_line(line: Seq<char>)
    requires
        !line.contains('\n'),
    ensures
        line.len() > 0 ==> lines(line) == seq![line],
        line.len() == 0 ==> lines(line).len() == 0,
{
    assert forall|j: int| 0 <= j < line.len() implies line[j] != '\n' by {
        assert(line.contains(line[j]));
    }
    lemma_first_at_is(line, '\n', line.len() as int);
}

/// Trimming takes white space away and nothing else: what is left is a part of the text in one
/// piece, `s.subrange(r.0, r.1)`, with white space alone before it and after it.
pub proof fn law_trim_takes_white_space_only(s: Seq<char>) -> (r: (int, int))
    ensures
        0 <= r.0 <= r.1 <= s.len(),
        trim(s) == s.subrange(r.0, r.1),
        forall|i: int| 0 <= i < r.0 ==> is_white(s[i]),
        forall|i: int| r.1 <= i < s.len() ==> is_white(s[i]),
{
    let from = lemma_trim_start_part(s);
    let t = trim_start(s);
    let n = lemma_trim_end_part(t);
    assert(t == s.skip(from));
    assert(t.take(n) =~= s.subrange(from, from + n));
    assert forall|i: int| from + n <= i < s.len() implies is_white(s[i]) by {
        assert(s[i] == t[i - from]);
    }
    (from, from + n)
}

proof fn lemma_trim_start_part(s: Seq<char>) -> (from: int)
    ensures
        0 <= from <= s.len(),
        trim_start(s) == s.skip(from),
        forall|i: int| 0 <= i < from ==> is_white(s[i]),
    decreases s.len(),
{
    if s.len() > 0 && is_white(s[0]) {
        let t = s.skip(1);
        let from = lemma_trim_start_part(t);
        assert(t.skip(from) =~= s.skip(from + 1));
        assert forall|i: int| 0 <= i < from + 1 implies is_white(s[i]) by {
            if i > 0 {
                assert(s[i] == t[i - 1]);
            }
        }
        from + 1
    } else {
        assert(s.skip(0) =~= s);
        0
    }
}

proof fn lemma_trim_end_part(s: Seq<char>) -> (n: int)
    ensures
        0 <= n <= s.len(),
        trim_end(s) == s.take(n),
        forall|i: int| n <= i < s.len() ==> is_white(s[i]),
    decreases s.len(),
{
    if s.len() > 0 && is_white(s.last()) {
        let t = s.drop_last();
        let n = lemma_trim_end_part(t);
        assert(t.take(n) =~= s.take(n));
        assert forall|i: int| n <= i < s.len() implies is_white(s[i]) by {
            if i < s.len() - 1 {
                assert(s[i] == t[i]);
            }
        }
        n
    } else {
        assert(s.take(s.len() as int) =~= s);
        s.len() as int
    }
}

proof fn lemma_occurrence_exists(s: Seq<char>, pattern: Seq<char>, n: int) -> (found: Option<int>)
    requires
        0 <= n,
    ensures
        match found {
            Some(i) => 0 <= i < n && occurs_at(s, pattern, i) && forall|j: int|
                0 <= j < i ==> !occurs_at(s, pattern, j),
            None => forall|j: int| 0 <= j < n ==> !occurs_at(s, pattern, j),
        },
    decreases n,
{
    if n == 0 {
        None
    } else {
        let earlier = lemma_occurrence_exists(s, pattern, n - 1);
        if earlier is None && occurs_at(s, pattern, n - 1) {
            Some(n - 1)
        } else {
            earlier
        }
    }
}

/// A pattern is found just where it is a part of the text: at a position where it stands, and
/// it stands nowhere before that.
pub proof fn law_found_where_it_stands(s: Seq<char>, pattern: Seq<char>)
    ensures
        match first_occurrence(s, pattern) {
            Some(i) => {
                &&& 0 <= i
                &&& i + pattern.len() <= s.len()
                &&& s.subrange(i, i + pattern.len()) == pattern
                &&& forall|j: int|
                    0 <= j < i ==> #[trigger] s.subrange(j, j + pattern.len()) != pattern
            },
            None => forall|j: int|
                0 <= j && j + pattern.len() <= s.len() ==> #[trigger] s.subrange(
                    j,
                    j + pattern.len(),
                ) != pattern,
        },
{
    let found = lemma_occurrence_exists(s, pattern, s.len() as int + 1);
    assert(is_first_occurrence(s, pattern, found));
    lemma_first_occurrence_is(s, pattern, found);
    match found {
        Some(i) => {
            assert forall|j: int| 0 <= j < i implies #[trigger] s.subrange(j, j + pattern.len())
                != pattern by {
                assert(!occurs_at(s, pattern, j));
            }
        },
        None => {
            assert forall|j: int| 0 <= j && j + pattern.len() <= s.len() implies #[trigger] s.subrange(
                j,
                j + pattern.len(),
            ) != pattern by {
                assert(!occurs_at(s, pattern, j));
            }
        },
    }
}

} // verus!
