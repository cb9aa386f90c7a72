//! Cutting a line down to a length.
use crate::context::{first_match, opt_view, ContextRegex};
use crate::text::{
    byte_len, find, first_occurrence, is_first_occurrence, is_part, is_white,
    law_found_where_it_stands, law_trim_ends, law_trim_idempotent, lemma_first_occurrence_is,
    occurs_at, position, string_of, to_chars, trim, trimmed,
};
use vstd::prelude::*;
use vstd::utf8::encode_utf8;

verus! {

/// `s` in lower case, as `str::to_lowercase` makes it by the rules of Unicode.
pub uninterp spec fn lowercase(s: Seq<char>) -> Seq<char>;

/// Specifies `str::to_lowercase`: what it returns depends on the text alone.
pub assume_specification[ str::to_lowercase ](s: &str) -> (r: String)
    ensures
        r@ == lowercase(s@),
;

/// Where the part of a text of `len` characters that is shown begins and ends: `max_len`
/// characters, a third of them before `pos`, moved back where the text ends before they do.
pub open spec fn window(len: int, max_len: int, pos: int) -> (int, int) {
    let lead = if pos > max_len / 3 {
        pos - max_len / 3
    } else {
        0
    };
    if lead + max_len < len {
        (lead, lead + max_len)
    } else if len > max_len {
        (len - max_len, len)
    } else {
        (0, len)
    }
}

/// A text that is too long, cut down: to the surroundings of `at` where there is such a
/// position, else to its start.
pub open spec fn clipped(t: Seq<char>, max_len: int, at: Option<int>) -> Seq<char> {
    match at {
        Some(pos) => {
            let (start, end) = window(t.len() as int, max_len, pos);
            let piece = t.subrange(start, end);
            if start > 0 && end < t.len() {
                "..."@ + piece + "..."@
            } else if start > 0 {
                "..."@ + piece
            } else {
                piece + "..."@
            }
        },
        None => if t.len() > max_len - 3 {
            t.take(max_len - 3) + "..."@
        } else {
            t + "..."@
        },
    }
}

/// Cuts down a text that is too long.
pub fn clip(t: &str, max_len: usize, at: Option<usize>) -> (r: String)
    requires
        at is Some || max_len >= 3,
    ensures
        r@ == clipped(t@, max_len as int, position(at)),
{
    let chars = to_chars(t);
    let len: usize = chars.len();
    let mut r = String::new();
    match at {
        Some(pos) => {
            let third: usize = max_len / 3;
            let lead: usize = if pos > third {
                pos - third
            } else {
                0
            };
            let mut start: usize = 0;
            let mut end: usize = len;
            if lead < len && max_len < len - lead {
                start = lead;
                end = lead + max_len;
            } else if len > max_len {
                start = len - max_len;
            }
            assert((start as int, end as int) == window(len as int, max_len as int, pos as int));
            let piece = string_of(chars.as_slice(), start, end);
            if start > 0 {
                r.append("...");
            }
            r.append(piece.as_str());
            if start == 0 || end < len {
                r.append("...");
            }
            assert(r@ =~= clipped(t@, max_len as int, position(at)));
        },
        None => {
            let end: usize = if len > max_len - 3 {
                max_len - 3
            } else {
                len
            };
            let piece = string_of(chars.as_slice(), 0, end);
            r.append(piece.as_str());
            r.append("...");
            assert(r@ =~= clipped(t@, max_len as int, position(at)));
        },
    }
    r
}

/// What is shown of a text without cutting it: `hit`, a part of it, or else all of it, where
/// it takes up to `max_len` bytes.
pub open spec fn whole(t: Seq<char>, max_len: int, hit: Option<Seq<char>>) -> Option<Seq<char>> {
    if hit is Some && byte_len(hit->0) <= max_len {
        hit
    } else if byte_len(t) <= max_len {
        Some(t)
    } else {
        None
    }
}

/// Picks what can be shown of a text without cutting it.
pub fn show_whole<'t>(t: &'t str, max_len: usize, hit: Option<&'t str>) -> (r: Option<&'t str>)
    ensures
        opt_view(r) == whole(t@, max_len as int, opt_view(hit)),
{
    match hit {
        Some(m) => {
            if m.as_bytes().len() <= max_len {
                return Some(m);
            }
        },
        None => {},
    }
    if t.as_bytes().len() <= max_len {
        Some(t)
    } else {
        None
    }
}

/// A trimmed text as it is shown: whole, or cut down round `at`.
pub open spec fn shown(
    t: Seq<char>,
    max_len: int,
    hit: Option<Seq<char>>,
    at: Option<int>,
) -> Seq<char> {
    match whole(t, max_len, hit) {
        Some(s) => s,
        None => clipped(t, max_len, at),
    }
}

/// What the context expression matches in `t`, if there is one.
pub open spec fn hit_in(context: Option<Seq<char>>, t: Seq<char>) -> Option<Seq<char>> {
    match context {
        Some(source) => first_match(source, t),
        None => None,
    }
}

/// Where `pattern` first stands in `t`, without regard to case.
pub open spec fn pattern_at(t: Seq<char>, pattern: Seq<char>) -> Option<int> {
    first_occurrence(lowercase(t), lowercase(pattern))
}

/// A line as it is shown.
pub open spec fn cleaned(
    line: Seq<char>,
    max_len: int,
    context: Option<Seq<char>>,
    pattern: Seq<char>,
) -> Seq<char> {
    let t = trim(line);
    shown(t, max_len, hit_in(context, t), pattern_at(t, pattern))
}

/// Whether a line can be shown: a line that is cut at its end needs room for the dots.
pub open spec fn can_clean(
    line: Seq<char>,
    max_len: int,
    context: Option<Seq<char>>,
    pattern: Seq<char>,
) -> bool {
    let t = trim(line);
    ||| max_len >= 3
    ||| whole(t, max_len, hit_in(context, t)) is Some
    ||| pattern_at(t, pattern) is Some
}

/// The text of an optional context expression.
pub open spec fn context_view(context: Option<&ContextRegex>) -> Option<Seq<char>> {
    match context {
        Some(re) => Some(re@),
        None => None,
    }
}

/// What the context expression matches in `t`.
fn find_hit<'t>(context: Option<&ContextRegex>, t: &'t str) -> (r: Option<&'t str>)
    ensures
        opt_view(r) == hit_in(context_view(context), t@),
        r matches Some(m) ==> is_part(t@, m@),
{
    match context {
        Some(re) => re.find(t),
        None => None,
    }
}

/// Looks for `pattern` in `t` without regard to case.
fn find_pattern(t: &str, pattern: &str) -> (r: Option<usize>)
    ensures
        position(r) == pattern_at(t@, pattern@),
{
    let lower = t.to_lowercase();
    let pattern_lower = pattern.to_lowercase();
    find(lower.as_str(), pattern_lower.as_str())
}

/// Trims a line and cuts it down to about `max_len`: to what the context expression matches
/// where that is short enough, else to the surroundings of `pattern`.
pub fn clean_line(
    line: &str,
    max_len: usize,
    context_re: Option<&ContextRegex>,
    pattern: &str,
) -> (r: String)
    requires
        can_clean(line@, max_len as int, context_view(context_re), pattern@),
    ensures
        r@ == cleaned(line@, max_len as int, context_view(context_re), pattern@),
        whole(
            trim(line@),
            max_len as int,
            hit_in(context_view(context_re), trim(line@)),
        ) is Some ==> is_part(trim(line@), r@),
{
    let t = trimmed(line);
    let hit = find_hit(context_re, t);
    match show_whole(t, max_len, hit) {
        Some(s) => {
            proof {
                assert(t@.subrange(0, t@.len() as int) =~= t@);
                assert(occurs_at(t@, t@, 0));
            }
            s.to_string()
        },
        None => {
            let at = find_pattern(t, pattern);
            clip(t, max_len, at)
        },
    }
}

/// Does as `clean_line`, and returns `None` for a line that cannot be shown.
pub fn try_clean_line(
    line: &str,
    max_len: usize,
    context_re: Option<&ContextRegex>,
    pattern: &str,
) -> (r: Option<String>)
    ensures
        match r {
            Some(s) => can_clean(line@, max_len as int, context_view(context_re), pattern@) && s@
                == cleaned(line@, max_len as int, context_view(context_re), pattern@),
            None => !can_clean(line@, max_len as int, context_view(context_re), pattern@),
        },
{
    if max_len < 3 {
        let t = trimmed(line);
        let hit = find_hit(context_re, t);
        if show_whole(t, max_len, hit).is_none() && find_pattern(t, pattern).is_none() {
            return None;
        }
    }
    Some(clean_line(line, max_len, context_re, pattern))
}

/// What is shown is bounded: in bytes where nothing was cut, else in characters, the dots
/// included.
pub proof fn law_shown_is_short(
    t: Seq<char>,
    max_len: int,
    hit: Option<Seq<char>>,
    at: Option<int>,
)
    requires
        0 <= max_len,
        at matches Some(pos) ==> 0 <= pos,
        at is None ==> max_len >= 3,
    ensures
        whole(t, max_len, hit) is Some ==> byte_len(shown(t, max_len, hit, at)) <= max_len,
        whole(t, max_len, hit) is None ==> shown(t, max_len, hit, at).len() <= max_len + 6,
        whole(t, max_len, hit) is None && at is None ==> shown(t, max_len, hit, at).len()
            <= max_len,
{
    reveal_strlit("...");
}

/// Without a context expression, a line is never shown with white space at its start.
pub proof fn law_no_leading_space(line: Seq<char>, max_len: int, at: Option<int>)
    requires
        0 <= max_len,
        at matches Some(pos) ==> 0 <= pos,
        at is None ==> max_len >= 3,
    ensures
        ({
            let s = shown(trim(line), max_len, None, at);
            s.len() > 0 ==> !is_white(s[0])
        }),
{
    reveal_strlit("...");
    law_trim_ends(line);
}

/// A line that is cut shows the place where the pattern was found.
pub proof fn law_window_shows_match(len: int, max_len: int, pos: int)
    requires
        0 < max_len,
        0 <= pos < len,
    ensures
        ({
            let (start, end) = window(len, max_len, pos);
            &&& 0 <= start <= pos < end <= len
            &&& end - start <= max_len
        }),
{
}

/// Where the part that is shown lies: it is `max_len` characters long, or the whole text where
/// that is shorter. Where neither end of the text is in the way it begins `max_len / 3`
/// characters before `pos`; near the start of the text it begins there, near its end it ends
/// there.
pub proof fn law_window_place(len: int, max_len: int, pos: int)
    requires
        0 <= len,
        0 <= max_len,
        0 <= pos,
    ensures
        ({
            let (start, end) = window(len, max_len, pos);
            &&& 0 <= start <= end <= len
            &&& max_len <= len ==> end - start == max_len
            &&& len < max_len ==> end - start == len
            &&& pos <= max_len / 3 ==> start == 0
            &&& max_len / 3 <= pos && pos - max_len / 3 + max_len <= len ==> pos - start == max_len
                / 3
            &&& max_len / 3 <= pos && pos - max_len / 3 + max_len >= len ==> end == len
        }),
{
}

/// Whether `r` is the part of `t` from `start` up to `end`, with dots where `t` goes on before
/// it or after it; dots stand at the end also where nothing is missing.
pub open spec fn is_excerpt(r: Seq<char>, t: Seq<char>, start: int, end: int) -> bool {
    let dots = seq!['.', '.', '.'];
    let none = Seq::<char>::empty();
    &&& 0 <= start <= end <= t.len()
    &&& r == (if start > 0 {
        dots
    } else {
        none
    }) + t.subrange(start, end) + (if start == 0 || end < t.len() {
        dots
    } else {
        none
    })
}

/// A text that is cut round the pattern found at `pos` shows the whole pattern where that takes
/// up to two thirds of `max_len`: what is shown is the text from `r.0` up to `r.1`, between dots,
/// and the pattern lies in it. Where neither end of the text is in the way, `max_len / 3`
/// characters are shown before the pattern.
pub proof fn law_cut_shows_pattern(t: Seq<char>, max_len: int, pos: int, n: int) -> (r: (int, int))
    requires
        0 <= max_len,
        0 <= pos,
        0 <= n,
        pos + n <= t.len(),
        3 * n <= 2 * max_len,
    ensures
        is_excerpt(clipped(t, max_len, Some(pos)), t, r.0, r.1),
        r.0 <= pos && pos + n <= r.1,
        r.1 - r.0 <= max_len,
        max_len <= t.len() ==> r.1 - r.0 == max_len,
        is_part(clipped(t, max_len, Some(pos)), t.subrange(pos, pos + n)),
        max_len / 3 <= pos && pos - max_len / 3 + max_len <= t.len() ==> pos - r.0 == max_len / 3,
        pos <= max_len / 3 ==> r.0 == 0,
        max_len / 3 <= pos && pos - max_len / 3 + max_len >= t.len() ==> r.1 == t.len(),
{
    reveal_strlit("...");
    let r = window(t.len() as int, max_len, pos);
    let (start, end) = r;
    let out = clipped(t, max_len, Some(pos));
    let piece = t.subrange(start, end);
    let wanted = t.subrange(pos, pos + n);
    assert("..."@ =~= seq!['.', '.', '.']);
    assert(is_excerpt(out, t, start, end)) by {
        let dots = seq!['.', '.', '.'];
        let none = Seq::<char>::empty();
        assert(out =~= (if start > 0 {
            dots
        } else {
            none
        }) + piece + (if start == 0 || end < t.len() {
            dots
        } else {
            none
        }));
    }
    let shift: int = if start > 0 {
        3
    } else {
        0
    };
    let i = shift + pos - start;
    assert(out.subrange(i, i + n) =~= wanted);
    assert(occurs_at(out, wanted, i));
    r
}

/// A text that is cut without a pattern found in it shows its start, three characters less than
/// `max_len` where it has as many, and dots.
pub proof fn law_cut_shows_start(t: Seq<char>, max_len: int)
    requires
        3 <= max_len,
    ensures
        ({
            let r = clipped(t, max_len, None);
            let n = r.len() - 3;
            &&& 0 <= n <= t.len()
            &&& n <= max_len - 3
            &&& n < t.len() ==> n == max_len - 3
            &&& is_excerpt(r, t, 0, n)
        }),
{
    reveal_strlit("...");
    let r = clipped(t, max_len, None);
    let n = r.len() - 3;
    assert(r =~= Seq::<char>::empty() + t.subrange(0, n) + seq!['.', '.', '.']);
}

/// What the context expression matched is shown where it takes up to `max_len` bytes; else the
/// text itself where that does; a text is cut only where neither does.
pub proof fn law_cut_as_last_resort(
    t: Seq<char>,
    max_len: int,
    hit: Option<Seq<char>>,
    at: Option<int>,
)
    ensures
        hit matches Some(m) && encode_utf8(m).len() <= max_len ==> shown(t, max_len, hit, at)
            == hit->0,
        (hit matches Some(m) ==> encode_utf8(m).len() > max_len) && encode_utf8(t).len() <= max_len
            ==> shown(t, max_len, hit, at) == t,
        (hit matches Some(m) ==> encode_utf8(m).len() > max_len) && encode_utf8(t).len() > max_len
            ==> shown(t, max_len, hit, at) == clipped(t, max_len, at),
{
}

/// How a line is cleaned: white space at its ends does not matter, nor does the case of the
/// pattern. A short match of the context expression is shown in place of the line, a short line
/// is shown as it is, and a long one is cut round the first place where the pattern stands in it
/// without regard to case.
pub proof fn law_cleaned(
    line: Seq<char>,
    max_len: int,
    context: Option<Seq<char>>,
    pattern: Seq<char>,
    same_pattern: Seq<char>,
)
    requires
        lowercase(pattern) == lowercase(same_pattern),
    ensures
        ({
            let t = trim(line);
            let r = cleaned(line, max_len, context, pattern);
            let hit = match context {
                Some(source) => first_match(source, t),
                None => None,
            };
            let short_hit = hit is Some && encode_utf8(hit->0).len() <= max_len;
            let short = encode_utf8(t).len() <= max_len;
            &&& r == cleaned(t, max_len, context, pattern)
            &&& r == cleaned(line, max_len, context, same_pattern)
            &&& short_hit ==> r == hit->0
            &&& !short_hit && short ==> r == t
            &&& !short_hit && !short ==> forall|at: Option<int>| #[trigger]
                is_first_occurrence(lowercase(t), lowercase(pattern), at) ==> r == clipped(
                    t,
                    max_len,
                    at,
                )
            &&& can_clean(line, max_len, context, pattern) <==> max_len >= 3 || short_hit || short
                || is_part(lowercase(t), lowercase(pattern))
        }),
{
    let t = trim(line);
    law_trim_idempotent(line);
    assert forall|at: Option<int>| #[trigger]
        is_first_occurrence(lowercase(t), lowercase(pattern), at) implies pattern_at(t, pattern)
        == at by {
        lemma_first_occurrence_is(lowercase(t), lowercase(pattern), at);
    }
    law_found_where_it_stands(lowercase(t), lowercase(pattern));
    match pattern_at(t, pattern) {
        Some(i) => {
            assert(occurs_at(lowercase(t), lowercase(pattern), i));
        },
        None => {
            if is_part(lowercase(t), lowercase(pattern)) {
                let i = choose|i: int| occurs_at(lowercase(t), lowercase(pattern), i);
                assert(lowercase(t).subrange(i, i + lowercase(pattern).len()) == lowercase(pattern));
            }
        },
    }
}

/// A line that is cut because it is too long shows the pattern that was found in it, in the
/// letters of the line: where the pattern first stands at `pos` without regard to case and takes
/// up to two thirds of `max_len`, the characters of the line at that place are part of what is
/// shown.
pub proof fn law_cleaned_shows_pattern(
    line: Seq<char>,
    max_len: int,
    context: Option<Seq<char>>,
    pattern: Seq<char>,
    pos: int,
)
    requires
        0 <= max_len,
        context is None,
        encode_utf8(trim(line)).len() > max_len,
        is_first_occurrence(lowercase(trim(line)), lowercase(pattern), Some(pos)),
        pos + lowercase(pattern).len() <= trim(line).len(),
        3 * lowercase(pattern).len() <= 2 * max_len,
    ensures
        is_part(
            cleaned(line, max_len, context, pattern),
            trim(line).subrange(pos, pos + lowercase(pattern).len()),
        ),
{
    law_cleaned(line, max_len, context, pattern, pattern);
    law_cut_shows_pattern(trim(line), max_len, pos, lowercase(pattern).len() as int);
}

/// The part that is shown holds the whole pattern found at `pos`, `n` characters long, where it
/// lies in the text and takes up to two thirds of `max_len`; and `max_len / 3` characters are
/// shown before it where neither end of the text is in the way.
pub proof fn law_window_shows_pattern(len: int, max_len: int, pos: int, n: int)
    requires
        0 <= max_len,
        0 <= pos,
        0 <= n,
        pos + n <= len,
        3 * n <= 2 * max_len,
    ensures
        ({
            let (start, end) = window(len, max_len, pos);
            &&& 0 <= start <= pos
            &&& pos + n <= end <= len
            &&& 0 < start && end < len ==> pos - start == max_len / 3
        }),
{
}

/// A text is shown without cutting it just where it takes up to `max_len` bytes, or the match of
/// the context expression does, which is shown in its place then.
pub proof fn law_whole(t: Seq<char>, max_len: int, hit: Option<Seq<char>>)
    ensures
        hit matches Some(m) && encode_utf8(m).len() <= max_len ==> whole(t, max_len, hit) == hit,
        (hit matches Some(m) ==> encode_utf8(m).len() > max_len) && encode_utf8(t).len() <= max_len
            ==> whole(t, max_len, hit) == Some(t),
        (hit matches Some(m) ==> encode_utf8(m).len() > max_len) && encode_utf8(t).len() > max_len
            ==> whole(t, max_len, hit) is None,
{
}

} // verus!
