//! Reading the command line of a search.
use crate::text::{same, string_of, to_chars, views};
use vstd::prelude::*;

verus! {

/// One word of a command line.
pub trait Argument {
    /// The characters of the word.
    spec fn text(&self) -> Seq<char>;

    /// The word as a string slice.
    fn as_text(&self) -> (r: &str)
        ensures
            r@ == self.text(),
    ;
}

impl Argument for String {
    open spec fn text(&self) -> Seq<char> {
        self@
    }

    fn as_text(&self) -> (r: &str) {
        self.as_str()
    }
}

impl Argument for &str {
    open spec fn text(&self) -> Seq<char> {
        self@
    }

    fn as_text(&self) -> (r: &str) {
        *self
    }
}

/// The words of a command line.
pub open spec fn words<T: Argument>(args: Seq<T>) -> Seq<Seq<char>> {
    args.map_values(|a: T| a.text())
}

/// Whether a short flag is kept: the search is recursive anyway, so `r` and `R` are not.
pub open spec fn is_kept(c: char) -> bool {
    c != 'r' && c != 'R'
}

/// The short flags of `s` but for the recursive ones.
pub open spec fn without_r(s: Seq<char>) -> Seq<char> {
    s.filter(|c: char| is_kept(c))
}

proof fn lemma_without_r_push(s: Seq<char>, c: char)
    ensures
        without_r(s.push(c)) == if is_kept(c) {
            without_r(s).push(c)
        } else {
            without_r(s)
        },
{
    reveal(Seq::filter);
    assert(s.push(c).drop_last() =~= s);
}

/// Normalises the letters of a short flag for rg. `None` when nothing is left of it.
pub fn strip_r(arg: &str) -> (r: Option<String>)
    ensures
        match r {
            Some(s) => s@.len() > 0 && s@ == without_r(arg@),
            None => without_r(arg@).len() == 0,
        },
{
    let chars = to_chars(arg);
    let mut kept = String::new();
    let mut empty = true;
    let mut i: usize = 0;
    proof {
        reveal(Seq::filter);
        assert(without_r(chars@.take(0)) =~= seq![]);
    }
    while i < chars.len()
        invariant
            i <= chars@.len(),
            kept@ == without_r(chars@.take(i as int)),
            empty == (kept@.len() == 0),
        decreases chars@.len() - i,
    {
        proof {
            lemma_without_r_push(chars@.take(i as int), chars@[i as int]);
            assert(chars@.take(i as int).push(chars@[i as int]) =~= chars@.take(i + 1));
        }
        if chars[i] != 'r' && chars[i] != 'R' {
            kept.push(chars[i]);
            empty = false;
        }
        i += 1;
    }
    assert(chars@.take(i as int) =~= arg@);
    if empty {
        None
    } else {
        Some(kept)
    }
}

/// Normalises a long flag for rg. `None` when the flag is to be dropped.
pub fn strip_recursive(arg: &str) -> (r: Option<String>)
    ensures
        match r {
            Some(s) => arg@ != "--recursive"@ && s@ == arg@,
            None => arg@ == "--recursive"@,
        },
{
    if same(arg, "--recursive") {
        None
    } else {
        Some(arg.to_string())
    }
}

/// What one word, or a part of it, means.
pub enum Item {
    /// A flag to hand on.
    Flag(Seq<char>),
    /// The value of the flag before it, to hand on as well.
    Value(Seq<char>),
    /// A pattern given with `-e`.
    Pattern(Seq<char>),
    /// A word that is not a flag: a pattern or a path.
    Operand(Seq<char>),
}

/// Whether the short flag `c` takes the next word as its value, `-e` left aside.
pub open spec fn is_value_flag(c: char) -> bool {
    "ABCgfjm"@.contains(c)
}

/// Tells the short flags that take a value, `-e` left aside.
pub fn takes_value(c: char) -> (r: bool)
    ensures
        r == is_value_flag(c),
{
    proof {
        reveal_strlit("ABCgfjm");
        let s = "ABCgfjm"@;
        assert(s.len() == 7);
        assert(s[0] == 'A' && s[1] == 'B' && s[2] == 'C' && s[3] == 'g' && s[4] == 'f' && s[5]
            == 'j' && s[6] == 'm');
    }
    c == 'A' || c == 'B' || c == 'C' || c == 'g' || c == 'f' || c == 'j' || c == 'm'
}

/// Whether a word is a long flag.
pub open spec fn is_long(word: Seq<char>) -> bool {
    word.len() >= 2 && word[0] == '-' && word[1] == '-'
}

/// Whether a word is a cluster of short flags.
pub open spec fn is_cluster(word: Seq<char>) -> bool {
    word.len() >= 2 && word[0] == '-' && word[1] != '-'
}

/// Whether a word is a cluster whose last flag takes the next word.
pub open spec fn wants_value(word: Seq<char>) -> bool {
    is_cluster(word) && (word.last() == 'e' || is_value_flag(word.last()))
}

/// A cluster of the flags `letters`, without the recursive ones.
pub open spec fn cluster_items(letters: Seq<char>) -> Seq<Item> {
    if without_r(letters).len() == 0 {
        seq![]
    } else {
        seq![Item::Flag(seq!['-'] + without_r(letters))]
    }
}

/// The last flag of a cluster, with the word that it takes if there is one.
pub open spec fn valued_items(last: char, value: Option<Seq<char>>) -> Seq<Item> {
    match value {
        Some(v) => if last == 'e' {
            seq![Item::Pattern(v)]
        } else {
            seq![Item::Flag(seq!['-', last]), Item::Value(v)]
        },
        None => seq![Item::Flag(seq!['-', last])],
    }
}

/// Words that are operands whatever they look like.
pub open spec fn operand_items(words: Seq<Seq<char>>) -> Seq<Item> {
    words.map_values(|w: Seq<char>| Item::Operand(w))
}

/// What a word means that takes no other.
pub open spec fn word_items(word: Seq<char>) -> Seq<Item> {
    if is_long(word) {
        if word == "--recursive"@ {
            seq![]
        } else {
            seq![Item::Flag(word)]
        }
    } else if is_cluster(word) {
        cluster_items(word.skip(1))
    } else {
        seq![Item::Operand(word)]
    }
}

/// What the words of a command line mean, from left to right.
pub open spec fn items(words: Seq<Seq<char>>) -> Seq<Item>
    decreases words.len(),
{
    if words.len() == 0 {
        seq![]
    } else if words[0] == "--"@ {
        operand_items(words.skip(1))
    } else if wants_value(words[0]) {
        let flags = cluster_items(words[0].skip(1).drop_last());
        if words.len() >= 2 {
            flags + valued_items(words[0].last(), Some(words[1])) + items(words.skip(2))
        } else {
            flags + valued_items(words[0].last(), None)
        }
    } else {
        word_items(words[0]) + items(words.skip(1))
    }
}

/// The flags among `items`, with their values.
pub open spec fn flags_of(items: Seq<Item>) -> Seq<Seq<char>>
    decreases items.len(),
{
    if items.len() == 0 {
        seq![]
    } else {
        let before = flags_of(items.drop_last());
        match items.last() {
            Item::Flag(s) => before.push(s),
            Item::Value(s) => before.push(s),
            _ => before,
        }
    }
}

/// The patterns given with `-e` among `items`.
pub open spec fn explicit_of(items: Seq<Item>) -> Seq<Seq<char>>
    decreases items.len(),
{
    if items.len() == 0 {
        seq![]
    } else {
        let before = explicit_of(items.drop_last());
        match items.last() {
            Item::Pattern(s) => before.push(s),
            _ => before,
        }
    }
}

/// The operands among `items`.
pub open spec fn operands_of(items: Seq<Item>) -> Seq<Seq<char>>
    decreases items.len(),
{
    if items.len() == 0 {
        seq![]
    } else {
        let before = operands_of(items.drop_last());
        match items.last() {
            Item::Operand(s) => before.push(s),
            _ => before,
        }
    }
}

/// What is searched for: the patterns given with `-e`, or else the first operand.
pub open spec fn patterns_of(items: Seq<Item>) -> Seq<Seq<char>> {
    let operands = operands_of(items);
    if explicit_of(items).len() > 0 {
        explicit_of(items)
    } else if operands.len() > 0 {
        operands.take(1)
    } else {
        seq![]
    }
}

/// Where it is searched: the operands that are no patterns.
pub open spec fn paths_of(items: Seq<Item>) -> Seq<Seq<char>> {
    let operands = operands_of(items);
    if explicit_of(items).len() > 0 {
        operands
    } else if operands.len() > 0 {
        operands.skip(1)
    } else {
        seq![]
    }
}

proof fn lemma_collect_push(items: Seq<Item>, item: Item)
    ensures
        flags_of(items.push(item)) == match item {
            Item::Flag(s) => flags_of(items).push(s),
            Item::Value(s) => flags_of(items).push(s),
            _ => flags_of(items),
        },
        explicit_of(items.push(item)) == match item {
            Item::Pattern(s) => explicit_of(items).push(s),
            _ => explicit_of(items),
        },
        operands_of(items.push(item)) == match item {
            Item::Operand(s) => operands_of(items).push(s),
            _ => operands_of(items),
        },
{
    assert(items.push(item).drop_last() =~= items);
}

/// What has been read of a command line.
struct Gathered {
    explicit: Vec<String>,
    operands: Vec<String>,
    flags: Vec<String>,
}

impl Gathered {
    /// Whether what was read is `items`.
    spec fn holds(self, items: Seq<Item>) -> bool {
        &&& views(self.explicit@) == explicit_of(items)
        &&& views(self.operands@) == operands_of(items)
        &&& views(self.flags@) == flags_of(items)
    }

    fn add_flag(&mut self, flag: String)
        ensures
            forall|d: Seq<Item>| #[trigger]
                old(self).holds(d) ==> final(self).holds(d.push(Item::Flag(flag@))),
    {
        let ghost before = *self;
        self.flags.push(flag);
        proof {
            assert(views(self.flags@) =~= views(before.flags@).push(flag@));
            assert forall|d: Seq<Item>| before.holds(d) implies self.holds(
                d.push(Item::Flag(flag@)),
            ) by {
                lemma_collect_push(d, Item::Flag(flag@));
            }
        }
    }

    fn add_value(&mut self, value: String)
        ensures
            forall|d: Seq<Item>| #[trigger]
                old(self).holds(d) ==> final(self).holds(d.push(Item::Value(value@))),
    {
        let ghost before = *self;
        self.flags.push(value);
        proof {
            assert(views(self.flags@) =~= views(before.flags@).push(value@));
            assert forall|d: Seq<Item>| before.holds(d) implies self.holds(
                d.push(Item::Value(value@)),
            ) by {
                lemma_collect_push(d, Item::Value(value@));
            }
        }
    }

    fn add_pattern(&mut self, pattern: String)
        ensures
            forall|d: Seq<Item>| #[trigger]
                old(self).holds(d) ==> final(self).holds(d.push(Item::Pattern(pattern@))),
    {
        let ghost before = *self;
        self.explicit.push(pattern);
        proof {
            assert(views(self.explicit@) =~= views(before.explicit@).push(pattern@));
            assert forall|d: Seq<Item>| before.holds(d) implies self.holds(
                d.push(Item::Pattern(pattern@)),
            ) by {
                lemma_collect_push(d, Item::Pattern(pattern@));
            }
        }
    }

    fn add_operand(&mut self, operand: String)
        ensures
            forall|d: Seq<Item>| #[trigger]
                old(self).holds(d) ==> final(self).holds(d.push(Item::Operand(operand@))),
    {
        let ghost before = *self;
        self.operands.push(operand);
        proof {
            assert(views(self.operands@) =~= views(before.operands@).push(operand@));
            assert forall|d: Seq<Item>| before.holds(d) implies self.holds(
                d.push(Item::Operand(operand@)),
            ) by {
                lemma_collect_push(d, Item::Operand(operand@));
            }
        }
    }

    /// Adds a cluster of the flags `letters`.
    fn add_cluster(&mut self, letters: &str)
        ensures
            forall|d: Seq<Item>| #[trigger]
                old(self).holds(d) ==> final(self).holds(d + cluster_items(letters@)),
    {
        match strip_r(letters) {
            Some(kept) => {
                let mut flag = String::new();
                flag.push('-');
                flag.append(kept.as_str());
                assert(flag@ =~= seq!['-'] + kept@);
                assert forall|d: Seq<Item>| self.holds(d) implies d.push(Item::Flag(flag@))
                    =~= d + cluster_items(letters@) by {}
                self.add_flag(flag);
            },
            None => {
                assert forall|d: Seq<Item>| self.holds(d) implies d =~= d + cluster_items(
                    letters@,
                ) by {}
            },
        }
    }

    /// Tells the patterns from the paths.
    fn into_parts(self) -> (r: (Vec<String>, Vec<String>, Vec<String>))
        ensures
            forall|d: Seq<Item>| #[trigger]
                self.holds(d) ==> {
                    &&& views(r.0@) == patterns_of(d)
                    &&& views(r.1@) == paths_of(d)
                    &&& views(r.2@) == flags_of(d)
                },
    {
        let Gathered { explicit, mut operands, flags } = self;
        if explicit.len() > 0 {
            (explicit, operands, flags)
        } else if operands.len() > 0 {
            let ghost all = operands@;
            let first = operands.remove(0);
            let mut patterns: Vec<String> = Vec::new();
            patterns.push(first);
            assert(views(patterns@) =~= views(all).take(1));
            assert(views(operands@) =~= views(all).skip(1));
            (patterns, operands, flags)
        } else {
            assert(views(explicit@) =~= seq![]);
            (explicit, operands, flags)
        }
    }
}

/// Extracts `(patterns, paths, flags)` from the words of a command line.
///
/// - `patterns`: the values of `-e`, or else the first operand. Empty where there is neither.
/// - `paths`: the other operands.
/// - `flags`: the flags to hand on, with their values, but for the recursive ones.
///
/// A short flag that takes a value consumes the next word, so that it is not taken for the
/// pattern. Clusters like `-rn` lose `r` and `R`. After `--` every word is an operand.
pub fn extract_pattern_path<T: Argument>(args: &[T]) -> (r: (
    Vec<String>,
    Vec<String>,
    Vec<String>,
))
    ensures
        views(r.0@) == patterns_of(items(words(args@))),
        views(r.1@) == paths_of(items(words(args@))),
        views(r.2@) == flags_of(items(words(args@))),
{
    let ghost ws = words(args@);
    let mut got = Gathered { explicit: Vec::new(), operands: Vec::new(), flags: Vec::new() };
    let ghost mut done: Seq<Item> = seq![];
    let mut i: usize = 0;
    proof {
        assert(views(got.flags@) =~= seq![]);
        assert(ws.skip(0) =~= ws);
        assert(done + items(ws) =~= items(ws));
    }
    while i < args.len()
        invariant
            i <= args@.len(),
            ws == words(args@),
            got.holds(done),
            items(ws) == done + items(ws.skip(i as int)),
        decreases args@.len() - i,
    {
        let arg = args[i].as_text();
        let ghost rest = ws.skip(i as int);
        assert(rest[0] == arg@);
        assert(rest.skip(1) =~= ws.skip(i + 1));
        if same(arg, "--") {
            let mut k: usize = i + 1;
            let ghost tail = rest.skip(1);
            assert(done + operand_items(tail.take(0)) =~= done);
            while k < args.len()
                invariant
                    i < k <= args@.len(),
                    ws == words(args@),
                    tail == ws.skip(i + 1),
                    got.holds(done + operand_items(tail.take(k - i - 1))),
                decreases args@.len() - k,
            {
                let word = args[k].as_text();
                got.add_operand(word.to_string());
                assert((done + operand_items(tail.take(k - i - 1))).push(Item::Operand(word@))
                    =~= done + operand_items(tail.take(k - i)));
                k += 1;
            }
            assert(tail.take(k - i - 1) =~= tail);
            assert(got.holds(items(ws)));
            return got.into_parts();
        }
        let chars = to_chars(arg);
        let n: usize = chars.len();
        let ghost start = done;
        if n >= 2 && chars[0] == '-' && chars[1] == '-' {
            match strip_recursive(arg) {
                Some(flag) => {
                    got.add_flag(flag);
                    proof {
                        done = done.push(Item::Flag(flag@));
                    }
                },
                None => {},
            }
            proof {
                assert(done =~= start + word_items(arg@));
            }
            i += 1;
        } else if n >= 2 && chars[0] == '-' {
            let last = chars[n - 1];
            if last == 'e' || takes_value(last) {
                let letters = string_of(chars.as_slice(), 1, n - 1);
                assert(letters@ =~= arg@.skip(1).drop_last());
                got.add_cluster(letters.as_str());
                proof {
                    done = done + cluster_items(letters@);
                }
                let ghost mid = done;
                let mut flag = String::new();
                flag.push('-');
                flag.push(last);
                assert(flag@ =~= seq!['-', last]);
                if i + 1 < args.len() {
                    let value = args[i + 1].as_text();
                    assert(rest[1] == value@);
                    assert(rest.skip(2) =~= ws.skip(i + 2));
                    if last == 'e' {
                        got.add_pattern(value.to_string());
                        proof {
                            done = done.push(Item::Pattern(value@));
                        }
                    } else {
                        got.add_flag(flag);
                        got.add_value(value.to_string());
                        proof {
                            done = done.push(Item::Flag(flag@)).push(Item::Value(value@));
                        }
                    }
                    proof {
                        assert(done =~= mid + valued_items(last, Some(value@)));
                    }
                    i += 2;
                } else {
                    got.add_flag(flag);
                    proof {
                        done = done.push(Item::Flag(flag@));
                        assert(done =~= mid + valued_items(last, None));
                        assert(items(ws.skip(i + 1)) =~= seq![]);
                    }
                    i += 1;
                }
            } else {
                let letters = string_of(chars.as_slice(), 1, n);
                assert(letters@ =~= arg@.skip(1));
                got.add_cluster(letters.as_str());
                proof {
                    done = done + cluster_items(letters@);
                }
                i += 1;
            }
        } else {
            got.add_operand(arg.to_string());
            proof {
                done = done.push(Item::Operand(arg@));
                assert(done =~= start + word_items(arg@));
            }
            i += 1;
        }
        proof {
            assert(items(ws) =~= done + items(ws.skip(i as int)));
        }
    }
    proof {
        assert(items(ws.skip(i as int)) =~= seq![]);
        assert(done =~= items(ws));
    }
    got.into_parts()
}

/// Whether a flag asks for output that is already small, in a form of its own.
pub open spec fn is_format_flag(word: Seq<char>) -> bool {
    ||| word == "-c"@
    ||| word == "--count"@
    ||| word == "-l"@
    ||| word == "--files-with-matches"@
    ||| word == "-L"@
    ||| word == "--files-without-match"@
    ||| word == "-o"@
    ||| word == "--only-matching"@
    ||| word == "-Z"@
    ||| word == "--null"@
}

/// Whether any word is a flag that changes the form of the output.
pub fn has_format_flag<T: Argument>(extra_args: &[T]) -> (r: bool)
    ensures
        r == exists|i: int|
            0 <= i < extra_args@.len() && is_format_flag(#[trigger] words(extra_args@)[i]),
{
    let mut i: usize = 0;
    while i < extra_args.len()
        invariant
            i <= extra_args@.len(),
            forall|j: int| 0 <= j < i ==> !is_format_flag(#[trigger] words(extra_args@)[j]),
        decreases extra_args@.len() - i,
    {
        let arg = extra_args[i].as_text();
        assert(words(extra_args@)[i as int] == arg@);
        if same(arg, "-c") || same(arg, "--count") || same(arg, "-l") || same(
            arg,
            "--files-with-matches",
        ) || same(arg, "-L") || same(arg, "--files-without-match") || same(arg, "-o") || same(
            arg,
            "--only-matching",
        ) || same(arg, "-Z") || same(arg, "--null") {
            return true;
        }
        i += 1;
    }
    false
}

/// Whether a word asks the search tool about itself.
pub open spec fn is_info_flag(word: Seq<char>) -> bool {
    word == "--version"@ || word == "--help"@ || word == "-h"@
}

/// Whether any word asks the search tool about itself.
pub fn has_info_flag<T: Argument>(args: &[T]) -> (r: bool)
    ensures
        r == exists|i: int| 0 <= i < args@.len() && is_info_flag(#[trigger] words(args@)[i]),
{
    let mut i: usize = 0;
    while i < args.len()
        invariant
            i <= args@.len(),
            forall|j: int| 0 <= j < i ==> !is_info_flag(#[trigger] words(args@)[j]),
        decreases args@.len() - i,
    {
        let arg = args[i].as_text();
        assert(words(args@)[i as int] == arg@);
        if same(arg, "--version") || same(arg, "--help") || same(arg, "-h") {
            return true;
        }
        i += 1;
    }
    false
}

/// Stripping keeps no recursive flag, and stripping again changes nothing.
pub proof fn law_strip_r(s: Seq<char>)
    ensures
        forall|i: int| 0 <= i < without_r(s).len() ==> is_kept(#[trigger] without_r(s)[i]),
        without_r(without_r(s)) == without_r(s),
    decreases s.len(),
{
    reveal(Seq::filter);
    if s.len() > 0 {
        let head = s.drop_last();
        law_strip_r(head);
        lemma_without_r_push(head, s.last());
        lemma_without_r_push(without_r(head), s.last());
        assert(head.push(s.last()) =~= s);
    }
}

/// Whether a flag is free of recursion: not `--recursive`, nor a cluster with `r` or `R`.
pub open spec fn is_recursion_free(flag: Seq<char>) -> bool {
    &&& flag != "--recursive"@
    &&& is_long(flag) || forall|i: int| 0 <= i < flag.len() ==> is_kept(#[trigger] flag[i])
}

/// No recursive flag is handed on, in whatever way it was given.
pub proof fn law_no_recursive_flag(words: Seq<Seq<char>>)
    ensures
        forall|i: int|
            0 <= i < items(words).len() ==> (#[trigger] items(words)[i] matches Item::Flag(f)
                ==> is_recursion_free(f)),
    decreases words.len(),
{
    reveal_strlit("--recursive");
    reveal_strlit("ABCgfjm");
    if words.len() > 0 && words[0] != "--"@ {
        let word = words[0];
        law_strip_r(word.skip(1));
        law_strip_r(word.skip(1).drop_last());
        lemma_cluster_flag(word.skip(1));
        lemma_cluster_flag(word.skip(1).drop_last());
        if wants_value(word) {
            if words.len() >= 2 {
                law_no_recursive_flag(words.skip(2));
            }
        } else {
            law_no_recursive_flag(words.skip(1));
        }
    }
}

proof fn lemma_cluster_flag(letters: Seq<char>)
    ensures
        forall|i: int|
            0 <= i < cluster_items(letters).len() ==> (#[trigger] cluster_items(letters)[i] matches Item::Flag(f)
                ==> is_recursion_free(f)),
{
    reveal_strlit("--recursive");
    law_strip_r(letters);
    let flag = seq!['-'] + without_r(letters);
    assert forall|i: int| 0 <= i < flag.len() implies is_kept(#[trigger] flag[i]) by {
        if i > 0 {
            assert(flag[i] == without_r(letters)[i - 1]);
        }
    }
    assert("--recursive"@[2] == 'r');
}

/// Whether `words` ends neither after a `--` nor with a flag that lacks its value.
pub open spec fn is_settled(words: Seq<Seq<char>>) -> bool
    decreases words.len(),
{
    if words.len() == 0 {
        true
    } else if words[0] == "--"@ {
        false
    } else if wants_value(words[0]) {
        words.len() >= 2 && is_settled(words.skip(2))
    } else {
        is_settled(words.skip(1))
    }
}

/// What words mean does not depend on the words after them.
pub proof fn law_items_concat(a: Seq<Seq<char>>, b: Seq<Seq<char>>)
    requires
        is_settled(a),
    ensures
        items(a + b) == items(a) + items(b),
    decreases a.len(),
{
    if a.len() == 0 {
        assert(a + b =~= b);
        assert(items(a) + items(b) =~= items(b));
    } else {
        assert((a + b)[0] == a[0]);
        if wants_value(a[0]) {
            law_items_concat(a.skip(2), b);
            assert((a + b).skip(2) =~= a.skip(2) + b);
            assert((a + b)[1] == a[1]);
        } else {
            law_items_concat(a.skip(1), b);
            assert((a + b).skip(1) =~= a.skip(1) + b);
        }
        assert(items(a + b) =~= items(a) + items(b));
    }
}

/// `--` makes every word after it an operand, even one that looks like a flag.
pub proof fn law_double_dash(a: Seq<Seq<char>>, b: Seq<Seq<char>>)
    requires
        is_settled(a),
    ensures
        items(a + seq!["--"@] + b) == items(a) + operand_items(b),
{
    let tail = seq!["--"@] + b;
    law_items_concat(a, tail);
    assert(a + seq!["--"@] + b =~= a + tail);
    assert(tail.skip(1) =~= b);
}

/// A short flag that takes a value takes the next word, whatever it is, and that word is no
/// pattern and no path.
pub proof fn law_value_is_taken(c: char, value: Seq<char>, rest: Seq<Seq<char>>)
    requires
        is_value_flag(c),
    ensures
        items(seq![seq!['-', c], value] + rest) == seq![
            Item::Flag(seq!['-', c]),
            Item::Value(value),
        ] + items(rest),
{
    reveal_strlit("ABCgfjm");
    reveal_strlit("--");
    reveal(Seq::filter);
    let all = seq![seq!['-', c], value] + rest;
    let letters = seq!['-', c].skip(1).drop_last();
    assert(letters =~= seq![]);
    assert(without_r(letters) =~= seq![]);
    assert(all[0] == seq!['-', c]);
    assert("--"@[1] == '-');
    assert(all.skip(2) =~= rest);
    assert(items(all) =~= seq![Item::Flag(seq!['-', c]), Item::Value(value)] + items(rest));
}

proof fn lemma_collect_concat(a: Seq<Item>, b: Seq<Item>)
    ensures
        flags_of(a + b) == flags_of(a) + flags_of(b),
        explicit_of(a + b) == explicit_of(a) + explicit_of(b),
        operands_of(a + b) == operands_of(a) + operands_of(b),
    decreases b.len(),
{
    if b.len() == 0 {
        assert(a + b =~= a);
    } else {
        lemma_collect_concat(a, b.drop_last());
        assert((a + b).drop_last() =~= a + b.drop_last());
    }
    assert(flags_of(a + b) =~= flags_of(a) + flags_of(b));
    assert(explicit_of(a + b) =~= explicit_of(a) + explicit_of(b));
    assert(operands_of(a + b) =~= operands_of(a) + operands_of(b));
}

/// A pattern may be given as the first operand or with `-e`: where no other pattern is given
/// with `-e`, the search is the same.
pub proof fn law_operand_as_pattern(pattern: Seq<char>, rest: Seq<Seq<char>>)
    requires
        !is_long(pattern),
        !is_cluster(pattern),
        explicit_of(items(rest)).len() == 0,
    ensures
        ({
            let bare = items(seq![pattern] + rest);
            let flagged = items(seq!["-e"@, pattern] + rest);
            &&& patterns_of(bare) == seq![pattern]
            &&& patterns_of(flagged) == patterns_of(bare)
            &&& paths_of(flagged) == paths_of(bare)
            &&& flags_of(flagged) == flags_of(bare)
        }),
{
    reveal_strlit("-e");
    reveal_strlit("--");
    reveal(Seq::filter);
    let e = "-e"@;
    assert(e =~= seq!['-', 'e']);
    assert("--"@ =~= seq!['-', '-']);
    let one = seq![pattern] + rest;
    let two = seq![e, pattern] + rest;
    assert(one.skip(1) =~= rest);
    assert(two.skip(2) =~= rest);
    let letters = e.skip(1).drop_last();
    assert(letters =~= seq![]);
    assert(without_r(letters) =~= seq![]);
    let p = seq![Item::Pattern(pattern)];
    let o = seq![Item::Operand(pattern)];
    assert(one[0] == pattern);
    assert(items(one) =~= o + items(rest));
    assert(two[0] == e && two[1] == pattern);
    assert(wants_value(e));
    assert(items(two) =~= p + items(rest));
    lemma_collect_concat(o, items(rest));
    lemma_collect_concat(p, items(rest));
    let none: Seq<Item> = seq![];
    assert(none.push(Item::Pattern(pattern)) =~= p);
    assert(none.push(Item::Operand(pattern)) =~= o);
    lemma_collect_push(none, Item::Pattern(pattern));
    lemma_collect_push(none, Item::Operand(pattern));
    assert(explicit_of(items(rest)) =~= seq![]);
    assert(patterns_of(items(one)) =~= seq![pattern]);
    assert(patterns_of(items(two)) =~= seq![pattern]);
    assert(paths_of(items(one)) =~= operands_of(items(rest)));
    assert(paths_of(items(two)) =~= operands_of(items(rest)));
    assert(flags_of(items(two)) =~= flags_of(items(rest)));
    assert(flags_of(items(one)) =~= flags_of(items(rest)));
}

/// Every operand is a pattern or a path, in its order; with `-e` all are paths. A pattern is
/// missing only where there is neither `-e` nor an operand.
pub proof fn law_operands_kept(items: Seq<Item>)
    ensures
        explicit_of(items).len() > 0 ==> paths_of(items) == operands_of(items),
        explicit_of(items).len() == 0 ==> patterns_of(items) + paths_of(items) == operands_of(
            items,
        ),
        patterns_of(items).len() == 0 <==> explicit_of(items).len() == 0 && operands_of(
            items,
        ).len() == 0,
{
    if explicit_of(items).len() == 0 {
        assert(patterns_of(items) + paths_of(items) =~= operands_of(items));
    }
}

/// `--recursive` changes nothing.
pub proof fn law_recursive_word_is_void(rest: Seq<Seq<char>>)
    ensures
        items(seq!["--recursive"@] + rest) == items(rest),
{
    reveal_strlit("--recursive");
    reveal_strlit("--");
    let word = "--recursive"@;
    assert(word.len() == 11 && "--"@.len() == 2);
    let all = seq![word] + rest;
    assert(all[0] == word);
    assert(all.skip(1) =~= rest);
    assert(word_items(word) + items(rest) =~= items(rest));
}

proof fn lemma_without_r_part(s: Seq<char>, c: char)
    requires
        !s.contains(c),
    ensures
        !without_r(s).contains(c),
    decreases s.len(),
{
    reveal(Seq::filter);
    if s.len() > 0 {
        let head = s.drop_last();
        assert forall|i: int| 0 <= i < head.len() implies head[i] != c by {
            assert(head[i] == s[i]);
            assert(s.contains(s[i]));
        }
        assert(s.contains(s.last()));
        lemma_without_r_part(head, c);
        lemma_without_r_push(head, s.last());
        assert(head.push(s.last()) =~= s);
    }
}

/// The letters `r` and `R` of a cluster change nothing, unless they stand between a flag that
/// takes a value and the end of the word.
pub proof fn law_recursive_letters_are_void(word: Seq<char>, rest: Seq<Seq<char>>)
    requires
        is_cluster(word),
        !word.skip(1).contains('-'),
        is_kept(word.last()) || !wants_value(seq!['-'] + without_r(word.skip(1))),
    ensures
        items(seq![word] + rest) == if without_r(word.skip(1)).len() == 0 {
            items(rest)
        } else {
            items(seq![seq!['-'] + without_r(word.skip(1))] + rest)
        },
{
    reveal_strlit("--");
    reveal_strlit("ABCgfjm");
    let letters = word.skip(1);
    let kept = without_r(letters);
    let short = seq!['-'] + kept;
    let head = letters.drop_last();
    let last = letters.last();
    assert(head.push(last) =~= letters);
    lemma_without_r_push(head, last);
    lemma_without_r_part(letters, '-');
    law_strip_r(letters);
    law_strip_r(head);
    assert("--"@[1] == '-' && "--"@.len() == 2);
    let one = seq![word] + rest;
    assert(one[0] == word && word.last() == last);
    assert(one.skip(1) =~= rest);
    if kept.len() == 0 {
        assert(!is_kept(last));
        assert(!wants_value(word));
        assert(word_items(word) + items(rest) =~= items(rest));
    } else {
        let two = seq![short] + rest;
        assert(two[0] == short);
        assert(two.skip(1) =~= rest);
        assert(kept.contains(kept[0]));
        assert(short[1] == kept[0]);
        assert(is_cluster(short));
        assert(short.skip(1) =~= kept);
        assert(cluster_items(letters) == cluster_items(kept));
        if is_kept(last) {
            assert(kept == without_r(head).push(last));
            assert(short.last() == word.last());
            assert(kept.drop_last() =~= without_r(head));
            assert(cluster_items(head) == cluster_items(without_r(head)));
            if rest.len() > 0 {
                assert(one[1] == rest[0] && two[1] == rest[0]);
                assert(one.skip(2) =~= rest.skip(1) && two.skip(2) =~= rest.skip(1));
            }
        } else {
            assert(!wants_value(word));
        }
    }
}

proof fn lemma_without_r_count(s: Seq<char>, c: char)
    requires
        c != 'r' && c != 'R',
    ensures
        without_r(s).to_multiset().count(c) == s.to_multiset().count(c),
    decreases s.len(),
{
    broadcast use vstd::seq_lib::group_to_multiset_ensures;

    reveal(Seq::filter);
    if s.len() > 0 {
        let head = s.drop_last();
        lemma_without_r_count(head, c);
        lemma_without_r_push(head, s.last());
        assert(head.push(s.last()) =~= s);
    }
}

/// Stripping takes out `r` and `R` and nothing else: the other letters stay, each as often as it
/// stood there, in their order, whatever stands before or after them.
pub proof fn law_strip_r_letterwise(a: Seq<char>, b: Seq<char>, c: char)
    ensures
        without_r(a + b) == without_r(a) + without_r(b),
        without_r(seq![c]) == if c == 'r' || c == 'R' {
            seq![]
        } else {
            seq![c]
        },
        c != 'r' && c != 'R' ==> without_r(a).to_multiset().count(c) == a.to_multiset().count(c),
        !a.contains('r') && !a.contains('R') ==> without_r(a) == a,
    decreases b.len(),
{
    reveal(Seq::filter);
    let none: Seq<char> = seq![];
    assert(without_r(none) =~= none);
    lemma_without_r_push(none, c);
    assert(none.push(c) =~= seq![c]);
    assert(none + seq![c] =~= seq![c]);
    if c != 'r' && c != 'R' {
        lemma_without_r_count(a, c);
    }
    if !a.contains('r') && !a.contains('R') {
        lemma_without_r_same(a);
    }
    if b.len() == 0 {
        assert(a + b =~= a);
        assert(b =~= none);
        assert(without_r(a) + without_r(b) =~= without_r(a));
    } else {
        let head = b.drop_last();
        law_strip_r_letterwise(a, head, c);
        lemma_without_r_push(head, b.last());
        lemma_without_r_push(a + head, b.last());
        assert(head.push(b.last()) =~= b);
        assert((a + head).push(b.last()) =~= a + b);
        assert(without_r(a + b) =~= without_r(a) + without_r(b));
    }
}

proof fn lemma_without_r_same(s: Seq<char>)
    requires
        !s.contains('r'),
        !s.contains('R'),
    ensures
        without_r(s) == s,
    decreases s.len(),
{
    reveal(Seq::filter);
    if s.len() > 0 {
        let head = s.drop_last();
        assert(s.contains(s.last()));
        assert forall|i: int| 0 <= i < head.len() implies head[i] != 'r' && head[i] != 'R' by {
            assert(s.contains(s[i]));
        }
        lemma_without_r_same(head);
        lemma_without_r_push(head, s.last());
        assert(head.push(s.last()) =~= s);
    } else {
        assert(without_r(s) =~= s);
    }
}

/// The short flags that take the next word are these seven, besides `-e`.
pub proof fn law_value_flags(c: char)
    ensures
        is_value_flag(c) <==> (c == 'A' || c == 'B' || c == 'C' || c == 'f' || c == 'g' || c == 'j'
            || c == 'm'),
{
    reveal_strlit("ABCgfjm");
    let s = "ABCgfjm"@;
    assert(s[0] == 'A' && s[1] == 'B' && s[2] == 'C' && s[3] == 'g' && s[4] == 'f' && s[5] == 'j'
        && s[6] == 'm');
}

proof fn lemma_not_double_dash(word: Seq<char>)
    ensures
        word == "--"@ <==> word.len() == 2 && word[0] == '-' && word[1] == '-',
        "--recursive"@.len() == 11,
        "--recursive"@[0] == '-',
        "--recursive"@[1] == '-',
{
    reveal_strlit("--");
    reveal_strlit("--recursive");
    assert("--"@ =~= seq!['-', '-']);
    if word.len() == 2 && word[0] == '-' && word[1] == '-' {
        assert(word =~= "--"@);
    }
}

/// No words mean nothing.
pub proof fn law_no_words()
    ensures
        items(Seq::<Seq<char>>::empty()) == Seq::<Item>::empty(),
{
}

/// A word that does not begin with a dash, or is a dash alone, is an operand, as it is.
pub proof fn law_operand_word(word: Seq<char>, rest: Seq<Seq<char>>)
    requires
        word.len() < 2 || word[0] != '-',
    ensures
        items(seq![word] + rest) == seq![Item::Operand(word)] + items(rest),
{
    lemma_not_double_dash(word);
    let all = seq![word] + rest;
    assert(all[0] == word);
    assert(all.skip(1) =~= rest);
}

/// A long flag is handed on as it is.
pub proof fn law_long_flag_handed_on(name: Seq<char>, rest: Seq<Seq<char>>)
    requires
        name.len() > 0,
        seq!['-', '-'] + name != "--recursive"@,
    ensures
        items(seq![seq!['-', '-'] + name] + rest) == seq![Item::Flag(seq!['-', '-'] + name)]
            + items(rest),
{
    let word = seq!['-', '-'] + name;
    lemma_not_double_dash(word);
    let all = seq![word] + rest;
    assert(all[0] == word);
    assert(word[0] == '-' && word[1] == '-');
    assert(all.skip(1) =~= rest);
}

/// The flag made of the letters of a cluster holds every letter but `r` and `R`, as often as it
/// was given and in its order; a cluster without `r` and `R` is handed on as it is.
pub open spec fn carries(flag: Seq<char>, letters: Seq<char>) -> bool {
    &&& flag.len() > 1
    &&& flag[0] == '-'
    &&& flag.skip(1) == letters.filter(|c: char| c != 'r' && c != 'R')
    &&& forall|c: char|
        c != 'r' && c != 'R' ==> #[trigger] flag.skip(1).to_multiset().count(c)
            == letters.to_multiset().count(c)
    &&& !letters.contains('r') && !letters.contains('R') ==> flag == seq!['-'] + letters
}

/// Whether `found` is what is handed on of the letters of a cluster: one flag that carries them,
/// or nothing where every letter is `r` or `R`.
pub open spec fn is_cluster_of(found: Seq<Item>, letters: Seq<char>) -> bool {
    if forall|i: int| 0 <= i < letters.len() ==> letters[i] == 'r' || letters[i] == 'R' {
        found.len() == 0
    } else {
        &&& found.len() == 1
        &&& found[0] matches Item::Flag(flag) && carries(flag, letters)
    }
}

proof fn lemma_filter_agrees(s: Seq<char>)
    ensures
        without_r(s) == s.filter(|c: char| c != 'r' && c != 'R'),
    decreases s.len(),
{
    reveal(Seq::filter);
    if s.len() > 0 {
        lemma_filter_agrees(s.drop_last());
    }
}

proof fn lemma_cluster_items(letters: Seq<char>)
    ensures
        is_cluster_of(cluster_items(letters), letters),
{
    let kept = without_r(letters);
    let flag = seq!['-'] + kept;
    assert(flag.skip(1) =~= kept);
    lemma_filter_agrees(letters);
    assert forall|c: char| c != 'r' && c != 'R' implies #[trigger] flag.skip(
        1,
    ).to_multiset().count(c) == letters.to_multiset().count(c) by {
        lemma_without_r_count(letters, c);
    }
    if !letters.contains('r') && !letters.contains('R') {
        lemma_without_r_same(letters);
    }
    lemma_without_r_empty(letters);
}

proof fn lemma_without_r_empty(s: Seq<char>)
    ensures
        without_r(s).len() == 0 <==> forall|i: int|
            0 <= i < s.len() ==> s[i] == 'r' || s[i] == 'R',
    decreases s.len(),
{
    reveal(Seq::filter);
    if s.len() > 0 {
        let head = s.drop_last();
        lemma_without_r_empty(head);
        lemma_without_r_push(head, s.last());
        assert(head.push(s.last()) =~= s);
        assert(s[s.len() - 1] == s.last());
        if without_r(s).len() == 0 {
            assert forall|i: int| 0 <= i < s.len() implies s[i] == 'r' || s[i] == 'R' by {
                if i < s.len() - 1 {
                    assert(head[i] == s[i]);
                }
            }
        }
        if forall|i: int| 0 <= i < s.len() ==> s[i] == 'r' || s[i] == 'R' {
            assert forall|i: int| 0 <= i < head.len() implies head[i] == 'r' || head[i] == 'R' by {
                assert(head[i] == s[i]);
            }
        }
    }
}

/// A cluster whose last flag takes no value is handed on with every letter but `r` and `R`, and
/// changes nothing for the words after it.
pub proof fn law_cluster_handed_on(letters: Seq<char>, rest: Seq<Seq<char>>)
    requires
        letters.len() > 0,
        letters[0] != '-',
        letters.last() != 'e',
        !is_value_flag(letters.last()),
    ensures
        exists|found: Seq<Item>| #[trigger]
            is_cluster_of(found, letters) && items(seq![seq!['-'] + letters] + rest) == found
                + items(rest),
{
    let word = seq!['-'] + letters;
    lemma_not_double_dash(word);
    let all = seq![word] + rest;
    assert(all[0] == word);
    assert(word[0] == '-' && word[1] == letters[0] && word.last() == letters.last());
    assert(word.skip(1) =~= letters);
    assert(all.skip(1) =~= rest);
    lemma_cluster_items(letters);
    assert(is_cluster_of(cluster_items(letters), letters));
}

/// A cluster that ends in a flag with a value: the letters before it are handed on as in any
/// cluster, the last flag by itself, and the next word as its value; after `e` the next word is
/// a pattern, and the flag is not handed on.
pub proof fn law_cluster_with_value(
    letters: Seq<char>,
    last: char,
    value: Seq<char>,
    rest: Seq<Seq<char>>,
)
    requires
        letters.push(last)[0] != '-',
        last == 'e' || is_value_flag(last),
    ensures
        exists|found: Seq<Item>| #[trigger]
            is_cluster_of(found, letters) && items(
                seq![seq!['-'] + letters.push(last), value] + rest,
            ) == found + if last == 'e' {
                seq![Item::Pattern(value)]
            } else {
                seq![Item::Flag(seq!['-', last]), Item::Value(value)]
            } + items(rest),
{
    let word = seq!['-'] + letters.push(last);
    lemma_not_double_dash(word);
    let all = seq![word, value] + rest;
    assert(all[0] == word && all[1] == value);
    assert(word[0] == '-' && word[1] == letters.push(last)[0] && word.last() == last);
    assert(word.skip(1).drop_last() =~= letters);
    assert(all.skip(2) =~= rest);
    lemma_cluster_items(letters);
    assert(is_cluster_of(cluster_items(letters), letters));
}

/// A flag that takes a value, as the last word, is handed on alone, `-e` too.
pub proof fn law_cluster_without_value(letters: Seq<char>, last: char)
    requires
        letters.push(last)[0] != '-',
        last == 'e' || is_value_flag(last),
    ensures
        exists|found: Seq<Item>| #[trigger]
            is_cluster_of(found, letters) && items(seq![seq!['-'] + letters.push(last)]) == found
                + seq![Item::Flag(seq!['-', last])],
{
    let word = seq!['-'] + letters.push(last);
    lemma_not_double_dash(word);
    let all = seq![word];
    assert(word[0] == '-' && word[1] == letters.push(last)[0] && word.last() == last);
    assert(word.skip(1).drop_last() =~= letters);
    lemma_cluster_items(letters);
    assert(is_cluster_of(cluster_items(letters), letters));
}

/// Flags and their values, explicit patterns and operands are collected each by themselves, in
/// their order, and none is lost.
pub proof fn law_collected(a: Seq<Item>, b: Seq<Item>, s: Seq<char>)
    ensures
        flags_of(a + b) == flags_of(a) + flags_of(b),
        explicit_of(a + b) == explicit_of(a) + explicit_of(b),
        operands_of(a + b) == operands_of(a) + operands_of(b),
        flags_of(seq![Item::Flag(s)]) == seq![s],
        flags_of(seq![Item::Value(s)]) == seq![s],
        explicit_of(seq![Item::Pattern(s)]) == seq![s],
        operands_of(seq![Item::Operand(s)]) == seq![s],
        flags_of(a).len() + explicit_of(a).len() + operands_of(a).len() == a.len(),
    decreases a.len(),
{
    let none: Seq<Item> = seq![];
    lemma_collect_concat(a, b);
    lemma_collect_push(none, Item::Flag(s));
    lemma_collect_push(none, Item::Value(s));
    lemma_collect_push(none, Item::Pattern(s));
    lemma_collect_push(none, Item::Operand(s));
    assert(none.push(Item::Flag(s)) =~= seq![Item::Flag(s)]);
    assert(none.push(Item::Value(s)) =~= seq![Item::Value(s)]);
    assert(none.push(Item::Pattern(s)) =~= seq![Item::Pattern(s)]);
    assert(none.push(Item::Operand(s)) =~= seq![Item::Operand(s)]);
    assert(flags_of(seq![Item::Flag(s)]) =~= seq![s]);
    assert(flags_of(seq![Item::Value(s)]) =~= seq![s]);
    assert(explicit_of(seq![Item::Pattern(s)]) =~= seq![s]);
    assert(operands_of(seq![Item::Operand(s)]) =~= seq![s]);
    if a.len() > 0 {
        law_collected(a.drop_last(), b, s);
    }
}

/// The patterns are those given with `-e`; without any, the first operand is the pattern, and
/// the operands after it are the paths.
pub proof fn law_patterns_and_paths(items: Seq<Item>)
    ensures
        explicit_of(items).len() > 0 ==> patterns_of(items) == explicit_of(items) && paths_of(items)
            == operands_of(items),
        explicit_of(items).len() == 0 && operands_of(items).len() > 0 ==> patterns_of(items)
            == seq![operands_of(items)[0]] && paths_of(items).len() + 1 == operands_of(items).len()
            && forall|i: int|
            0 <= i < paths_of(items).len() ==> #[trigger] paths_of(items)[i] == operands_of(
                items,
            )[i + 1],
        explicit_of(items).len() == 0 && operands_of(items).len() == 0 ==> patterns_of(items).len()
            == 0 && paths_of(items).len() == 0,
{
    if explicit_of(items).len() == 0 && operands_of(items).len() > 0 {
        assert(patterns_of(items) =~= seq![operands_of(items)[0]]);
    }
}

/// The flags that keep the output as it is are `-c`, `-l`, `-L`, `-o`, `-Z` and their long forms.
pub proof fn law_format_flags(word: Seq<char>)
    ensures
        is_format_flag(word) <==> {
            ||| word.len() == 2 && word[0] == '-' && (word[1] == 'c' || word[1] == 'l' || word[1]
                == 'L' || word[1] == 'o' || word[1] == 'Z')
            ||| word == seq!['-', '-'] + "count"@
            ||| word == seq!['-', '-'] + "files-with-matches"@
            ||| word == seq!['-', '-'] + "files-without-match"@
            ||| word == seq!['-', '-'] + "only-matching"@
            ||| word == seq!['-', '-'] + "null"@
        },
{
    reveal_strlit("-c");
    reveal_strlit("-l");
    reveal_strlit("-L");
    reveal_strlit("-o");
    reveal_strlit("-Z");
    reveal_strlit("--count");
    reveal_strlit("count");
    reveal_strlit("--files-with-matches");
    reveal_strlit("files-with-matches");
    reveal_strlit("--files-without-match");
    reveal_strlit("files-without-match");
    reveal_strlit("--only-matching");
    reveal_strlit("only-matching");
    reveal_strlit("--null");
    reveal_strlit("null");
    assert(seq!['-', '-'] + "count"@ =~= "--count"@);
    assert(seq!['-', '-'] + "files-with-matches"@ =~= "--files-with-matches"@);
    assert(seq!['-', '-'] + "files-without-match"@ =~= "--files-without-match"@);
    assert(seq!['-', '-'] + "only-matching"@ =~= "--only-matching"@);
    assert(seq!['-', '-'] + "null"@ =~= "--null"@);
    if word.len() == 2 && word[0] == '-' {
        assert(word =~= seq!['-', word[1]]);
        assert("-c"@ =~= seq!['-', 'c']);
        assert("-l"@ =~= seq!['-', 'l']);
        assert("-L"@ =~= seq!['-', 'L']);
        assert("-o"@ =~= seq!['-', 'o']);
        assert("-Z"@ =~= seq!['-', 'Z']);
    }
}

/// The words that ask the search tool about itself are `-h`, `--help` and `--version`.
pub proof fn law_info_flags(word: Seq<char>)
    ensures
        is_info_flag(word) <==> {
            ||| word == seq!['-', 'h']
            ||| word == seq!['-', '-'] + "help"@
            ||| word == seq!['-', '-'] + "version"@
        },
{
    reveal_strlit("-h");
    reveal_strlit("--help");
    reveal_strlit("help");
    reveal_strlit("--version");
    reveal_strlit("version");
    assert("-h"@ =~= seq!['-', 'h']);
    assert(seq!['-', '-'] + "help"@ =~= "--help"@);
    assert(seq!['-', '-'] + "version"@ =~= "--version"@);
}

/// The flag made of a cluster word whose last letter takes no value, and which holds a letter
/// other than `r` and `R`: a dash, then all letters of the word but those two, each as often as
/// it stands there and in their order. A word without `r` and `R` is that flag itself.
pub proof fn law_cluster_word(word: Seq<char>) -> (flag: Seq<char>)
    requires
        word.len() >= 2,
        word[0] == '-',
        word[1] != '-',
        word.last() != 'e',
        !is_value_flag(word.last()),
        exists|i: int| 1 <= i < word.len() && #[trigger] word[i] != 'r' && word[i] != 'R',
    ensures
        items(seq![word]) == seq![Item::Flag(flag)],
        flags_of(items(seq![word])) == seq![flag],
        flag.len() > 1,
        flag[0] == '-',
        forall|c: char|
            c != 'r' && c != 'R' ==> #[trigger] flag.skip(1).to_multiset().count(c) == word.skip(
                1,
            ).to_multiset().count(c),
        forall|i: int| 1 <= i < flag.len() ==> #[trigger] flag[i] != 'r' && flag[i] != 'R',
        flag.skip(1) == word.skip(1).filter(|c: char| c != 'r' && c != 'R'),
        !word.contains('r') && !word.contains('R') ==> flag == word,
{
    let letters = word.skip(1);
    let k = choose|i: int| 1 <= i < word.len() && #[trigger] word[i] != 'r' && word[i] != 'R';
    assert(letters[k - 1] == word[k]);
    assert(word =~= seq!['-'] + letters);
    assert(letters.last() == word.last());
    law_cluster_handed_on(letters, seq![]);
    law_no_words();
    let found = choose|found: Seq<Item>| #[trigger]
        is_cluster_of(found, letters) && items(seq![word] + seq![]) == found + items(seq![]);
    assert(seq![word] + Seq::<Seq<char>>::empty() =~= seq![word]);
    assert(found + items(seq![]) =~= found);
    let flag = found[0]->Flag_0;
    assert(carries(flag, letters));
    assert(found =~= seq![Item::Flag(flag)]);
    law_collected(seq![], seq![], flag);
    lemma_filter_agrees(letters);
    law_strip_r(letters);
    assert forall|i: int| 1 <= i < flag.len() implies #[trigger] flag[i] != 'r' && flag[i]
        != 'R' by {
        assert(flag[i] == flag.skip(1)[i - 1]);
    }
    if !word.contains('r') && !word.contains('R') {
        assert(!letters.contains('r') && !letters.contains('R')) by {
            assert forall|i: int| 0 <= i < letters.len() implies letters[i] != 'r' && letters[i]
                != 'R' by {
                assert(word.contains(word[i + 1]));
            }
        }
    }
    flag
}

/// The words after `--` are operands, as they are and in their order, whatever they look like.
pub proof fn law_after_double_dash(b: Seq<Seq<char>>)
    ensures
        operands_of(items(seq![seq!['-', '-']] + b)) == b,
        flags_of(items(seq![seq!['-', '-']] + b)).len() == 0,
        explicit_of(items(seq![seq!['-', '-']] + b)).len() == 0,
{
    let dashes = seq!['-', '-'];
    let all = seq![dashes] + b;
    lemma_not_double_dash(dashes);
    assert(all[0] == dashes);
    assert(all.skip(1) =~= b);
    lemma_operand_items(b);
}

proof fn lemma_operand_items(words: Seq<Seq<char>>)
    ensures
        operands_of(operand_items(words)) == words,
        flags_of(operand_items(words)).len() == 0,
        explicit_of(operand_items(words)).len() == 0,
    decreases words.len(),
{
    if words.len() > 0 {
        let head = words.drop_last();
        lemma_operand_items(head);
        assert(operand_items(words).drop_last() =~= operand_items(head));
        assert(operands_of(operand_items(words)) =~= words);
    } else {
        assert(operands_of(operand_items(words)) =~= words);
    }
}

} // verus!
