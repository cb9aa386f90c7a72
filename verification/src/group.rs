//! Matches grouped by file.
use crate::clean::{can_clean, cleaned, context_view, try_clean_line};
use crate::context::ContextRegex;
use crate::match_line::{law_one_reading, parse_match_line, parsed, reads};
use crate::number::value;
use crate::order::{before, is_before, law_order};
use crate::text::{lines, same, split_lines, views};
use vstd::prelude::*;

verus! {

/// A match as it is shown: the file, the line number and the cleaned line.
pub struct Row {
    pub file: Seq<char>,
    pub number: usize,
    pub text: Seq<char>,
}

/// The matches of one file: line numbers and cleaned lines.
pub struct Section {
    pub file: Seq<char>,
    pub matches: Seq<(usize, Seq<char>)>,
}

/// The matches of one file, in the order in which they were found.
pub struct Group {
    pub file: String,
    pub matches: Vec<(usize, String)>,
}

impl View for Group {
    type V = Section;

    open spec fn view(&self) -> Section {
        Section {
            file: self.file@,
            matches: self.matches@.map_values(|m: (usize, String)| (m.0, m.1@)),
        }
    }
}

/// The views of a sequence of groups.
pub open spec fn sections(groups: Seq<Group>) -> Seq<Section> {
    groups.map_values(|g: Group| g@)
}

/// How lines are cleaned.
pub struct Cleaning {
    pub max_len: int,
    pub context: Option<Seq<char>>,
    pub pattern: Seq<char>,
}

/// The matches among `lines`, cleaned; lines that are no matches are left out.
pub open spec fn rows(lines: Seq<Seq<char>>, how: Cleaning) -> Seq<Row>
    decreases lines.len(),
{
    if lines.len() == 0 {
        seq![]
    } else {
        let earlier = rows(lines.drop_last(), how);
        match parsed(lines.last()) {
            Some(m) => earlier.push(
                Row {
                    file: m.file,
                    number: m.number,
                    text: cleaned(m.content, how.max_len, how.context, how.pattern),
                },
            ),
            None => earlier,
        }
    }
}

/// Whether every match among `lines` can be cleaned.
pub open spec fn all_cleanable(lines: Seq<Seq<char>>, how: Cleaning) -> bool {
    forall|i: int|
        0 <= i < lines.len() ==> (parsed(#[trigger] lines[i]) matches Some(m) ==> can_clean(
            m.content,
            how.max_len,
            how.context,
            how.pattern,
        ))
}

/// The matches of `file` among `rows`, in their order.
pub open spec fn entries_of(rows: Seq<Row>, file: Seq<char>) -> Seq<(usize, Seq<char>)>
    decreases rows.len(),
{
    if rows.len() == 0 {
        seq![]
    } else {
        let earlier = entries_of(rows.drop_last(), file);
        if rows.last().file == file {
            earlier.push((rows.last().number, rows.last().text))
        } else {
            earlier
        }
    }
}

/// Whether each section comes before those after it.
pub open spec fn is_sorted(sections: Seq<Section>) -> bool {
    forall|i: int, j: int|
        0 <= i < j < sections.len() ==> before(
            #[trigger] sections[i].file,
            #[trigger] sections[j].file,
        )
}

/// Whether a section is there for `file`.
pub open spec fn has_file(sections: Seq<Section>, file: Seq<char>) -> bool {
    exists|i: int| 0 <= i < sections.len() && #[trigger] sections[i].file == file
}

/// Whether `sections` are `rows` by file: sorted by file, one section for each file that has
/// a match, which holds all its matches in their order.
pub open spec fn is_grouping(sections: Seq<Section>, rows: Seq<Row>) -> bool {
    &&& is_sorted(sections)
    &&& forall|i: int|
        0 <= i < sections.len() ==> (#[trigger] sections[i]).matches.len() > 0
            && sections[i].matches == entries_of(rows, sections[i].file)
    &&& forall|k: int| 0 <= k < rows.len() ==> has_file(sections, (#[trigger] rows[k]).file)
}

/// `rows` by file.
pub open spec fn by_file(rows: Seq<Row>) -> Seq<Section> {
    choose|s: Seq<Section>| is_grouping(s, rows)
}

proof fn lemma_entries_push(rows: Seq<Row>, row: Row, file: Seq<char>)
    ensures
        entries_of(rows.push(row), file) == if row.file == file {
            entries_of(rows, file).push((row.number, row.text))
        } else {
            entries_of(rows, file)
        },
{
    assert(rows.push(row).drop_last() =~= rows);
}

/// A file that has entries has a row.
proof fn lemma_entries_have_row(rows: Seq<Row>, file: Seq<char>) -> (k: int)
    requires
        entries_of(rows, file).len() > 0,
    ensures
        0 <= k < rows.len(),
        rows[k].file == file,
    decreases rows.len(),
{
    if rows.last().file == file {
        rows.len() - 1
    } else {
        lemma_entries_have_row(rows.drop_last(), file)
    }
}

/// A file without a row has no entries.
proof fn lemma_no_row_no_entries(rows: Seq<Row>, file: Seq<char>)
    requires
        forall|k: int| 0 <= k < rows.len() ==> (#[trigger] rows[k]).file != file,
    ensures
        entries_of(rows, file) == Seq::<(usize, Seq<char>)>::empty(),
    decreases rows.len(),
{
    if rows.len() > 0 {
        assert(rows.last().file == rows[rows.len() - 1].file);
        assert forall|k: int| 0 <= k < rows.drop_last().len() implies (
        #[trigger] rows.drop_last()[k]).file != file by {
            assert(rows.drop_last()[k] == rows[k]);
        }
        lemma_no_row_no_entries(rows.drop_last(), file);
    }
}

/// Adding a match to the section of its file keeps the grouping.
proof fn lemma_extend_section(sections: Seq<Section>, rows: Seq<Row>, row: Row, at: int)
    requires
        is_grouping(sections, rows),
        0 <= at < sections.len(),
        sections[at].file == row.file,
    ensures
        is_grouping(
            sections.update(
                at,
                Section {
                    file: row.file,
                    matches: sections[at].matches.push((row.number, row.text)),
                },
            ),
            rows.push(row),
        ),
{
    let new = sections.update(
        at,
        Section { file: row.file, matches: sections[at].matches.push((row.number, row.text)) },
    );
    assert forall|i: int| 0 <= i < new.len() implies (#[trigger] new[i]).matches.len() > 0
        && new[i].matches == entries_of(rows.push(row), new[i].file) by {
        lemma_entries_push(rows, row, new[i].file);
        if i != at {
            law_order(sections[i].file, row.file, row.file);
            assert(new[i] == sections[i]);
            if i < at {
                assert(before(sections[i].file, sections[at].file));
            } else {
                assert(before(sections[at].file, sections[i].file));
            }
        }
    }
    assert forall|i: int, j: int| 0 <= i < j < new.len() implies before(
        #[trigger] new[i].file,
        #[trigger] new[j].file,
    ) by {
        assert(new[i].file == sections[i].file && new[j].file == sections[j].file);
    }
    assert forall|k: int| 0 <= k < rows.push(row).len() implies has_file(
        new,
        (#[trigger] rows.push(row)[k]).file,
    ) by {
        if k == rows.len() {
            assert(new[at].file == row.file);
        } else {
            assert(rows.push(row)[k] == rows[k]);
            let i = choose|i: int|
                0 <= i < sections.len() && #[trigger] sections[i].file == rows[k].file;
            assert(new[i].file == rows[k].file);
        }
    }
}

/// A section for a new file at its place keeps the grouping.
proof fn lemma_insert_section(sections: Seq<Section>, rows: Seq<Row>, row: Row, at: int)
    requires
        is_grouping(sections, rows),
        0 <= at <= sections.len(),
        forall|j: int| 0 <= j < at ==> before((#[trigger] sections[j]).file, row.file),
        forall|j: int| at <= j < sections.len() ==> before(row.file, (#[trigger] sections[j]).file),
    ensures
        is_grouping(
            sections.insert(
                at,
                Section { file: row.file, matches: seq![(row.number, row.text)] },
            ),
            rows.push(row),
        ),
{
    let fresh = Section { file: row.file, matches: seq![(row.number, row.text)] };
    let new = sections.insert(at, fresh);
    assert forall|k: int| 0 <= k < rows.len() implies (#[trigger] rows[k]).file != row.file by {
        assert(has_file(sections, rows[k].file));
        let i = choose|i: int|
            0 <= i < sections.len() && #[trigger] sections[i].file == rows[k].file;
        law_order(row.file, row.file, row.file);
        if i < at {
            assert(before(sections[i].file, row.file));
        } else {
            assert(before(row.file, sections[i].file));
        }
    }
    lemma_no_row_no_entries(rows, row.file);
    assert forall|i: int| 0 <= i < new.len() implies (#[trigger] new[i]).matches.len() > 0
        && new[i].matches == entries_of(rows.push(row), new[i].file) by {
        lemma_entries_push(rows, row, new[i].file);
        law_order(row.file, row.file, row.file);
        if i < at {
            assert(new[i] == sections[i]);
        } else if i == at {
            assert(new[i] == fresh);
            assert(new[i].matches =~= entries_of(rows.push(row), row.file));
        } else {
            assert(new[i] == sections[i - 1]);
        }
    }
    assert forall|i: int, j: int| 0 <= i < j < new.len() implies before(
        #[trigger] new[i].file,
        #[trigger] new[j].file,
    ) by {
        let x = if i < at {
            sections[i]
        } else if i == at {
            fresh
        } else {
            sections[i - 1]
        };
        let y = if j < at {
            sections[j]
        } else if j == at {
            fresh
        } else {
            sections[j - 1]
        };
        assert(new[i] == x && new[j] == y);
    }
    assert forall|k: int| 0 <= k < rows.push(row).len() implies has_file(
        new,
        (#[trigger] rows.push(row)[k]).file,
    ) by {
        if k == rows.len() {
            assert(new[at].file == row.file);
        } else {
            assert(rows.push(row)[k] == rows[k]);
            let i = choose|i: int|
                0 <= i < sections.len() && #[trigger] sections[i].file == rows[k].file;
            if i < at {
                assert(new[i].file == rows[k].file);
            } else {
                assert(new[i + 1].file == rows[k].file);
            }
        }
    }
}

/// Sorted sections for the same files, with the same matches, are the same.
proof fn lemma_sorted_unique(a: Seq<Section>, b: Seq<Section>)
    requires
        is_sorted(a),
        is_sorted(b),
        forall|i: int| 0 <= i < a.len() ==> b.contains(#[trigger] a[i]),
        forall|i: int| 0 <= i < b.len() ==> a.contains(#[trigger] b[i]),
    ensures
        a == b,
    decreases a.len(),
{
    if a.len() == 0 {
        if b.len() > 0 {
            assert(a.contains(b[0]));
        }
        assert(a =~= b);
    } else {
        let x = a.last();
        assert(a[a.len() - 1] == x);
        assert(b.contains(x));
        let y = b.last();
        assert(b[b.len() - 1] == y);
        assert(a.contains(y));
        let i = choose|i: int| 0 <= i < b.len() && b[i] == x;
        let j = choose|j: int| 0 <= j < a.len() && a[j] == y;
        law_order(x.file, y.file, x.file);
        if i < b.len() - 1 {
            assert(before(b[i].file, b[b.len() - 1].file));
            if j < a.len() - 1 {
                assert(before(a[j].file, a[a.len() - 1].file));
            }
        }
        assert(x == y);
        let a1 = a.drop_last();
        let b1 = b.drop_last();
        assert forall|k: int| 0 <= k < a1.len() implies b1.contains(#[trigger] a1[k]) by {
            assert(a1[k] == a[k]);
            let m = choose|m: int| 0 <= m < b.len() && b[m] == a[k];
            law_order(x.file, x.file, x.file);
            assert(before(a[k].file, a[a.len() - 1].file));
            assert(m < b.len() - 1);
            assert(b1[m] == a[k]);
        }
        assert forall|k: int| 0 <= k < b1.len() implies a1.contains(#[trigger] b1[k]) by {
            assert(b1[k] == b[k]);
            let m = choose|m: int| 0 <= m < a.len() && a[m] == b[k];
            law_order(x.file, x.file, x.file);
            assert(before(b[k].file, b[b.len() - 1].file));
            assert(m < a.len() - 1);
            assert(a1[m] == b[k]);
        }
        lemma_sorted_unique(a1, b1);
        assert(a =~= a1.push(x));
        assert(b =~= b1.push(x));
    }
}

proof fn lemma_sections_shared(a: Seq<Section>, b: Seq<Section>, rows: Seq<Row>)
    requires
        is_grouping(a, rows),
        is_grouping(b, rows),
    ensures
        forall|i: int| 0 <= i < a.len() ==> b.contains(#[trigger] a[i]),
{
    assert forall|i: int| 0 <= i < a.len() implies b.contains(#[trigger] a[i]) by {
        let k = lemma_entries_have_row(rows, a[i].file);
        assert(has_file(b, rows[k].file));
        let j = choose|j: int| 0 <= j < b.len() && #[trigger] b[j].file == a[i].file;
        assert(b[j] == a[i]);
    }
}

/// There is one way to group matches by file.
pub proof fn law_one_grouping(sections: Seq<Section>, rows: Seq<Row>)
    requires
        is_grouping(sections, rows),
    ensures
        by_file(rows) == sections,
{
    let other = by_file(rows);
    assert(is_grouping(other, rows));
    lemma_sections_shared(sections, other, rows);
    lemma_sections_shared(other, sections, rows);
    lemma_sorted_unique(sections, other);
}

/// Any matches can be grouped by file.
pub proof fn law_grouping_exists(rows: Seq<Row>)
    ensures
        is_grouping(by_file(rows), rows),
    decreases rows.len(),
{
    if rows.len() == 0 {
        assert(is_grouping(seq![], rows));
    } else {
        let earlier = rows.drop_last();
        let row = rows.last();
        let sections = by_file(earlier);
        law_grouping_exists(earlier);
        assert(earlier.push(row) =~= rows);
        let at = lemma_place(sections, row.file, sections.len() as int);
        if at < sections.len() && sections[at].file == row.file {
            lemma_extend_section(sections, earlier, row, at);
        } else {
            lemma_insert_section(sections, earlier, row, at);
        }
    }
}

/// The place of `file` among the first `n` sections.
proof fn lemma_place(sections: Seq<Section>, file: Seq<char>, n: int) -> (at: int)
    requires
        is_sorted(sections),
        0 <= n <= sections.len(),
    ensures
        0 <= at <= n,
        forall|j: int| 0 <= j < at ==> before((#[trigger] sections[j]).file, file),
        at < n ==> sections[at].file == file || before(file, sections[at].file),
        forall|j: int| at < j < n ==> before(file, (#[trigger] sections[j]).file),
    decreases n,
{
    if n == 0 {
        0
    } else {
        let last = sections[n - 1].file;
        law_order(last, file, file);
        if before(last, file) {
            assert forall|j: int| 0 <= j < n implies before((#[trigger] sections[j]).file, file) by {
                if j < n - 1 {
                    law_order(sections[j].file, last, file);
                }
            }
            n
        } else if last == file {
            n - 1
        } else {
            lemma_place(sections, file, n - 1)
        }
    }
}

/// The matches that are not of `file` among `rows`, in their order.
spec fn rows_without(rows: Seq<Row>, file: Seq<char>) -> Seq<Row>
    decreases rows.len(),
{
    if rows.len() == 0 {
        seq![]
    } else if rows.last().file == file {
        rows_without(rows.drop_last(), file)
    } else {
        rows_without(rows.drop_last(), file).push(rows.last())
    }
}

proof fn lemma_rows_without(rows: Seq<Row>, file: Seq<char>)
    ensures
        rows.len() == entries_of(rows, file).len() + rows_without(rows, file).len(),
        forall|other: Seq<char>|
            other != file ==> #[trigger] entries_of(rows_without(rows, file), other) == entries_of(
                rows,
                other,
            ),
        forall|k: int|
            0 <= k < rows_without(rows, file).len() ==> (#[trigger] rows_without(
                rows,
                file,
            )[k]).file != file && rows.contains(rows_without(rows, file)[k]),
    decreases rows.len(),
{
    if rows.len() > 0 {
        let earlier = rows.drop_last();
        let row = rows.last();
        let kept = rows_without(earlier, file);
        lemma_rows_without(earlier, file);
        assert forall|other: Seq<char>| other != file implies #[trigger] entries_of(
            rows_without(rows, file),
            other,
        ) == entries_of(rows, other) by {
            assert(entries_of(kept, other) == entries_of(earlier, other));
            if row.file != file {
                lemma_entries_push(kept, row, other);
            }
        }
        assert forall|k: int| 0 <= k < rows_without(rows, file).len() implies (
        #[trigger] rows_without(rows, file)[k]).file != file && rows.contains(
            rows_without(rows, file)[k],
        ) by {
            if k < kept.len() {
                assert(rows_without(rows, file)[k] == kept[k]);
                assert(earlier.contains(kept[k]));
                let m = choose|m: int| 0 <= m < earlier.len() && earlier[m] == kept[k];
                assert(rows[m] == kept[k]);
            } else {
                assert(rows[rows.len() - 1] == row);
            }
        }
    }
}

/// How many matches there are in all sections.
pub open spec fn count(sections: Seq<Section>) -> nat
    decreases sections.len(),
{
    if sections.len() == 0 {
        0
    } else {
        count(sections.drop_last()) + sections.last().matches.len()
    }
}

/// Grouping loses no match and adds none.
pub proof fn law_grouping_keeps_all(sections: Seq<Section>, rows: Seq<Row>)
    requires
        is_grouping(sections, rows),
    ensures
        count(sections) == rows.len(),
    decreases sections.len(),
{
    if sections.len() == 0 {
        if rows.len() > 0 {
            assert(has_file(sections, rows[0].file));
        }
    } else {
        let last = sections.last();
        let others = sections.drop_last();
        let kept = rows_without(rows, last.file);
        lemma_rows_without(rows, last.file);
        assert(sections[sections.len() - 1] == last);
        assert forall|i: int| 0 <= i < others.len() implies (#[trigger] others[i]).matches.len()
            > 0 && others[i].matches == entries_of(kept, others[i].file) by {
            assert(others[i] == sections[i]);
            assert(before(sections[i].file, sections[sections.len() - 1].file));
            law_order(last.file, last.file, last.file);
        }
        assert forall|k: int| 0 <= k < kept.len() implies has_file(
            others,
            (#[trigger] kept[k]).file,
        ) by {
            assert(rows.contains(kept[k]));
            let m = choose|m: int| 0 <= m < rows.len() && rows[m] == kept[k];
            assert(has_file(sections, rows[m].file));
            let i = choose|i: int|
                0 <= i < sections.len() && #[trigger] sections[i].file == kept[k].file;
            assert(others[i].file == kept[k].file);
        }
        assert forall|i: int, j: int| 0 <= i < j < others.len() implies before(
            #[trigger] others[i].file,
            #[trigger] others[j].file,
        ) by {
            assert(others[i] == sections[i] && others[j] == sections[j]);
        }
        law_grouping_keeps_all(others, kept);
    }
}

/// The place of `file` among `groups`: after those of the files before it.
fn place_of(groups: &Vec<Group>, file: &str) -> (r: usize)
    requires
        is_sorted(sections(groups@)),
    ensures
        r <= groups@.len(),
        forall|j: int| 0 <= j < r ==> before((#[trigger] sections(groups@)[j]).file, file@),
        forall|j: int|
            r <= j < groups@.len() ==> !before((#[trigger] sections(groups@)[j]).file, file@),
{
    let ghost all = sections(groups@);
    let mut low: usize = 0;
    let mut high: usize = groups.len();
    while low < high
        invariant
            low <= high <= groups@.len(),
            all == sections(groups@),
            is_sorted(all),
            forall|j: int| 0 <= j < low ==> before((#[trigger] all[j]).file, file@),
            forall|j: int| high <= j < groups@.len() ==> !before((#[trigger] all[j]).file, file@),
        decreases high - low,
    {
        let middle: usize = low + (high - low) / 2;
        let earlier = is_before(groups[middle].file.as_str(), file);
        assert(all[middle as int].file == groups@[middle as int].file@);
        if earlier {
            assert forall|j: int| 0 <= j < middle + 1 implies before(
                (#[trigger] all[j]).file,
                file@,
            ) by {
                if j < middle {
                    law_order(all[j].file, all[middle as int].file, file@);
                }
            }
            low = middle + 1;
        } else {
            assert forall|j: int| middle <= j < groups@.len() implies !before(
                (#[trigger] all[j]).file,
                file@,
            ) by {
                if j > middle {
                    law_order(all[middle as int].file, all[j].file, file@);
                }
            }
            high = middle;
        }
    }
    low
}

/// Adds a match to the group of its file.
fn add_match(groups: &mut Vec<Group>, file: String, number: usize, text: String)
    requires
        is_sorted(sections(old(groups)@)),
    ensures
        forall|d: Seq<Row>| #[trigger]
            is_grouping(sections(old(groups)@), d) ==> is_grouping(
                sections(final(groups)@),
                d.push(Row { file: file@, number, text: text@ }),
            ),
{
    let at = place_of(groups, file.as_str());
    let ghost start = groups@;
    let ghost all = sections(groups@);
    let ghost row = Row { file: file@, number, text: text@ };
    if at < groups.len() && same(groups[at].file.as_str(), file.as_str()) {
        groups[at].matches.push((number, text));
        proof {
            assert(all[at as int] == start[at as int]@);
            assert(groups@[at as int]@.matches =~= all[at as int].matches.push((number, text@)));
            let new = all.update(
                at as int,
                Section { file: row.file, matches: all[at as int].matches.push((number, text@)) },
            );
            assert(sections(groups@) =~= new);
            assert forall|d: Seq<Row>| is_grouping(all, d) implies is_grouping(
                sections(groups@),
                d.push(row),
            ) by {
                lemma_extend_section(all, d, row, at as int);
            }
        }
    } else {
        let mut matches: Vec<(usize, String)> = Vec::new();
        matches.push((number, text));
        let group = Group { file, matches };
        groups.insert(at, group);
        proof {
            let fresh = Section { file: row.file, matches: seq![(number, text@)] };
            assert(group@.matches =~= fresh.matches);
            assert(sections(groups@) =~= all.insert(at as int, fresh));
            assert forall|j: int| at <= j < all.len() implies before(
                row.file,
                (#[trigger] all[j]).file,
            ) by {
                assert(all[at as int].file == start[at as int].file@);
                law_order(all[at as int].file, row.file, row.file);
                if j > at {
                    law_order(row.file, all[at as int].file, all[j].file);
                }
            }
            assert forall|d: Seq<Row>| is_grouping(all, d) implies is_grouping(
                sections(groups@),
                d.push(row),
            ) by {
                lemma_insert_section(all, d, row, at as int);
            }
        }
    }
}

/// Reads the matches in `stdout`, cleans them and groups them by file. Returns the groups and
/// the number of matches, or `None` where a match cannot be cleaned.
pub fn group_matches(
    stdout: &str,
    max_len: usize,
    context_re: Option<&ContextRegex>,
    pattern: &str,
) -> (r: Option<(Vec<Group>, usize)>)
    ensures
        ({
            let how = Cleaning {
                max_len: max_len as int,
                context: context_view(context_re),
                pattern: pattern@,
            };
            match r {
                Some((groups, total)) => {
                    &&& all_cleanable(lines(stdout@), how)
                    &&& is_grouping(sections(groups@), rows(lines(stdout@), how))
                    &&& sections(groups@) == by_file(rows(lines(stdout@), how))
                    &&& total == rows(lines(stdout@), how).len()
                },
                None => !all_cleanable(lines(stdout@), how),
            }
        }),
{
    let ghost how = Cleaning {
        max_len: max_len as int,
        context: context_view(context_re),
        pattern: pattern@,
    };
    let text = split_lines(stdout);
    let ghost all = lines(stdout@);
    let mut groups: Vec<Group> = Vec::new();
    let mut total: usize = 0;
    let mut i: usize = 0;
    assert(is_grouping(sections(groups@), rows(all.take(0), how)));
    while i < text.len()
        invariant
            i <= text@.len(),
            all == views(text@),
            all == lines(stdout@),
            how == (Cleaning {
                max_len: max_len as int,
                context: context_view(context_re),
                pattern: pattern@,
            }),
            all_cleanable(all.take(i as int), how),
            is_grouping(sections(groups@), rows(all.take(i as int), how)),
            total == rows(all.take(i as int), how).len(),
            total <= i,
        decreases text@.len() - i,
    {
        let ghost seen = all.take(i as int);
        let ghost next = all.take(i + 1);
        assert(all[i as int] == text@[i as int]@);
        assert(next.drop_last() =~= seen);
        assert(next.last() == all[i as int]);
        match parse_match_line(text[i].as_str()) {
            Some((file, number, content)) => {
                match try_clean_line(content, max_len, context_re, pattern) {
                    Some(cleaned_text) => {
                        add_match(&mut groups, file, number, cleaned_text);
                        total += 1;
                    },
                    None => {
                        assert(!all_cleanable(all, how)) by {
                            assert(parsed(all[i as int]) is Some);
                        }
                        return None;
                    },
                }
            },
            None => {},
        }
        assert(all_cleanable(next, how)) by {
            assert forall|j: int| 0 <= j < next.len() implies (parsed(
                #[trigger] next[j],
            ) matches Some(m) ==> can_clean(m.content, how.max_len, how.context, how.pattern)) by {
                if j < i {
                    assert(next[j] == seen[j]);
                }
            }
        }
        i += 1;
    }
    proof {
        assert(all.take(i as int) =~= all);
        law_one_grouping(sections(groups@), rows(all, how));
    }
    Some((groups, total))
}

/// The sections that are made of some matches hold as many matches as there are.
pub proof fn law_by_file_keeps_all(rows: Seq<Row>)
    ensures
        count(by_file(rows)) == rows.len(),
{
    law_grouping_exists(rows);
    law_grouping_keeps_all(by_file(rows), rows);
}

/// Lines are read one by one: the matches of some lines are those of the first ones, then those
/// of the others.
pub proof fn law_rows_concat(a: Seq<Seq<char>>, b: Seq<Seq<char>>, how: Cleaning)
    ensures
        rows(a + b, how) == rows(a, how) + rows(b, how),
    decreases b.len(),
{
    if b.len() == 0 {
        assert(a + b =~= a);
        assert(rows(a, how) + rows(b, how) =~= rows(a, how));
    } else {
        law_rows_concat(a, b.drop_last(), how);
        assert((a + b).drop_last() =~= a + b.drop_last());
        assert(rows(a + b, how) =~= rows(a, how) + rows(b, how));
    }
}

/// Whether `line` is a match in `file`, with its number written in `digits`.
pub open spec fn is_match(
    line: Seq<char>,
    file: Seq<char>,
    digits: Seq<char>,
    content: Seq<char>,
) -> bool {
    reads(line, file, digits, content) && value(digits) <= usize::MAX
}

/// The row that a line makes: a line that reads file, NUL, digits, colon and content makes one,
/// with exactly that file, the number that the digits stand for and the content cleaned; any
/// other line makes none.
pub proof fn law_row_of_line(
    line: Seq<char>,
    how: Cleaning,
    file: Seq<char>,
    digits: Seq<char>,
    content: Seq<char>,
)
    ensures
        is_match(line, file, digits, content) ==> {
            let r = rows(seq![line], how);
            &&& r.len() == 1
            &&& r[0].file == file
            &&& r[0].number == value(digits)
            &&& r[0].text == cleaned(content, how.max_len, how.context, how.pattern)
        },
        (forall|f: Seq<char>, d: Seq<char>, c: Seq<char>| !#[trigger] is_match(line, f, d, c))
            ==> rows(seq![line], how).len() == 0,
{
    let lines = seq![line];
    law_one_reading(line, file, digits, content);
    assert(lines.drop_last() =~= seq![]);
    assert(rows(seq![], how).len() == 0);
    assert(rows(lines, how).len() == if parsed(line) is Some {
        1int
    } else {
        0
    });
    if parsed(line) is Some {
        let m = parsed(line)->0;
        let d = choose|d: Seq<char>| #[trigger]
            reads(line, m.file, d, m.content) && value(d) == m.number;
        assert(is_match(line, m.file, d, m.content));
    }
}

/// The rows read from some lines stand for the matches among them one to one and in their order:
/// the row of line `i` comes after as many rows as there are matches before that line, and has
/// the file, the number and the content of that line.
pub proof fn law_row_at(
    lines: Seq<Seq<char>>,
    how: Cleaning,
    i: int,
    file: Seq<char>,
    digits: Seq<char>,
    content: Seq<char>,
) -> (k: int)
    requires
        0 <= i < lines.len(),
        is_match(lines[i], file, digits, content),
    ensures
        k == rows(lines.take(i), how).len(),
        k < rows(lines, how).len(),
        rows(lines, how)[k].file == file,
        rows(lines, how)[k].number == value(digits),
        rows(lines, how)[k].text == cleaned(content, how.max_len, how.context, how.pattern),
        rows(lines, how).len() == k + 1 + rows(lines.skip(i + 1), how).len(),
{
    let first = lines.take(i);
    let middle = seq![lines[i]];
    let last = lines.skip(i + 1);
    assert(lines =~= first + middle + last);
    law_rows_concat(first + middle, last, how);
    law_rows_concat(first, middle, how);
    law_row_of_line(lines[i], how, file, digits, content);
    rows(first, how).len() as int
}

/// Every row comes from a line that names its file and its number.
pub proof fn law_line_of_row(lines: Seq<Seq<char>>, how: Cleaning, k: int) -> (r: (
    int,
    Seq<char>,
    Seq<char>,
))
    requires
        0 <= k < rows(lines, how).len(),
    ensures
        ({
            let (i, digits, content) = r;
            let row = rows(lines, how)[k];
            &&& 0 <= i < lines.len()
            &&& is_match(lines[i], row.file, digits, content)
            &&& row.number == value(digits)
            &&& row.text == cleaned(content, how.max_len, how.context, how.pattern)
        }),
    decreases lines.len(),
{
    let earlier = lines.drop_last();
    if k < rows(earlier, how).len() {
        let (i, digits, content) = law_line_of_row(earlier, how, k);
        assert(earlier[i] == lines[i]);
        (i, digits, content)
    } else {
        let line = lines.last();
        assert(parsed(line) is Some);
        let m = parsed(line)->0;
        law_one_reading(line, m.file, m.content, m.content);
        let d = choose|d: Seq<char>| #[trigger]
            reads(line, m.file, d, m.content) && value(d) == m.number;
        (lines.len() - 1, d, m.content)
    }
}

/// The entries of a file are the matches whose file it is, in their order.
pub proof fn law_entries_of_file(a: Seq<Row>, b: Seq<Row>, row: Row, file: Seq<char>)
    ensures
        entries_of(a + b, file) == entries_of(a, file) + entries_of(b, file),
        entries_of(seq![row], file) == if row.file == file {
            seq![(row.number, row.text)]
        } else {
            seq![]
        },
    decreases b.len(),
{
    let none: Seq<Row> = seq![];
    lemma_entries_push(none, row, file);
    assert(none.push(row) =~= seq![row]);
    assert(entries_of(none, file) =~= seq![]);
    if b.len() == 0 {
        assert(a + b =~= a);
        assert(entries_of(a, file) + entries_of(b, file) =~= entries_of(a, file));
    } else {
        law_entries_of_file(a, b.drop_last(), row, file);
        assert((a + b).drop_last() =~= a + b.drop_last());
        assert(entries_of(a + b, file) =~= entries_of(a, file) + entries_of(b, file));
    }
}

proof fn lemma_row_in_entries(rows: Seq<Row>, k: int)
    requires
        0 <= k < rows.len(),
    ensures
        entries_of(rows, rows[k].file).contains((rows[k].number, rows[k].text)),
{
    let row = rows[k];
    let first = rows.take(k);
    let last = rows.skip(k + 1);
    let n = entries_of(first, row.file).len() as int;
    assert(rows =~= first + seq![row] + last);
    law_entries_of_file(first + seq![row], last, row, row.file);
    law_entries_of_file(first, seq![row], row, row.file);
    assert(entries_of(rows, row.file)[n] == (row.number, row.text));
}

/// Each section is named after a file that the lines of its matches name, comes after the
/// sections of the files before it, and holds the matches of that file alone, all of them, in
/// their order.
pub proof fn law_sections(lines: Seq<Seq<char>>, how: Cleaning, p: int) -> (r: (
    int,
    Seq<char>,
    Seq<char>,
))
    requires
        0 <= p < by_file(rows(lines, how)).len(),
    ensures
        ({
            let (i, digits, content) = r;
            let all = by_file(rows(lines, how));
            &&& 0 <= i < lines.len()
            &&& is_match(lines[i], all[p].file, digits, content)
            &&& all[p].matches == entries_of(rows(lines, how), all[p].file)
            &&& forall|q: int| 0 <= q < p ==> before((#[trigger] all[q]).file, all[p].file)
        }),
{
    let found = rows(lines, how);
    let all = by_file(found);
    law_grouping_exists(found);
    assert(all[p].matches.len() > 0);
    let k = lemma_entries_have_row(found, all[p].file);
    law_line_of_row(lines, how, k)
}

/// Every match is in the section of the file that its line names, with the number that its line
/// gives and its cleaned content; and two matches are in one section just where their lines name
/// the same file. `r` are the places of the two sections.
pub proof fn law_same_section(
    lines: Seq<Seq<char>>,
    how: Cleaning,
    i: int,
    file: Seq<char>,
    digits: Seq<char>,
    content: Seq<char>,
    j: int,
    other_file: Seq<char>,
    other_digits: Seq<char>,
    other_content: Seq<char>,
) -> (r: (int, int))
    requires
        0 <= i < lines.len(),
        0 <= j < lines.len(),
        is_match(lines[i], file, digits, content),
        is_match(lines[j], other_file, other_digits, other_content),
    ensures
        ({
            let all = by_file(rows(lines, how));
            let (p, q) = r;
            &&& 0 <= p < all.len()
            &&& 0 <= q < all.len()
            &&& all[p].file == file
            &&& all[p].matches.contains(
                (
                    value(digits) as usize,
                    cleaned(content, how.max_len, how.context, how.pattern),
                ),
            )
            &&& all[q].file == other_file
            &&& all[q].matches.contains(
                (
                    value(other_digits) as usize,
                    cleaned(other_content, how.max_len, how.context, how.pattern),
                ),
            )
            &&& p == q <==> file == other_file
            &&& forall|s: int| 0 <= s < all.len() && s != p ==> (#[trigger] all[s]).file != file
        }),
{
    let p = lemma_section_of_line(lines, how, i, file, digits, content);
    let q = lemma_section_of_line(lines, how, j, other_file, other_digits, other_content);
    (p, q)
}

proof fn lemma_section_of_line(
    lines: Seq<Seq<char>>,
    how: Cleaning,
    i: int,
    file: Seq<char>,
    digits: Seq<char>,
    content: Seq<char>,
) -> (p: int)
    requires
        0 <= i < lines.len(),
        is_match(lines[i], file, digits, content),
    ensures
        ({
            let all = by_file(rows(lines, how));
            &&& 0 <= p < all.len()
            &&& all[p].file == file
            &&& all[p].matches.contains(
                (
                    value(digits) as usize,
                    cleaned(content, how.max_len, how.context, how.pattern),
                ),
            )
            &&& forall|s: int| 0 <= s < all.len() && s != p ==> (#[trigger] all[s]).file != file
        }),
{
    let found = rows(lines, how);
    let all = by_file(found);
    law_grouping_exists(found);
    let k = law_row_at(lines, how, i, file, digits, content);
    assert(has_file(all, found[k].file));
    let p = choose|p: int| 0 <= p < all.len() && #[trigger] all[p].file == file;
    lemma_row_in_entries(found, k);
    assert(all[p].matches == entries_of(found, file));
    assert forall|s: int| 0 <= s < all.len() && s != p implies (#[trigger] all[s]).file != file by {
        law_order(file, file, file);
        if s < p {
            assert(before(all[s].file, all[p].file));
        } else {
            assert(before(all[p].file, all[s].file));
        }
    }
    p
}

/// Lines can be cleaned just where the content of every match among them can be.
pub proof fn law_all_cleanable(lines: Seq<Seq<char>>, how: Cleaning)
    ensures
        all_cleanable(lines, how) <==> forall|
            i: int,
            file: Seq<char>,
            digits: Seq<char>,
            content: Seq<char>,
        |
            0 <= i < lines.len() && #[trigger] is_match(lines[i], file, digits, content)
                ==> can_clean(content, how.max_len, how.context, how.pattern),
{
    if all_cleanable(lines, how) {
        assert forall|i: int, file: Seq<char>, digits: Seq<char>, content: Seq<char>|
            0 <= i < lines.len() && #[trigger] is_match(
                lines[i],
                file,
                digits,
                content,
            ) implies can_clean(content, how.max_len, how.context, how.pattern) by {
            law_one_reading(lines[i], file, digits, content);
        }
    } else {
        let i = choose|i: int|
            0 <= i < lines.len() && !(parsed(#[trigger] lines[i]) matches Some(m) ==> can_clean(
                m.content,
                how.max_len,
                how.context,
                how.pattern,
            ));
        let m = parsed(lines[i])->0;
        law_one_reading(lines[i], m.file, m.content, m.content);
        let d = choose|d: Seq<char>| #[trigger]
            reads(lines[i], m.file, d, m.content) && value(d) == m.number;
        assert(is_match(lines[i], m.file, d, m.content));
    }
}

} // verus!
