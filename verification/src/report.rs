//! The text that shows grouped matches.
use crate::group::{
    by_file, count, entries_of, is_sorted, law_by_file_keeps_all, sections, Group, Row, Section,
};
use crate::number::{all_digits, decimal, law_decimal_reads_back, to_decimal, value};
use crate::order::{before, law_order};
use crate::path::{compact, compact_path};
use vstd::prelude::*;

verus! {

/// The smaller of two numbers.
pub open spec fn smaller(a: int, b: int) -> int {
    if a < b {
        a
    } else {
        b
    }
}

/// The first matches of a section, up to `per_file`.
pub open spec fn first_rows(section: Section, per_file: int) -> Seq<Row> {
    Seq::new(
        smaller(per_file, section.matches.len() as int) as nat,
        |i: int|
            Row {
                file: section.file,
                number: section.matches[i].0,
                text: section.matches[i].1,
            },
    )
}

/// The first matches of each section, up to `per_file`, section by section.
pub open spec fn capped(sections: Seq<Section>, per_file: int) -> Seq<Row>
    decreases sections.len(),
{
    if sections.len() == 0 {
        seq![]
    } else {
        capped(sections.drop_last(), per_file) + first_rows(sections.last(), per_file)
    }
}

/// The matches that are listed: up to `per_file` of each file, and up to `max_results` in all.
pub open spec fn listed(sections: Seq<Section>, per_file: int, max_results: int) -> Seq<Row> {
    let all = capped(sections, per_file);
    all.take(smaller(max_results, all.len() as int))
}

/// The line that lists a match.
pub open spec fn row_text(row: Row) -> Seq<char> {
    compact(row.file) + ":"@ + decimal(row.number as nat) + ":"@ + row.text + "\n"@
}

/// The lines that list `rows`.
pub open spec fn body(rows: Seq<Row>) -> Seq<char>
    decreases rows.len(),
{
    if rows.len() == 0 {
        seq![]
    } else {
        body(rows.drop_last()) + row_text(rows.last())
    }
}

/// The heading with the number of matches and of files.
pub open spec fn heading(total: nat, files: nat) -> Seq<char> {
    decimal(total) + " matches in "@ + decimal(files) + " files:\n\n"@
}

/// The line that says how many matches are not listed, if any.
pub open spec fn remainder(total: int, shown: int) -> Seq<char> {
    if total > shown {
        "[+"@ + decimal((total - shown) as nat) + " more]\n"@
    } else {
        seq![]
    }
}

/// The whole report.
pub open spec fn report(
    sections: Seq<Section>,
    total: nat,
    per_file: int,
    max_results: int,
) -> Seq<char> {
    let shown = listed(sections, per_file, max_results);
    heading(total, sections.len()) + body(shown) + remainder(total as int, shown.len() as int)
}

proof fn lemma_body_push(rows: Seq<Row>, row: Row)
    ensures
        body(rows.push(row)) == body(rows) + row_text(row),
{
    assert(rows.push(row).drop_last() =~= rows);
}

/// The rows of the first sections are the first rows of all.
proof fn lemma_capped_prefix(sections: Seq<Section>, per_file: int, n: int)
    requires
        0 <= n <= sections.len(),
    ensures
        ({
            let part = capped(sections.take(n), per_file);
            let all = capped(sections, per_file);
            &&& part.len() <= all.len()
            &&& part == all.take(part.len() as int)
        }),
    decreases sections.len(),
{
    let part = capped(sections.take(n), per_file);
    let all = capped(sections, per_file);
    if n == sections.len() {
        assert(sections.take(n) =~= sections);
        assert(all.take(all.len() as int) =~= all);
    } else {
        let others = sections.drop_last();
        lemma_capped_prefix(others, per_file, n);
        assert(others.take(n) =~= sections.take(n));
        assert(all.take(part.len() as int) =~= capped(others, per_file).take(part.len() as int));
    }
}

/// Writes the line that lists a match.
fn push_row(out: &mut String, file_display: &str, number: usize, text: &str, file: Ghost<Seq<char>>)
    requires
        file_display@ == compact(file@),
    ensures
        final(out)@ == old(out)@ + row_text(Row { file: file@, number, text: text@ }),
{
    let ghost start = out@;
    out.append(file_display);
    out.append(":");
    let digits = to_decimal(number);
    out.append(digits.as_str());
    out.append(":");
    out.append(text);
    out.append("\n");
    assert(out@ =~= start + row_text(Row { file: file@, number, text: text@ }));
}

/// Writes the report on `groups`, which hold `total` matches.
pub fn render(groups: &Vec<Group>, total: usize, per_file: usize, max_results: usize) -> (r: String)
    ensures
        r@ == report(sections(groups@), total as nat, per_file as int, max_results as int),
{
    let ghost all = sections(groups@);
    let ghost head = heading(total as nat, all.len());
    let mut out = String::new();
    let total_digits = to_decimal(total);
    let files_digits = to_decimal(groups.len());
    out.append(total_digits.as_str());
    out.append(" matches in ");
    out.append(files_digits.as_str());
    out.append(" files:\n\n");
    assert(out@ =~= head);
    let mut shown: usize = 0;
    let mut g: usize = 0;
    let ghost mut done: Seq<Row> = seq![];
    assert(out@ =~= head + body(done));
    assert(listed(all.take(0), per_file as int, max_results as int) =~= done);
    while g < groups.len() && shown < max_results
        invariant
            g <= groups@.len(),
            all == sections(groups@),
            out@ == head + body(done),
            shown == done.len(),
            shown <= max_results,
            done == listed(all.take(g as int), per_file as int, max_results as int),
        decreases groups@.len() - g,
    {
        let group = &groups[g];
        let ghost section = all[g as int];
        let ghost start = done;
        let ghost fresh = first_rows(section, per_file as int);
        let ghost earlier = capped(all.take(g as int), per_file as int);
        assert(section == group@);
        assert(all.take(g + 1).drop_last() =~= all.take(g as int));
        let file_display = compact_path(group.file.as_str());
        let mut j: usize = 0;
        assert(start + fresh.take(0) =~= start);
        while j < group.matches.len() && j < per_file && shown < max_results
            invariant
                j <= group.matches@.len(),
                j <= per_file,
                section == group@,
                fresh == first_rows(section, per_file as int),
                file_display@ == compact(section.file),
                out@ == head + body(done),
                shown == done.len(),
                shown <= max_results,
                j <= fresh.len(),
                done == start + fresh.take(j as int),
            decreases group.matches@.len() - j,
        {
            let number = group.matches[j].0;
            let text = group.matches[j].1.as_str();
            let ghost row = fresh[j as int];
            assert(section.matches[j as int] == (number, text@));
            assert(row == Row { file: section.file, number, text: text@ });
            push_row(&mut out, file_display.as_str(), number, text, Ghost(section.file));
            proof {
                lemma_body_push(done, row);
                assert(start + fresh.take(j + 1) =~= done.push(row));
                done = done.push(row);
                assert(out@ =~= head + body(done));
            }
            shown += 1;
            j += 1;
        }
        proof {
            let now = earlier + fresh;
            assert(now == capped(all.take(g + 1), per_file as int));
            assert(done =~= now.take(smaller(max_results as int, now.len() as int)));
        }
        g += 1;
    }
    proof {
        lemma_capped_prefix(all, per_file as int, g as int);
        assert(all.take(groups@.len() as int) =~= all);
        assert(done =~= listed(all, per_file as int, max_results as int));
    }
    if total > shown {
        out.append("[+");
        let hidden = to_decimal(total - shown);
        out.append(hidden.as_str());
        out.append(" more]\n");
    }
    assert(out@ =~= report(all, total as nat, per_file as int, max_results as int));
    out
}

proof fn lemma_capped_len(sections: Seq<Section>, per_file: int)
    requires
        0 <= per_file,
    ensures
        capped(sections, per_file).len() <= count(sections),
        (forall|i: int|
            0 <= i < sections.len() ==> (#[trigger] sections[i]).matches.len() <= per_file)
            ==> capped(sections, per_file).len() == count(sections),
    decreases sections.len(),
{
    if sections.len() > 0 {
        let others = sections.drop_last();
        lemma_capped_len(others, per_file);
        if forall|i: int|
            0 <= i < sections.len() ==> (#[trigger] sections[i]).matches.len() <= per_file {
            assert forall|i: int| 0 <= i < others.len() implies (
            #[trigger] others[i]).matches.len() <= per_file by {
                assert(others[i] == sections[i]);
            }
            assert(sections[sections.len() - 1].matches.len() <= per_file);
        }
    }
}

/// The matches that are listed and those that are counted as not listed are all there are, and
/// no more than `max_results` are listed.
pub proof fn law_counts_add_up(sections: Seq<Section>, per_file: int, max_results: int)
    requires
        0 <= per_file,
        0 <= max_results,
    ensures
        ({
            let shown = listed(sections, per_file, max_results).len();
            let hidden = count(sections) - shown;
            &&& shown <= max_results
            &&& 0 <= hidden
            &&& remainder(count(sections) as int, shown as int) == if hidden > 0 {
                "[+"@ + decimal(hidden as nat) + " more]\n"@
            } else {
                seq![]
            }
        }),
{
    lemma_capped_len(sections, per_file);
}

/// Where the limits allow it every match is listed.
pub proof fn law_all_listed(sections: Seq<Section>, per_file: int, max_results: int)
    requires
        0 <= per_file,
        forall|i: int|
            0 <= i < sections.len() ==> (#[trigger] sections[i]).matches.len() <= per_file,
        count(sections) <= max_results,
    ensures
        listed(sections, per_file, max_results).len() == count(sections),
        remainder(
            count(sections) as int,
            listed(sections, per_file, max_results).len() as int,
        ).len() == 0,
{
    lemma_capped_len(sections, per_file);
}

proof fn lemma_entries_concat(a: Seq<Row>, b: Seq<Row>, file: Seq<char>)
    ensures
        entries_of(a + b, file) == entries_of(a, file) + entries_of(b, file),
    decreases b.len(),
{
    if b.len() == 0 {
        assert(a + b =~= a);
        assert(entries_of(a, file) + entries_of(b, file) =~= entries_of(a, file));
    } else {
        lemma_entries_concat(a, b.drop_last(), file);
        assert((a + b).drop_last() =~= a + b.drop_last());
        assert(entries_of(a + b, file) =~= entries_of(a, file) + entries_of(b, file));
    }
}

proof fn lemma_entries_of_section(section: Section, n: int, file: Seq<char>)
    requires
        0 <= n <= section.matches.len(),
    ensures
        entries_of(first_rows(section, n), file) == if file == section.file {
            section.matches.take(n)
        } else {
            seq![]
        },
    decreases n,
{
    let fresh = first_rows(section, n);
    if n > 0 {
        lemma_entries_of_section(section, n - 1, file);
        assert(fresh.drop_last() =~= first_rows(section, n - 1));
        assert(section.matches.take(n) =~= section.matches.take(n - 1).push(section.matches[n - 1]));
    } else {
        assert(section.matches.take(n) =~= seq![]);
        assert(fresh =~= seq![]);
    }
}

proof fn lemma_entries_of_capped(sections: Seq<Section>, per_file: int, at: int)
    requires
        0 <= per_file,
        is_sorted(sections),
        0 <= at < sections.len(),
    ensures
        entries_of(capped(sections, per_file), sections[at].file) == sections[at].matches.take(
            smaller(per_file, sections[at].matches.len() as int),
        ),
    decreases sections.len(),
{
    let others = sections.drop_last();
    let last = sections.last();
    let file = sections[at].file;
    let n = smaller(per_file, last.matches.len() as int);
    assert(first_rows(last, per_file) =~= first_rows(last, n));
    lemma_entries_of_section(last, n, file);
    lemma_entries_concat(capped(others, per_file), first_rows(last, per_file), file);
    assert forall|i: int, j: int| 0 <= i < j < others.len() implies before(
        #[trigger] others[i].file,
        #[trigger] others[j].file,
    ) by {
        assert(others[i] == sections[i] && others[j] == sections[j]);
    }
    law_order(file, file, file);
    if at == sections.len() - 1 {
        lemma_other_file(others, per_file, file);
        assert(entries_of(capped(sections, per_file), file) =~= last.matches.take(n));
    } else {
        assert(before(sections[at].file, sections[sections.len() - 1].file));
        lemma_entries_of_capped(others, per_file, at);
        assert(entries_of(capped(sections, per_file), file) =~= entries_of(
            capped(others, per_file),
            file,
        ));
    }
}

proof fn lemma_other_file(sections: Seq<Section>, per_file: int, file: Seq<char>)
    requires
        0 <= per_file,
        forall|i: int| 0 <= i < sections.len() ==> (#[trigger] sections[i]).file != file,
    ensures
        entries_of(capped(sections, per_file), file) == Seq::<(usize, Seq<char>)>::empty(),
    decreases sections.len(),
{
    if sections.len() > 0 {
        let others = sections.drop_last();
        let last = sections.last();
        let n = smaller(per_file, last.matches.len() as int);
        assert forall|i: int| 0 <= i < others.len() implies (#[trigger] others[i]).file != file by {
            assert(others[i] == sections[i]);
        }
        assert(sections[sections.len() - 1].file != file);
        lemma_other_file(others, per_file, file);
        assert(first_rows(last, per_file) =~= first_rows(last, n));
        lemma_entries_of_section(last, n, file);
        lemma_entries_concat(capped(others, per_file), first_rows(last, per_file), file);
        assert(entries_of(capped(sections, per_file), file) =~= seq![]);
    }
}

/// What is listed of a file are its first matches, in their order, and no more than `per_file`.
pub proof fn law_first_matches_of_file(
    sections: Seq<Section>,
    per_file: int,
    max_results: int,
    at: int,
) -> (n: int)
    requires
        0 <= per_file,
        0 <= max_results,
        is_sorted(sections),
        0 <= at < sections.len(),
    ensures
        0 <= n <= per_file,
        n <= sections[at].matches.len(),
        entries_of(listed(sections, per_file, max_results), sections[at].file)
            == sections[at].matches.take(n),
{
    let file = sections[at].file;
    let all = capped(sections, per_file);
    let k = smaller(max_results, all.len() as int);
    lemma_entries_of_capped(sections, per_file, at);
    lemma_entries_concat(all.take(k), all.skip(k), file);
    assert(all.take(k) + all.skip(k) =~= all);
    let head = entries_of(all.take(k), file);
    let whole = entries_of(all, file);
    let tail = entries_of(all.skip(k), file);
    let matches = sections[at].matches;
    let limit = smaller(per_file, matches.len() as int);
    let n = head.len() as int;
    assert(whole == head + tail);
    assert(whole == matches.take(limit));
    assert(n <= whole.len() == limit);
    assert forall|i: int| 0 <= i < n implies head[i] == matches[i] by {
        assert(head[i] == whole[i]);
    }
    assert(head =~= matches.take(n));
    n
}

/// A report says how many matches there are, and lists them or counts them as not listed.
pub proof fn law_report_accounts_for_all(found: Seq<Row>, per_file: int, max_results: int)
    requires
        0 <= per_file,
        0 <= max_results,
    ensures
        ({
            let sections = by_file(found);
            let shown = listed(sections, per_file, max_results);
            &&& shown.len() <= found.len()
            &&& shown.len() <= max_results
            &&& report(sections, found.len(), per_file, max_results) == heading(
                found.len(),
                sections.len(),
            ) + body(shown) + if shown.len() < found.len() {
                "[+"@ + decimal((found.len() - shown.len()) as nat) + " more]\n"@
            } else {
                seq![]
            }
        }),
{
    law_by_file_keeps_all(found);
    law_counts_add_up(by_file(found), per_file, max_results);
}

/// What stands in the line that lists a match: the short form of its file, a colon, its number,
/// a colon, its text and a newline.
pub proof fn law_row_text(row: Row)
    ensures
        ({
            let r = row_text(row);
            let p = compact(row.file).len() as int;
            let d = decimal(row.number as nat).len() as int;
            &&& r.len() == p + 1 + d + 1 + row.text.len() + 1
            &&& r.take(p) == compact(row.file)
            &&& r[p] == ':'
            &&& all_digits(r.subrange(p + 1, p + 1 + d))
            &&& value(r.subrange(p + 1, p + 1 + d)) == row.number
            &&& r[p + 1 + d] == ':'
            &&& r.subrange(p + 1 + d + 1, r.len() - 1) == row.text
            &&& r.last() == '\n'
        }),
{
    reveal_strlit(":");
    reveal_strlit("\n");
    law_decimal_reads_back(row.number as nat);
    let r = row_text(row);
    let p = compact(row.file).len() as int;
    let d = decimal(row.number as nat).len() as int;
    assert(r.take(p) =~= compact(row.file));
    assert(r.subrange(p + 1, p + 1 + d) =~= decimal(row.number as nat));
    assert(r.subrange(p + 1 + d + 1, r.len() - 1) =~= row.text);
}

/// The lines that list some matches are those of the first ones, then those of the others.
pub proof fn law_body_concat(a: Seq<Row>, b: Seq<Row>, row: Row)
    ensures
        body(a + b) == body(a) + body(b),
        body(seq![row]) == row_text(row),
    decreases b.len(),
{
    let none: Seq<Row> = seq![];
    lemma_body_push(none, row);
    assert(none.push(row) =~= seq![row]);
    assert(body(none) + row_text(row) =~= row_text(row));
    if b.len() == 0 {
        assert(a + b =~= a);
        assert(body(a) + body(b) =~= body(a));
    } else {
        law_body_concat(a, b.drop_last(), row);
        assert((a + b).drop_last() =~= a + b.drop_last());
        assert(body(a + b) =~= body(a) + body(b));
    }
}

/// Section after section, the first matches of each are taken in their order: `per_file` of
/// them, or all where there are fewer.
pub proof fn law_capped(a: Seq<Section>, b: Seq<Section>, section: Section, per_file: int)
    requires
        0 <= per_file,
    ensures
        capped(a + b, per_file) == capped(a, per_file) + capped(b, per_file),
        ({
            let r = capped(seq![section], per_file);
            &&& r.len() <= per_file
            &&& r.len() <= section.matches.len()
            &&& r.len() == per_file || r.len() == section.matches.len()
            &&& forall|i: int|
                0 <= i < r.len() ==> (#[trigger] r[i]).file == section.file && r[i].number
                    == section.matches[i].0 && r[i].text == section.matches[i].1
        }),
    decreases b.len(),
{
    let one = seq![section];
    assert(capped(one.drop_last(), per_file) =~= seq![]);
    assert(capped(one, per_file) =~= first_rows(section, per_file));
    if b.len() == 0 {
        assert(a + b =~= a);
        assert(capped(a, per_file) + capped(b, per_file) =~= capped(a, per_file));
    } else {
        law_capped(a, b.drop_last(), section, per_file);
        assert((a + b).drop_last() =~= a + b.drop_last());
        assert(capped(a + b, per_file) =~= capped(a, per_file) + capped(b, per_file));
    }
}

/// The matches that are listed are the first ones of those taken of each section: `max_results`
/// of them, or all where there are fewer.
pub proof fn law_listed(sections: Seq<Section>, per_file: int, max_results: int)
    requires
        0 <= per_file,
        0 <= max_results,
    ensures
        ({
            let all = capped(sections, per_file);
            let r = listed(sections, per_file, max_results);
            &&& r.len() <= max_results
            &&& r.len() == max_results || r.len() == all.len()
            &&& r.is_prefix_of(all)
        }),
{
    let all = capped(sections, per_file);
    let r = listed(sections, per_file, max_results);
    assert(r =~= all.subrange(0, r.len() as int));
}

/// The heading gives the number of matches, then the number of files.
pub proof fn law_heading(total: nat, files: nat)
    ensures
        ({
            let r = heading(total, files);
            let n = decimal(total).len() as int;
            let m = decimal(files).len() as int;
            &&& r.len() == n + 12 + m + 9
            &&& all_digits(r.take(n))
            &&& value(r.take(n)) == total
            &&& r.subrange(n, n + 12) == " matches in "@
            &&& all_digits(r.subrange(n + 12, n + 12 + m))
            &&& value(r.subrange(n + 12, n + 12 + m)) == files
            &&& r.skip(n + 12 + m) == " files:\n\n"@
        }),
{
    reveal_strlit(" matches in ");
    reveal_strlit(" files:\n\n");
    law_decimal_reads_back(total);
    law_decimal_reads_back(files);
    let r = heading(total, files);
    let n = decimal(total).len() as int;
    let m = decimal(files).len() as int;
    assert(r.take(n) =~= decimal(total));
    assert(r.subrange(n, n + 12) =~= " matches in "@);
    assert(r.subrange(n + 12, n + 12 + m) =~= decimal(files));
    assert(r.skip(n + 12 + m) =~= " files:\n\n"@);
}

/// A report is the heading, the lines of the listed matches, and the number of the others where
/// there are any.
pub proof fn law_report(sections: Seq<Section>, total: nat, per_file: int, max_results: int)
    ensures
        ({
            let shown = listed(sections, per_file, max_results);
            let start = heading(total, sections.len()) + body(shown);
            let r = report(sections, total, per_file, max_results);
            &&& r.take(start.len() as int) == start
            &&& total <= shown.len() ==> r.len() == start.len()
            &&& total > shown.len() ==> {
                let hidden = decimal((total - shown.len()) as nat);
                &&& r.len() == start.len() + 2 + hidden.len() + 7
                &&& r.skip(start.len() as int) == seq!['[', '+'] + hidden + " more]\n"@
            }
        }),
{
    reveal_strlit("[+");
    reveal_strlit(" more]\n");
    let shown = listed(sections, per_file, max_results);
    let start = heading(total, sections.len()) + body(shown);
    let r = report(sections, total, per_file, max_results);
    let tail = remainder(total as int, shown.len() as int);
    assert(r =~= start + tail);
    assert(r.take(start.len() as int) =~= start);
    assert(r.skip(start.len() as int) =~= tail);
    assert("[+"@ =~= seq!['[', '+']);
}

} // verus!
