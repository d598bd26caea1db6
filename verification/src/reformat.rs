//! Passes over a maintained checklist: the report that shows what is left to
//! do apart from what is done, and the list of the advisories that are done.

use crate::discover::texts;
use crate::parse::{parse, parse_tokens, DocumentView};
use crate::report::{capped_total, entry_views, EntryView};
use crate::text::{decimal, push_decimal};
use crate::tokenize::{issue_views, tokenize, tokens_of_text, IssueView};
use crate::transform::{done_part, partition_completed, todo_part};
use crate::writer::document_text;
use vstd::prelude::*;
use vstd::string::StringExecFns;

verus! {

/// The report on a document. Where nothing is left to do, or nothing is done,
/// it is a line feed, what is left to do, a line feed, what is done, and two
/// line feeds. Else what is done is folded away under a summary line, after a
/// heading that counts both parts.
pub open spec fn report_text(d: DocumentView) -> Seq<char> {
    let todo = document_text(todo_part(d));
    let done = document_text(done_part(d));
    let todo_count = capped_total(todo_part(d).report);
    let done_count = capped_total(done_part(d).report);
    if todo_count == 0 || done_count == 0 {
        "\n"@ + todo + "\n"@ + done + "\n\n"@
    } else {
        "\n"@ + todo + "\n\n---\n## "@ + decimal(todo_count) + " remaining, "@ + decimal(
            done_count,
        ) + " completed\n\n<details><summary><strong>\n    CLICK TO EXPAND Show all "@ + decimal(
            done_count,
        ) + " triaged and resolved issues\n  </strong></summary>\n\n"@ + done
            + "\n\n</details>\n\n\n"@
    }
}

/// Reads a checklist and reports on it: what is left to do, and apart from it
/// what is done.
pub fn reformat(text: String) -> (report: String)
    ensures
        report@ == report_text(parse_tokens(tokens_of_text(text@))),
{
    let document = match parse(tokenize(text)) {
        Ok(document) => document,
        Err(_) => {
            return String::new();
        },
    };
    let (todo, done) = partition_completed(document);
    let todo_count = todo.count_issues();
    let done_count = done.count_issues();
    let todo_text = crate::writer::write(&todo);
    let done_text = crate::writer::write(&done);
    let mut report = String::from_str("\n");
    report.append(todo_text.as_str());
    if todo_count == 0 || done_count == 0 {
        report.append("\n");
        report.append(done_text.as_str());
        report.append("\n\n");
    } else {
        report.append("\n\n---\n## ");
        push_decimal(&mut report, todo_count as u128);
        report.append(" remaining, ");
        push_decimal(&mut report, done_count as u128);
        report.append(" completed\n\n<details><summary><strong>\n    CLICK TO EXPAND Show all ");
        push_decimal(&mut report, done_count as u128);
        report.append(" triaged and resolved issues\n  </strong></summary>\n\n");
        report.append(done_text.as_str());
        report.append("\n\n</details>\n\n\n");
    }
    report
}

/// The ids of the items `issues`, in order.
pub open spec fn issue_ids(issues: Seq<IssueView>) -> Seq<Seq<char>> {
    Seq::new(issues.len(), |i: int| issues[i].source.id)
}

/// The ids of all items of `r`: section by section, and within each section
/// in the order of its items.
pub open spec fn report_ids(r: Seq<EntryView>) -> Seq<Seq<char>>
    decreases r.len(),
{
    if r.len() == 0 {
        Seq::empty()
    } else {
        report_ids(r.drop_last()) + issue_ids(r.last().section.children)
    }
}

/// Reads a checklist and lists the ids of its complete items: section by
/// section in the order of the sections' names, and within each section in
/// the order of its items.
pub fn completed_ids(text: String) -> (ids: Vec<String>)
    ensures
        texts(ids@) == report_ids(
            done_part(parse_tokens(tokens_of_text(text@))).report,
        ),
{
    let document = match parse(tokenize(text)) {
        Ok(document) => document,
        Err(_) => {
            return Vec::new();
        },
    };
    let ghost source = done_part(document@).report;
    let (_, done) = partition_completed(document);
    let entries = done.report.into_entries();
    let mut ids: Vec<String> = Vec::new();
    proof {
        assert(source.take(0) =~= Seq::<EntryView>::empty());
        assert(texts(ids@) =~= Seq::<Seq<char>>::empty());
    }
    for entry in it: entries
        invariant
            it.seq() == entries@,
            source == entry_views(entries@),
            texts(ids@) == report_ids(source.take(it.index() as int)),
    {
        let ghost idx = it.index() as int;
        let ghost before = texts(ids@);
        let ghost children = issue_views(entry.section.children@);
        proof {
            assert(source.take(idx + 1).drop_last() =~= source.take(idx));
            assert(source.take(idx + 1).last() == entry@);
            assert(issue_ids(children).take(0) =~= Seq::<Seq<char>>::empty());
            assert(before + Seq::<Seq<char>>::empty() =~= before);
        }
        for issue in inner: entry.section.children
            invariant
                inner.seq() == entry.section.children@,
                children == issue_views(entry.section.children@),
                texts(ids@) == before + issue_ids(children).take(
                    inner.index() as int,
                ),
        {
            let ghost j = inner.index() as int;
            let ghost old_ids = ids@;
            proof {
                assert(children[j] == issue@);
            }
            ids.push(issue.source.id);
            proof {
                assert(texts(ids@) =~= texts(old_ids).push(
                    issue@.source.id,
                ));
                assert(issue_ids(children).take(j + 1) =~= issue_ids(children).take(j).push(
                    issue@.source.id,
                ));
            }
        }
        proof {
            assert(issue_ids(children).take(children.len() as int) =~= issue_ids(children));
        }
    }
    proof {
        assert(source.take(entries@.len() as int) =~= source);
    }
    ids
}

} // verus!
