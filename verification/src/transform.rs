//! Reorganising a document: splitting it by what is done, and gathering its
//! small sections into one.

use crate::parse::{Document, DocumentView};
use crate::report::{
    add_issues, ascending, entry_views, has_key, lemma_add_issues, lemma_lookup_drop_last,
    lemma_lookup_put, lemma_put_ascending, lemma_rank, lemma_rank_is_rank, lemma_rank_of_present,
    lemma_rank_same_keys, lemma_total_change, lookup, put, put_if_absent, rank, total_issues,
    with_issues, Entry, EntryView, Report, Section, SectionView,
};
use crate::text::lex_less;
use crate::tokenize::{issue_views, token_views, Header, HeaderView, Issue, IssueView, TokenView};
use vstd::prelude::*;
use vstd::string::StringExecFns;

verus! {

/// The items of `issues` that are complete, or those that are not, in their
/// order.
pub open spec fn issues_where(issues: Seq<IssueView>, complete: bool) -> Seq<IssueView>
    decreases issues.len(),
{
    if issues.len() == 0 {
        Seq::empty()
    } else if issues.last().complete == complete {
        issues_where(issues.drop_last(), complete).push(issues.last())
    } else {
        issues_where(issues.drop_last(), complete)
    }
}

/// A number of items as a header's count: the number itself, but never beyond
/// the largest `i32`.
pub open spec fn saturated(n: nat) -> int {
    if n <= i32::MAX {
        n as int
    } else {
        i32::MAX as int
    }
}

/// The part of a section that is complete, or the part that is not: the
/// section's header with the count of that part, and that part's items.
pub open spec fn section_part(s: SectionView, complete: bool) -> SectionView {
    SectionView {
        header: HeaderView {
            package: s.header.package,
            issue_count: saturated(issues_where(s.children, complete).len()),
            notes: s.header.notes,
        },
        children: issues_where(s.children, complete),
    }
}

/// The part of a report that is complete, or the part that is not: of each
/// section that part, under the section's name, unless that part is empty.
pub open spec fn report_part(r: Seq<EntryView>, complete: bool) -> Seq<EntryView>
    decreases r.len(),
{
    if r.len() == 0 {
        Seq::empty()
    } else if issues_where(r.last().section.children, complete).len() > 0 {
        report_part(r.drop_last(), complete).push(
            EntryView { key: r.last().key, section: section_part(r.last().section, complete) },
        )
    } else {
        report_part(r.drop_last(), complete)
    }
}

/// What is left to do of a document: its preamble, and the part of its
/// report that is not complete.
pub open spec fn todo_part(d: DocumentView) -> DocumentView {
    DocumentView { preamble: d.preamble, report: report_part(d.report, false) }
}

/// What is done of a document: no preamble, and the part of its report that
/// is complete.
pub open spec fn done_part(d: DocumentView) -> DocumentView {
    DocumentView { preamble: Seq::empty(), report: report_part(d.report, true) }
}

/// Every key of a part of `r` is a key of `r`.
pub proof fn lemma_report_part_keys(r: Seq<EntryView>, complete: bool)
    ensures
        forall|x: int|
            0 <= x < report_part(r, complete).len() ==> exists|j: int|
                0 <= j < r.len() && r[j].key == #[trigger] report_part(r, complete)[x].key,
        report_part(r, complete).len() <= r.len(),
    decreases r.len(),
{
    if r.len() > 0 {
        let init = r.drop_last();
        lemma_report_part_keys(init, complete);
        let part = report_part(r, complete);
        assert forall|x: int| 0 <= x < part.len() implies exists|j: int|
            0 <= j < r.len() && r[j].key == #[trigger] part[x].key by {
            if x < report_part(init, complete).len() {
                let j = choose|j: int|
                    0 <= j < init.len() && init[j].key == report_part(init, complete)[x].key;
                assert(r[j].key == part[x].key);
            } else {
                assert(r[r.len() - 1].key == part[x].key);
            }
        }
    }
}

/// Splits a vector of items into those that are not complete and those that
/// are, each in their order.
fn split_issues(issues: Vec<Issue>) -> (r: (Vec<Issue>, Vec<Issue>))
    ensures
        issue_views(r.0@) == issues_where(issue_views(issues@), false),
        issue_views(r.1@) == issues_where(issue_views(issues@), true),
{
    let mut open: Vec<Issue> = Vec::new();
    let mut closed: Vec<Issue> = Vec::new();
    let ghost views = issue_views(issues@);
    proof {
        assert(views.take(0) =~= Seq::<IssueView>::empty());
        assert(issue_views(open@) =~= Seq::<IssueView>::empty());
        assert(issue_views(closed@) =~= Seq::<IssueView>::empty());
    }
    for issue in it: issues
        invariant
            it.seq() == issues@,
            views == issue_views(issues@),
            issue_views(open@) == issues_where(views.take(it.index() as int), false),
            issue_views(closed@) == issues_where(views.take(it.index() as int), true),
    {
        let ghost idx = it.index() as int;
        let ghost old_open = open@;
        let ghost old_closed = closed@;
        proof {
            assert(views.take(idx + 1).drop_last() =~= views.take(idx));
            assert(views.take(idx + 1).last() == issue@);
        }
        if issue.complete {
            closed.push(issue);
            proof {
                assert(issue_views(closed@) =~= issue_views(old_closed).push(issue@));
            }
        } else {
            open.push(issue);
            proof {
                assert(issue_views(open@) =~= issue_views(old_open).push(issue@));
            }
        }
    }
    proof {
        assert(views.take(issues@.len() as int) =~= views);
    }
    (open, closed)
}

/// A number of items as a header's count.
fn count_of(n: usize) -> (count: i32)
    ensures
        count == saturated(n as nat),
{
    if n > 0x7fff_ffff {
        i32::MAX
    } else {
        n as i32
    }
}

/// Puts a section at the end of a report whose names all come before `key`.
fn push_section(report: &mut Report, key: String, section: Section)
    requires
        old(report).wf(),
        forall|x: int| 0 <= x < old(report)@.len() ==> lex_less(#[trigger] old(report)@[x].key, key@),
    ensures
        final(report)@ == old(report)@.push(EntryView { key: key@, section: section@ }),
        final(report).wf(),
{
    proof {
        lemma_rank(old(report)@, key@, old(report)@.len() as int);
        lemma_put_ascending(old(report)@, key@, section@);
    }
    report.insert(key, section);
    proof {
        assert(report@ =~= old(report)@.push(EntryView { key: key@, section: section@ }));
    }
}

/// Splits a document into what is left to do and what is done.
///
/// The first document has the preamble and, of each section, the items that
/// are not complete; the second has no preamble and, of each section, the
/// items that are complete. Items keep their order. Each part of a section
/// has the section's name and header, with the count of its own items; a
/// part without items is left out.
pub fn partition_completed(src: Document) -> (r: (Document, Document))
    requires
        src.report.wf(),
    ensures
        r.0@ == todo_part(src@),
        r.1@ == done_part(src@),
        r.0.report.wf(),
        r.1.report.wf(),
        src.wf() ==> r.0.wf() && r.1.wf(),
{
    let ghost source = src@.report;
    let mut todo = Document { preamble: src.preamble, report: Report::new() };
    let mut done = Document { preamble: Vec::new(), report: Report::new() };
    let entries = src.report.into_entries();
    proof {
        assert(source.take(0) =~= Seq::<EntryView>::empty());
        assert(token_views(done.preamble@) =~= Seq::<TokenView>::empty());
    }
    for entry in it: entries
        invariant
            it.seq() == entries@,
            source == entry_views(entries@),
            ascending(source),
            todo@.preamble == src@.preamble,
            done@.preamble == Seq::<TokenView>::empty(),
            todo.report@ == report_part(source.take(it.index() as int), false),
            done.report@ == report_part(source.take(it.index() as int), true),
            todo.report.wf(),
            done.report.wf(),
    {
        let ghost idx = it.index() as int;
        let ghost before = source.take(idx);
        proof {
            assert(source.take(idx + 1).drop_last() =~= before);
            assert(source.take(idx + 1).last() == entry@);
            lemma_report_part_keys(before, false);
            lemma_report_part_keys(before, true);
            assert forall|x: int| 0 <= x < todo.report@.len() implies lex_less(
                #[trigger] todo.report@[x].key,
                entry.key@,
            ) by {
                let j = choose|j: int| 0 <= j < before.len() && before[j].key == todo.report@[x].key;
                assert(lex_less(source[j].key, source[idx].key));
            }
            assert forall|x: int| 0 <= x < done.report@.len() implies lex_less(
                #[trigger] done.report@[x].key,
                entry.key@,
            ) by {
                let j = choose|j: int| 0 <= j < before.len() && before[j].key == done.report@[x].key;
                assert(lex_less(source[j].key, source[idx].key));
            }
        }
        let Entry { key, section } = entry;
        let Section { header, children } = section;
        let (open, closed) = split_issues(children);
        if open.len() > 0 {
            let part = Section {
                header: Header {
                    package: header.package.clone(),
                    issue_count: count_of(open.len()),
                    notes: header.notes.clone(),
                },
                children: open,
            };
            push_section(&mut todo.report, key.clone(), part);
        }
        if closed.len() > 0 {
            let part = Section {
                header: Header {
                    package: header.package,
                    issue_count: count_of(closed.len()),
                    notes: header.notes,
                },
                children: closed,
            };
            push_section(&mut done.report, key, part);
        }
    }
    proof {
        assert(source.take(entries@.len() as int) =~= source);
    }
    (todo, done)
}

/// `Assorted`, the name of the section that small sections are gathered in.
pub open spec fn assorted() -> Seq<char> {
    seq!['A', 's', 's', 'o', 'r', 't', 'e', 'd']
}

/// The section that gathering begins with: named `Assorted`, without notes
/// and without items.
pub open spec fn assorted_section() -> SectionView {
    SectionView {
        header: HeaderView { package: assorted(), issue_count: 0, notes: None },
        children: Seq::empty(),
    }
}

/// What one section does to the report that is being gathered.
///
/// A section with more than one item is put under the package name of its own
/// header, in place of what stood there. The items of any other section join
/// the section under `Assorted`, which is opened first if it is not there.
pub open spec fn collapse_step(out: Seq<EntryView>, e: EntryView) -> Seq<EntryView> {
    if e.section.children.len() > 1 {
        put(out, e.section.header.package, e.section)
    } else {
        add_issues(
            put_if_absent(out, assorted(), assorted_section()),
            rank(out, assorted()),
            e.section.children,
        )
    }
}

/// The report gathered from the sections of `r`, taken in their order.
pub open spec fn collapse_report(r: Seq<EntryView>) -> Seq<EntryView>
    decreases r.len(),
{
    if r.len() == 0 {
        Seq::empty()
    } else {
        collapse_step(collapse_report(r.drop_last()), r.last())
    }
}

/// The document with its small sections gathered: the same preamble, and the
/// gathered report.
pub open spec fn collapsed(d: DocumentView) -> DocumentView {
    DocumentView { preamble: d.preamble, report: collapse_report(d.report) }
}

/// Adds the items `issues`, in order, to the section at position `at`.
fn push_issues(report: &mut Report, at: usize, issues: Vec<Issue>)
    requires
        at < old(report)@.len(),
    ensures
        final(report)@ == add_issues(old(report)@, at as int, issue_views(issues@)),
        old(report).wf() ==> final(report).wf(),
        final(report)@.len() == old(report)@.len(),
{
    let ghost views = issue_views(issues@);
    proof {
        assert(views.take(0) =~= Seq::<IssueView>::empty());
    }
    for issue in it: issues
        invariant
            it.seq() == issues@,
            views == issue_views(issues@),
            at < report@.len(),
            report@.len() == old(report)@.len(),
            report@ == add_issues(old(report)@, at as int, views.take(it.index() as int)),
            old(report).wf() ==> report.wf(),
    {
        let ghost idx = it.index() as int;
        proof {
            assert(views.take(idx + 1).drop_last() =~= views.take(idx));
            assert(views.take(idx + 1).last() == issue@);
        }
        report.push_issue(at, issue);
    }
    proof {
        assert(views.take(issues@.len() as int) =~= views);
    }
}

/// Gathers the small sections of a document into one.
///
/// The preamble stays. The sections are taken in the order of their names. A
/// section with more than one item is kept, under the package name of its own
/// header. The items of a section with one item or none join, in order, the
/// section named `Assorted`, which has no notes; its count goes up by one
/// with each item.
pub fn collapse_anemic(src: Document) -> (r: Document)
    ensures
        r@ == collapsed(src@),
        r.report.wf(),
        src.wf() ==> r.wf(),
{
    let ghost source = src@.report;
    let mut out = Document { preamble: src.preamble, report: Report::new() };
    let entries = src.report.into_entries();
    proof {
        reveal_strlit("Assorted");
        assert("Assorted"@ =~= assorted());
        assert(source.take(0) =~= Seq::<EntryView>::empty());
    }
    for entry in it: entries
        invariant
            it.seq() == entries@,
            source == entry_views(entries@),
            "Assorted"@ == assorted(),
            out@.preamble == src@.preamble,
            out.report@ == collapse_report(source.take(it.index() as int)),
            out.report.wf(),
    {
        let ghost idx = it.index() as int;
        proof {
            assert(source.take(idx + 1).drop_last() =~= source.take(idx));
            assert(source.take(idx + 1).last() == entry@);
        }
        let section = entry.section;
        if section.children.len() > 1 {
            let key = section.header.package.clone();
            out.report.insert(key, section);
        } else {
            let gathered = Section {
                header: Header {
                    package: String::from_str("Assorted"),
                    issue_count: 0,
                    notes: None,
                },
                children: Vec::new(),
            };
            proof {
                assert(gathered@.children =~= Seq::<IssueView>::empty());
            }
            let at = out.report.or_insert(String::from_str("Assorted"), gathered);
            push_issues(&mut out.report, at, section.children);
        }
    }
    proof {
        assert(source.take(entries@.len() as int) =~= source);
    }
    out
}

/// The part of a section as `partition_completed` keeps it: none if the part
/// has no items.
pub open spec fn part_or_none(s: SectionView, complete: bool) -> Option<SectionView> {
    if issues_where(s.children, complete).len() > 0 {
        Some(section_part(s, complete))
    } else {
        None
    }
}

/// The two parts of a list of items split it: each item is in the part that
/// its flag names and in no other, and the parts are together as long as the
/// list.
pub proof fn law_issues_split(issues: Seq<IssueView>)
    ensures
        issues_where(issues, false).len() + issues_where(issues, true).len() == issues.len(),
        forall|complete: bool, j: int|
            0 <= j < issues_where(issues, complete).len() ==> #[trigger] issues_where(
                issues,
                complete,
            )[j].complete == complete,
        forall|j: int|
            0 <= j < issues.len() ==> issues_where(issues, issues[j].complete).contains(
                #[trigger] issues[j],
            ),
    decreases issues.len(),
{
    if issues.len() > 0 {
        let init = issues.drop_last();
        let last = issues.last();
        law_issues_split(init);
        assert forall|complete: bool, j: int|
            0 <= j < issues_where(issues, complete).len() implies #[trigger] issues_where(
            issues,
            complete,
        )[j].complete == complete by {
            if j < issues_where(init, complete).len() {
                assert(issues_where(issues, complete)[j] == issues_where(init, complete)[j]);
            }
        }
        assert forall|j: int| 0 <= j < issues.len() implies issues_where(
            issues,
            issues[j].complete,
        ).contains(#[trigger] issues[j]) by {
            let flag = issues[j].complete;
            if j < init.len() {
                assert(init[j] == issues[j]);
                let x = choose|x: int|
                    0 <= x < issues_where(init, flag).len() && issues_where(init, flag)[x]
                        == init[j];
                assert(issues_where(issues, flag)[x] == issues[j]);
            } else {
                assert(issues_where(issues, flag)[issues_where(init, flag).len() as int]
                    == issues[j]);
            }
        }
    }
}

/// A part of an ascending report is ascending, and holds of each section of
/// the report its part, under the section's name, and nothing else.
pub proof fn lemma_report_part(r: Seq<EntryView>, complete: bool)
    requires
        ascending(r),
    ensures
        ascending(report_part(r, complete)),
        forall|key: Seq<char>|
            #![trigger lookup(report_part(r, complete), key)]
            lookup(report_part(r, complete), key) == (match lookup(r, key) {
                Some(s) => part_or_none(s, complete),
                None => None,
            }),
    decreases r.len(),
{
    let part = report_part(r, complete);
    if r.len() == 0 {
        assert forall|key: Seq<char>|
            #![trigger lookup(part, key)]
            lookup(part, key) == (match lookup(r, key) {
                Some(s) => part_or_none(s, complete),
                None => None,
            }) by {
            lemma_rank_is_rank(part, key);
            lemma_rank_is_rank(r, key);
        }
    } else {
        let init = r.drop_last();
        let last = r.last();
        assert(ascending(init)) by {
            assert forall|i: int, j: int| 0 <= i < j < init.len() implies lex_less(
                #[trigger] init[i].key,
                #[trigger] init[j].key,
            ) by {
                assert(init[i] == r[i] && init[j] == r[j]);
            }
        }
        lemma_report_part(init, complete);
        lemma_report_part_keys(init, complete);
        let before = report_part(init, complete);
        assert forall|x: int| 0 <= x < before.len() implies lex_less(
            #[trigger] before[x].key,
            last.key,
        ) by {
            let j = choose|j: int| 0 <= j < init.len() && init[j].key == before[x].key;
            assert(lex_less(r[j].key, r[r.len() - 1].key));
        }
        lemma_rank(before, last.key, before.len() as int);
        let section = section_part(last.section, complete);
        lemma_put_ascending(before, last.key, section);
        if issues_where(last.section.children, complete).len() > 0 {
            assert(part =~= put(before, last.key, section));
        }
        assert forall|key: Seq<char>|
            #![trigger lookup(part, key)]
            lookup(part, key) == (match lookup(r, key) {
                Some(s) => part_or_none(s, complete),
                None => None,
            }) by {
            lemma_lookup_drop_last(r, key);
            lemma_lookup_put(before, last.key, section, key);
            lemma_rank_of_present(r, r.len() - 1);
        }
    }
}

/// A part of a report has as many items as the sections of the report have
/// in that part.
pub proof fn lemma_report_part_total(r: Seq<EntryView>)
    ensures
        total_issues(report_part(r, false)) + total_issues(report_part(r, true)) == total_issues(
            r,
        ),
    decreases r.len(),
{
    if r.len() > 0 {
        let init = r.drop_last();
        lemma_report_part_total(init);
        law_issues_split(r.last().section.children);
        let open = report_part(r, false);
        let closed = report_part(r, true);
        if issues_where(r.last().section.children, false).len() > 0 {
            assert(open.drop_last() =~= report_part(init, false));
        }
        if issues_where(r.last().section.children, true).len() > 0 {
            assert(closed.drop_last() =~= report_part(init, true));
        }
    }
}

/// `partition_completed` splits a document in two: both parts are well
/// formed; under each name of the document the first part holds exactly the
/// section's items that are not complete and the second exactly those that
/// are, in their order, where there are any; neither part holds anything
/// else; and the two parts have together as many items as the document.
pub proof fn law_partition_is_a_split(d: DocumentView)
    requires
        ascending(d.report),
    ensures
        ascending(todo_part(d).report),
        ascending(done_part(d).report),
        forall|key: Seq<char>|
            #![trigger lookup(todo_part(d).report, key)]
            lookup(todo_part(d).report, key) == (match lookup(d.report, key) {
                Some(s) => part_or_none(s, false),
                None => None,
            }),
        forall|key: Seq<char>|
            #![trigger lookup(done_part(d).report, key)]
            lookup(done_part(d).report, key) == (match lookup(d.report, key) {
                Some(s) => part_or_none(s, true),
                None => None,
            }),
        total_issues(todo_part(d).report) + total_issues(done_part(d).report) == total_issues(
            d.report,
        ),
{
    lemma_report_part(d.report, false);
    lemma_report_part(d.report, true);
    lemma_report_part_total(d.report);
}

/// Whether a section has more than one item, so that `collapse_anemic`
/// keeps it.
pub open spec fn is_big(e: EntryView) -> bool {
    e.section.children.len() > 1
}

/// Whether `r` has a section with one item or none.
pub open spec fn has_small(r: Seq<EntryView>) -> bool {
    exists|i: int| 0 <= i < r.len() && !is_big(#[trigger] r[i])
}

/// Whether `r` has a section with more than one item whose header names the
/// package `name`.
pub open spec fn big_named(r: Seq<EntryView>, name: Seq<char>) -> bool {
    exists|i: int| 0 <= i < r.len() && is_big(#[trigger] r[i]) && r[i].section.header.package == name
}

/// The items of the sections of `r` that have one item or none, in the order
/// of the sections.
pub open spec fn small_issues(r: Seq<EntryView>) -> Seq<IssueView>
    decreases r.len(),
{
    if r.len() == 0 {
        Seq::empty()
    } else if is_big(r.last()) {
        small_issues(r.drop_last())
    } else {
        small_issues(r.drop_last()) + r.last().section.children
    }
}

/// The section named `Assorted` that holds the items `issues`.
pub open spec fn gathered(issues: Seq<IssueView>) -> SectionView {
    SectionView {
        header: HeaderView {
            package: assorted(),
            issue_count: saturated(issues.len()),
            notes: None,
        },
        children: issues,
    }
}

/// The reports in which gathering loses nothing: no two sections with more
/// than one item have headers that name the same package, and if such a
/// section's header names `Assorted`, the sections with one item or none
/// have none.
pub open spec fn collapsible(r: Seq<EntryView>) -> bool {
    &&& forall|i: int, j: int|
        0 <= i < j < r.len() && is_big(#[trigger] r[i]) && is_big(#[trigger] r[j])
            ==> r[i].section.header.package != r[j].section.header.package
    &&& big_named(r, assorted()) ==> forall|j: int|
        0 <= j < r.len() && !is_big(#[trigger] r[j]) ==> r[j].section.children.len() == 0
}

/// What gathering makes of a report in which it loses nothing: an ascending
/// report with as many items; each section with more than one item under the
/// package name of its header, as it was; the items of the other sections
/// under `Assorted`, in the order of their sections; and nothing else.
pub open spec fn collapse_facts(r: Seq<EntryView>) -> bool {
    let c = collapse_report(r);
    &&& ascending(c)
    &&& total_issues(c) == total_issues(r)
    &&& forall|i: int|
        0 <= i < r.len() && is_big(#[trigger] r[i]) ==> lookup(c, r[i].section.header.package)
            == Some(r[i].section)
    &&& !big_named(r, assorted()) && has_small(r) ==> lookup(c, assorted()) == Some(
        gathered(small_issues(r)),
    )
    &&& forall|key: Seq<char>|
        #![trigger lookup(c, key)]
        lookup(c, key) is Some ==> big_named(r, key) || (key == assorted() && has_small(r))
}

/// Sections without items have no items to gather.
pub proof fn lemma_small_issues_empty(r: Seq<EntryView>)
    requires
        forall|j: int|
            0 <= j < r.len() && !is_big(#[trigger] r[j]) ==> r[j].section.children.len() == 0,
    ensures
        small_issues(r) == Seq::<IssueView>::empty(),
    decreases r.len(),
{
    if r.len() > 0 {
        let init = r.drop_last();
        assert forall|j: int| 0 <= j < init.len() && !is_big(#[trigger] init[j])
            implies init[j].section.children.len() == 0 by {
            assert(init[j] == r[j]);
        }
        lemma_small_issues_empty(init);
        assert(r.last() == r[r.len() - 1]);
        if !is_big(r.last()) {
            assert(small_issues(init) + r.last().section.children =~= Seq::<IssueView>::empty());
        }
    }
}

/// Adding items to the gathered section gives the gathered section of all the
/// items.
pub proof fn lemma_gathered_with(have: Seq<IssueView>, more: Seq<IssueView>)
    ensures
        with_issues(gathered(have), more) == gathered(have + more),
    decreases more.len(),
{
    if more.len() == 0 {
        assert(have + more =~= have);
    } else {
        lemma_gathered_with(have, more.drop_last());
        assert((have + more.drop_last()).push(more.last()) =~= have + more);
    }
}

/// The beginning of a report in which gathering loses nothing is such a
/// report.
pub proof fn lemma_collapsible_prefix(r: Seq<EntryView>)
    requires
        collapsible(r),
        r.len() > 0,
    ensures
        collapsible(r.drop_last()),
        forall|key: Seq<char>| big_named(r.drop_last(), key) ==> big_named(r, key),
        has_small(r.drop_last()) ==> has_small(r),
{
    let init = r.drop_last();
    assert forall|key: Seq<char>| big_named(init, key) implies big_named(r, key) by {
        let i = choose|i: int|
            0 <= i < init.len() && is_big(#[trigger] init[i]) && init[i].section.header.package
                == key;
        assert(r[i] == init[i]);
    }
    if has_small(init) {
        let i = choose|i: int| 0 <= i < init.len() && !is_big(#[trigger] init[i]);
        assert(r[i] == init[i]);
    }
    assert forall|i: int, j: int|
        0 <= i < j < init.len() && is_big(#[trigger] init[i]) && is_big(
            #[trigger] init[j],
        ) implies init[i].section.header.package != init[j].section.header.package by {
        assert(init[i] == r[i] && init[j] == r[j]);
    }
    if big_named(init, assorted()) {
        assert forall|j: int| 0 <= j < init.len() && !is_big(#[trigger] init[j])
            implies init[j].section.children.len() == 0 by {
            assert(init[j] == r[j]);
        }
    }
}

/// Gathering a section with more than one item keeps what `collapse_facts`
/// says.
proof fn lemma_collapse_big(r: Seq<EntryView>)
    requires
        r.len() > 0,
        is_big(r.last()),
        collapsible(r),
        collapse_facts(r.drop_last()),
    ensures
        collapse_facts(r),
{
    let init = r.drop_last();
    let e = r.last();
    let p = e.section.header.package;
    let c0 = collapse_report(init);
    let c = collapse_report(r);
    let n = r.len() - 1;
    assert(e == r[n]);
    lemma_collapsible_prefix(r);
    lemma_put_ascending(c0, p, e.section);
    lemma_rank_is_rank(c0, p);
    assert(c == put(c0, p, e.section));
    assert forall|key: Seq<char>|
        #![trigger lookup(c, key)]
        lookup(c, key) == (if key == p {
            Some(e.section)
        } else {
            lookup(c0, key)
        }) by {
        lemma_lookup_put(c0, p, e.section, key);
    }
    // No earlier section with more than one item has the same package name.
    assert(!big_named(init, p)) by {
        if big_named(init, p) {
            let i = choose|i: int|
                0 <= i < init.len() && is_big(#[trigger] init[i])
                    && init[i].section.header.package == p;
            assert(r[i] == init[i]);
            assert(is_big(r[i]) && is_big(r[n]));
        }
    }
    assert(big_named(r, p));
    // What the new section takes the place of has no items.
    assert(total_issues(c) == total_issues(r)) by {
        lemma_total_change(c0, rank(c0, p), EntryView { key: p, section: e.section });
        if has_key(c0, p) {
            assert(lookup(c0, p) is Some);
            assert(p == assorted() && has_small(init));
            assert forall|j: int| 0 <= j < init.len() && !is_big(#[trigger] init[j])
                implies init[j].section.children.len() == 0 by {
                assert(init[j] == r[j]);
            }
            lemma_small_issues_empty(init);
            assert(lookup(c0, assorted()) == Some(gathered(small_issues(init))));
        }
    }
    assert forall|i: int| 0 <= i < r.len() && is_big(#[trigger] r[i]) implies lookup(
        c,
        r[i].section.header.package,
    ) == Some(r[i].section) by {
        if i < n {
            assert(init[i] == r[i]);
            assert(is_big(r[i]) && is_big(r[n]));
        }
    }
    if !big_named(r, assorted()) && has_small(r) {
        let i = choose|i: int| 0 <= i < r.len() && !is_big(#[trigger] r[i]);
        assert(init[i] == r[i]);
        assert(has_small(init));
        assert(p != assorted());
        if big_named(init, assorted()) {
            assert(big_named(r, assorted()));
        }
    }
    assert forall|key: Seq<char>|
        #![trigger lookup(c, key)]
        lookup(c, key) is Some implies big_named(r, key) || (key == assorted() && has_small(
            r,
        )) by {
        if key != p {
            assert(lookup(c0, key) is Some);
        }
    }
}

/// Gathering a section with one item or none keeps what `collapse_facts`
/// says.
proof fn lemma_collapse_small(r: Seq<EntryView>)
    requires
        r.len() > 0,
        !is_big(r.last()),
        collapsible(r),
        collapse_facts(r.drop_last()),
    ensures
        collapse_facts(r),
{
    let init = r.drop_last();
    let e = r.last();
    let c0 = collapse_report(init);
    let c1 = put_if_absent(c0, assorted(), assorted_section());
    let at = rank(c0, assorted());
    let c = collapse_report(r);
    let n = r.len() - 1;
    let more = e.section.children;
    assert(e == r[n]);
    assert(has_small(r));
    lemma_collapsible_prefix(r);
    lemma_put_ascending(c0, assorted(), assorted_section());
    lemma_rank_is_rank(c0, assorted());
    lemma_rank_is_rank(c1, assorted());
    assert(c == add_issues(c1, at, more));
    lemma_add_issues(c1, at, more);
    assert(c1[at].key == assorted());
    assert forall|key: Seq<char>|
        #![trigger lookup(c1, key)]
        lookup(c1, key) == (if key == assorted() && !has_key(c0, assorted()) {
            Some(assorted_section())
        } else {
            lookup(c0, key)
        }) by {
        lemma_lookup_put(c0, assorted(), assorted_section(), key);
    }
    assert forall|key: Seq<char>|
        #![trigger lookup(c, key)]
        lookup(c, key) == (if key == assorted() {
            Some(with_issues(c1[at].section, more))
        } else {
            lookup(c1, key)
        }) by {
        lemma_rank_same_keys(c, c1, key);
        lemma_rank_of_present(c1, at);
        lemma_rank_is_rank(c1, key);
    }
    assert(total_issues(c) == total_issues(r)) by {
        lemma_total_change(c0, at, EntryView { key: assorted(), section: assorted_section() });
    }
    // What is under `Assorted` before this section's items join it.
    let start = c1[at].section;
    assert(lookup(c1, assorted()) == Some(start)) by {
        lemma_rank_of_present(c1, at);
    }
    if big_named(r, assorted()) {
        assert(more.len() == 0);
        assert(more =~= Seq::<IssueView>::empty());
        let i = choose|i: int|
            0 <= i < r.len() && is_big(#[trigger] r[i]) && r[i].section.header.package
                == assorted();
        assert(init[i] == r[i]);
        assert(lookup(c0, assorted()) == Some(init[i].section));
    } else {
        assert(!big_named(init, assorted()));
        if has_key(c0, assorted()) {
            assert(lookup(c0, assorted()) is Some);
            assert(has_small(init));
            assert(start == gathered(small_issues(init)));
        } else {
            assert forall|j: int| 0 <= j < init.len() implies is_big(#[trigger] init[j]) by {
                if !is_big(init[j]) {
                    assert(has_small(init));
                    assert(lookup(c0, assorted()) is Some);
                }
            }
            lemma_small_issues_empty(init);
            assert(assorted_section() == gathered(small_issues(init)));
        }
        lemma_gathered_with(small_issues(init), more);
    }
    assert forall|i: int| 0 <= i < r.len() && is_big(#[trigger] r[i]) implies lookup(
        c,
        r[i].section.header.package,
    ) == Some(r[i].section) by {
        assert(init[i] == r[i]);
        assert(lookup(c0, r[i].section.header.package) == Some(init[i].section));
        if r[i].section.header.package == assorted() {
            assert(big_named(r, assorted()));
        }
    }
    assert forall|key: Seq<char>|
        #![trigger lookup(c, key)]
        lookup(c, key) is Some implies big_named(r, key) || (key == assorted() && has_small(
            r,
        )) by {
        if key != assorted() {
            assert(lookup(c0, key) is Some);
        }
    }
}

/// Gathering keeps what `collapse_facts` says of every report in which it
/// loses nothing.
pub proof fn lemma_collapse_facts(r: Seq<EntryView>)
    requires
        collapsible(r),
    ensures
        collapse_facts(r),
    decreases r.len(),
{
    if r.len() == 0 {
        let c = collapse_report(r);
        assert forall|key: Seq<char>| #![trigger lookup(c, key)] lookup(c, key) is None by {
            lemma_rank_is_rank(c, key);
        }
    } else {
        lemma_collapsible_prefix(r);
        lemma_collapse_facts(r.drop_last());
        if is_big(r.last()) {
            lemma_collapse_big(r);
        } else {
            lemma_collapse_small(r);
        }
    }
}

/// `collapse_anemic` loses nothing, on the documents in which it can: those
/// in which no two sections with more than one item have headers that name
/// the same package, and in which, if such a section's header names
/// `Assorted`, the sections with one item or none have none.
///
/// The preamble stays, and the gathered report is well formed and has as many
/// items as the document's. Each section with more than one item stands in it
/// as it was, under the package name of its header. Unless such a section is
/// named `Assorted`, the items of all other sections stand under `Assorted`,
/// in the order of their sections' names. The gathered report holds nothing
/// else.
pub proof fn law_collapse_keeps_issues(d: DocumentView)
    requires
        ascending(d.report),
        collapsible(d.report),
    ensures
        collapsed(d).preamble == d.preamble,
        ascending(collapsed(d).report),
        total_issues(collapsed(d).report) == total_issues(d.report),
        forall|i: int|
            0 <= i < d.report.len() && is_big(#[trigger] d.report[i]) ==> lookup(
                collapsed(d).report,
                d.report[i].section.header.package,
            ) == Some(d.report[i].section),
        !big_named(d.report, assorted()) && has_small(d.report) ==> lookup(
            collapsed(d).report,
            assorted(),
        ) == Some(gathered(small_issues(d.report))),
        forall|key: Seq<char>|
            #![trigger lookup(collapsed(d).report, key)]
            lookup(collapsed(d).report, key) is Some ==> big_named(d.report, key) || (key
                == assorted() && has_small(d.report)),
{
    lemma_collapse_facts(d.report);
}

} // verus!
