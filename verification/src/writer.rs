//! Writing a document back as text.

use crate::parse::{all_preamble, Document, DocumentView};
use crate::report::{
    ascending, entry_views, law_report_is_its_sections, lemma_lookup_put, lemma_put_ascending,
    lookup, put, EntryView, SectionView,
};
use crate::tokenize::{
    header_text, issue_text, push_header_text, push_issue_text, token_text, token_views, HeaderView,
    IssueView, Token, TokenView,
};
use vstd::prelude::*;
use vstd::string::StringExecFns;

verus! {

/// The text made of `lines`, each followed by a line feed.
pub open spec fn render_lines(lines: Seq<Seq<char>>) -> Seq<char>
    decreases lines.len(),
{
    if lines.len() == 0 {
        Seq::empty()
    } else {
        render_lines(lines.drop_last()) + lines.last() + seq!['\n']
    }
}

/// The lines of the items `issues`.
pub open spec fn issue_lines(issues: Seq<IssueView>) -> Seq<Seq<char>> {
    Seq::new(issues.len(), |i: int| issue_text(issues[i]))
}

/// The header of a section as it is written: with the number of the
/// section's items as its count, whatever count the header holds.
pub open spec fn written_header(s: SectionView) -> HeaderView {
    HeaderView {
        package: s.header.package,
        issue_count: s.children.len() as int,
        notes: s.header.notes,
    }
}

/// The lines of a section: its header as it is written, its items in order,
/// and an empty line.
pub open spec fn section_lines(s: SectionView) -> Seq<Seq<char>> {
    seq![header_text(written_header(s))] + issue_lines(s.children) + seq![Seq::<char>::empty()]
}

/// The lines of the sections of `r`, in their order.
pub open spec fn report_lines(r: Seq<EntryView>) -> Seq<Seq<char>>
    decreases r.len(),
{
    if r.len() == 0 {
        Seq::empty()
    } else {
        report_lines(r.drop_last()) + section_lines(r.last().section)
    }
}

/// The lines of the tokens `tokens`.
pub open spec fn token_lines(tokens: Seq<TokenView>) -> Seq<Seq<char>> {
    Seq::new(tokens.len(), |i: int| token_text(tokens[i]))
}

/// The lines of a document: its preamble, then its sections in their order,
/// which in a well-formed report is the dictionary order of their names.
pub open spec fn document_lines(d: DocumentView) -> Seq<Seq<char>> {
    token_lines(d.preamble) + report_lines(d.report)
}

/// The text of a document.
pub open spec fn document_text(d: DocumentView) -> Seq<char> {
    render_lines(document_lines(d))
}

/// Appending a line to the lines appends it, and a line feed, to the text.
pub proof fn lemma_render_push(lines: Seq<Seq<char>>, line: Seq<char>)
    ensures
        render_lines(lines.push(line)) == render_lines(lines) + line + seq!['\n'],
{
    assert(lines.push(line).drop_last() =~= lines);
}

/// Writes a document as text.
///
/// Each line of the preamble is written as it is. Then each section follows,
/// in the order of the sections' names: its header line, showing the number
/// of the section's items, then the lines of its items, then an empty line.
/// Every line ends with a line feed.
pub fn write(input: &Document) -> (text: String)
    requires
        all_preamble(input@.preamble),
    ensures
        text@ == document_text(input@),
{
    let mut out = String::new();
    let ghost mut lines: Seq<Seq<char>> = Seq::empty();
    let ghost preamble = input@.preamble;
    let mut i: usize = 0;
    proof {
        assert(token_lines(preamble).take(0) =~= lines);
    }
    while i < input.preamble.len()
        invariant
            i <= input.preamble.len(),
            preamble == token_views(input.preamble@),
            all_preamble(preamble),
            lines == token_lines(preamble).take(i as int),
            out@ == render_lines(lines),
        decreases input.preamble.len() - i,
    {
        proof {
            assert(preamble[i as int] is Preamble);
            assert(preamble[i as int] == input.preamble@[i as int]@);
            lemma_render_push(lines, token_text(preamble[i as int]));
            assert(token_lines(preamble).take(i + 1) =~= lines.push(
                token_text(preamble[i as int]),
            ));
        }
        match &input.preamble[i] {
            Token::Preamble(line) => {
                out.append(line.as_str());
            },
            _ => {},
        }
        out.push('\n');
        proof {
            lines = lines.push(token_text(preamble[i as int]));
            assert(out@ =~= render_lines(lines));
        }
        i += 1;
    }
    proof {
        assert(token_lines(preamble).take(input.preamble.len() as int) =~= token_lines(preamble));
    }
    let entries = input.report.entries();
    let ghost r = input@.report;
    let mut k: usize = 0;
    proof {
        assert(r.take(0) =~= Seq::<EntryView>::empty());
        assert(lines + Seq::<Seq<char>>::empty() =~= lines);
    }
    while k < entries.len()
        invariant
            k <= entries.len(),
            r == entry_views(entries@),
            lines == token_lines(preamble) + report_lines(r.take(k as int)),
            out@ == render_lines(lines),
        decreases entries.len() - k,
    {
        let section = &entries[k].section;
        let ghost s = section@;
        let ghost before = lines;
        proof {
            assert(r.take(k + 1).drop_last() =~= r.take(k as int));
            assert(r.take(k + 1).last().section == s);
            lemma_render_push(lines, header_text(written_header(s)));
        }
        push_header_text(
            &mut out,
            section.header.package.as_str(),
            section.children.len() as i128,
            &section.header.notes,
        );
        out.push('\n');
        proof {
            lines = lines.push(header_text(written_header(s)));
            assert(out@ =~= render_lines(lines));
            assert(issue_lines(s.children).take(0) =~= Seq::<Seq<char>>::empty());
            assert(lines =~= before + (seq![header_text(written_header(s))] + issue_lines(
                s.children,
            ).take(0)));
        }
        let mut j: usize = 0;
        while j < section.children.len()
            invariant
                j <= section.children.len(),
                s == section@,
                lines == before + (seq![header_text(written_header(s))] + issue_lines(
                    s.children,
                ).take(j as int)),
                out@ == render_lines(lines),
            decreases section.children.len() - j,
        {
            let ghost line = issue_text(s.children[j as int]);
            proof {
                assert(s.children[j as int] == section.children@[j as int]@);
                lemma_render_push(lines, line);
                assert(issue_lines(s.children).take(j + 1) =~= issue_lines(s.children).take(
                    j as int,
                ).push(line));
            }
            push_issue_text(&mut out, &section.children[j]);
            out.push('\n');
            proof {
                lines = lines.push(line);
                assert(out@ =~= render_lines(lines));
                assert(lines =~= before + (seq![header_text(written_header(s))] + issue_lines(
                    s.children,
                ).take(j + 1)));
            }
            j += 1;
        }
        proof {
            assert(issue_lines(s.children).take(section.children.len() as int) =~= issue_lines(
                s.children,
            ));
            lemma_render_push(lines, Seq::<char>::empty());
        }
        out.push('\n');
        proof {
            lines = lines.push(Seq::<char>::empty());
            assert(out@ =~= render_lines(lines));
            assert(lines =~= token_lines(preamble) + report_lines(r.take(k + 1)));
        }
        k += 1;
    }
    proof {
        assert(r.take(entries.len() as int) =~= r);
    }
    out
}

/// The text of a document does not depend on how its sections came to be
/// stored: two well-formed documents with the same preamble and with the same
/// section under every name have the same text.
pub proof fn law_text_ignores_storage_order(a: DocumentView, b: DocumentView)
    requires
        ascending(a.report),
        ascending(b.report),
        a.preamble == b.preamble,
        forall|key: Seq<char>| lookup(a.report, key) == lookup(b.report, key),
    ensures
        document_text(a) == document_text(b),
{
    law_report_is_its_sections(a.report, b.report);
}

/// Sections put under different names give the same report, and so the same
/// text, whichever is put first.
pub proof fn law_put_order_is_irrelevant(
    r: Seq<EntryView>,
    first: EntryView,
    second: EntryView,
)
    requires
        ascending(r),
        first.key != second.key,
    ensures
        put(put(r, first.key, first.section), second.key, second.section) == put(
            put(r, second.key, second.section),
            first.key,
            first.section,
        ),
{
    let a1 = put(r, first.key, first.section);
    let a2 = put(a1, second.key, second.section);
    let b1 = put(r, second.key, second.section);
    let b2 = put(b1, first.key, first.section);
    lemma_put_ascending(r, first.key, first.section);
    lemma_put_ascending(a1, second.key, second.section);
    lemma_put_ascending(r, second.key, second.section);
    lemma_put_ascending(b1, first.key, first.section);
    assert forall|key: Seq<char>| lookup(a2, key) == lookup(b2, key) by {
        lemma_lookup_put(r, first.key, first.section, key);
        lemma_lookup_put(a1, second.key, second.section, key);
        lemma_lookup_put(r, second.key, second.section, key);
        lemma_lookup_put(b1, first.key, first.section, key);
    }
    law_report_is_its_sections(a2, b2);
}

} // verus!
