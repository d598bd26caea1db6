//! The checklist as a document: its preamble and its sections, and the parser
//! that builds it from tokens.

use crate::report::{
    add_issues, append_issue, ascending, capped_total, entry_views, has_key, lemma_add_issues,
    lemma_append_issue, lemma_put_ascending, lemma_rank_same_keys, put_if_absent, rank, EntryView,
    SectionView,
};
pub use crate::report::{Entry, Report, Section};
use crate::tokenize::{token_views, Header, HeaderView, IssueView, Token, TokenView};
use vstd::prelude::*;

verus! {

/// A checklist: the lines of free text that it begins with, and its sections
/// by package name.
#[derive(Debug, PartialEq)]
pub struct Document {
    pub preamble: Vec<Token>,
    pub report: Report,
}

/// A document as specifications see it: its preamble, and its sections in
/// the order of their names.
pub struct DocumentView {
    pub preamble: Seq<TokenView>,
    pub report: Seq<EntryView>,
}

impl View for Document {
    type V = DocumentView;

    open spec fn view(&self) -> DocumentView {
        DocumentView { preamble: token_views(self.preamble@), report: self.report@ }
    }
}

/// Whether every token of `tokens` is a line of preamble.
pub open spec fn all_preamble(tokens: Seq<TokenView>) -> bool {
    forall|i: int| 0 <= i < tokens.len() ==> #[trigger] tokens[i] is Preamble
}

impl Document {
    /// Whether the preamble holds preamble tokens alone and the report is
    /// well formed.
    pub open spec fn wf(&self) -> bool {
        all_preamble(self@.preamble) && self.report.wf()
    }

    /// Tests whether the preamble holds preamble tokens alone, as `write`
    /// needs it.
    pub fn preamble_is_text(&self) -> (ok: bool)
        ensures
            ok == all_preamble(self@.preamble),
    {
        let mut i: usize = 0;
        while i < self.preamble.len()
            invariant
                i <= self.preamble.len(),
                forall|j: int| 0 <= j < i ==> #[trigger] self@.preamble[j] is Preamble,
            decreases self.preamble.len() - i,
        {
            match &self.preamble[i] {
                Token::Preamble(_) => {},
                _ => {
                    proof {
                        assert(!(self@.preamble[i as int] is Preamble));
                    }
                    return false;
                },
            }
            i += 1;
        }
        true
    }

    /// The number of items in all sections together: the sum of the sections'
    /// numbers of children. Where that sum is beyond `usize`, the largest
    /// `usize`.
    pub fn count_issues(&self) -> (sum: usize)
        ensures
            sum == capped_total(self@.report),
    {
        let entries = self.report.entries();
        let ghost r = self@.report;
        let mut sum: usize = 0;
        let mut i: usize = 0;
        proof {
            assert(r.take(0) =~= Seq::<EntryView>::empty());
        }
        while i < entries.len()
            invariant
                i <= entries.len(),
                r == entry_views(entries@),
                sum == capped_total(r.take(i as int)),
            decreases entries.len() - i,
        {
            let n = entries[i].section.children.len();
            proof {
                assert(r.take(i + 1).drop_last() =~= r.take(i as int));
                assert(r.take(i + 1).last() == entries@[i as int]@);
            }
            if n > usize::MAX - sum {
                sum = usize::MAX;
            } else {
                sum = sum + n;
            }
            i += 1;
        }
        proof {
            assert(r.take(entries.len() as int) =~= r);
        }
        sum
    }
}

/// How far the parser has come: the document so far, whether the preamble is
/// still open, and the name of the section that items go to.
pub struct ParseState {
    pub doc: DocumentView,
    pub in_preamble: bool,
    pub current: Option<Seq<char>>,
}

/// The section that a header opens: the header with its count at zero, and
/// no items.
pub open spec fn fresh_section(h: HeaderView) -> SectionView {
    SectionView {
        header: HeaderView { package: h.package, issue_count: 0, notes: h.notes },
        children: Seq::empty(),
    }
}

/// The parser before the first token.
pub open spec fn parse_start() -> ParseState {
    ParseState {
        doc: DocumentView { preamble: Seq::empty(), report: Seq::empty() },
        in_preamble: true,
        current: None,
    }
}

/// What one token does to the parser.
///
/// A preamble token joins the preamble while that is open, and is passed
/// over afterwards. A header closes the preamble, opens a section under its
/// package name unless there is one already, and makes that section the one
/// that items go to. An item closes the preamble and joins the section that
/// items go to; if there is none it is passed over.
pub open spec fn parse_step(st: ParseState, t: TokenView) -> ParseState {
    match t {
        TokenView::Preamble(_) => if st.in_preamble {
            ParseState {
                doc: DocumentView { preamble: st.doc.preamble.push(t), report: st.doc.report },
                in_preamble: true,
                current: st.current,
            }
        } else {
            st
        },
        TokenView::Header(h) => ParseState {
            doc: DocumentView {
                preamble: st.doc.preamble,
                report: put_if_absent(st.doc.report, h.package, fresh_section(h)),
            },
            in_preamble: false,
            current: Some(h.package),
        },
        TokenView::Issue(i) => match st.current {
            Some(key) => ParseState {
                doc: DocumentView {
                    preamble: st.doc.preamble,
                    report: append_issue(st.doc.report, rank(st.doc.report, key), i),
                },
                in_preamble: false,
                current: st.current,
            },
            None => ParseState { doc: st.doc, in_preamble: false, current: None },
        },
    }
}

/// The parser after the tokens `tokens`.
pub open spec fn parse_state(tokens: Seq<TokenView>) -> ParseState
    decreases tokens.len(),
{
    if tokens.len() == 0 {
        parse_start()
    } else {
        parse_step(parse_state(tokens.drop_last()), tokens.last())
    }
}

/// The document that a sequence of tokens stands for.
pub open spec fn parse_tokens(tokens: Seq<TokenView>) -> DocumentView {
    parse_state(tokens).doc
}

/// What holds of the parser after any tokens: the sections are in ascending
/// order, the preamble holds preamble tokens alone, and the section that
/// items go to exists.
pub open spec fn parse_state_wf(st: ParseState) -> bool {
    &&& ascending(st.doc.report)
    &&& all_preamble(st.doc.preamble)
    &&& match st.current {
        Some(key) => has_key(st.doc.report, key),
        None => true,
    }
}

/// A step of the parser keeps the parser's state well formed.
pub proof fn lemma_parse_step_wf(st: ParseState, t: TokenView)
    requires
        parse_state_wf(st),
    ensures
        parse_state_wf(parse_step(st, t)),
{
    match t {
        TokenView::Preamble(_) => {},
        TokenView::Header(h) => {
            lemma_put_ascending(st.doc.report, h.package, fresh_section(h));
            match st.current {
                Some(key) => {},
                None => {},
            }
        },
        TokenView::Issue(i) => {
            match st.current {
                Some(key) => {
                    lemma_append_issue(st.doc.report, rank(st.doc.report, key), i, key);
                },
                None => {},
            }
        },
    }
}

/// The parser's state is well formed after any tokens.
pub proof fn lemma_parse_state_wf(tokens: Seq<TokenView>)
    ensures
        parse_state_wf(parse_state(tokens)),
    decreases tokens.len(),
{
    if tokens.len() > 0 {
        lemma_parse_state_wf(tokens.drop_last());
        lemma_parse_step_wf(parse_state(tokens.drop_last()), tokens.last());
    }
}

/// The item tokens of the items `issues`.
pub open spec fn issue_tokens(issues: Seq<IssueView>) -> Seq<TokenView> {
    Seq::new(issues.len(), |i: int| TokenView::Issue(issues[i]))
}

/// The parser after the tokens `tokens`, if it was in the state `st` before
/// them.
pub open spec fn parse_from(st: ParseState, tokens: Seq<TokenView>) -> ParseState
    decreases tokens.len(),
{
    if tokens.len() == 0 {
        st
    } else {
        parse_step(parse_from(st, tokens.drop_last()), tokens.last())
    }
}

/// The parser after tokens is the parser that began before them.
pub proof fn lemma_parse_from_start(tokens: Seq<TokenView>)
    ensures
        parse_state(tokens) == parse_from(parse_start(), tokens),
    decreases tokens.len(),
{
    if tokens.len() > 0 {
        lemma_parse_from_start(tokens.drop_last());
    }
}

/// The parser after the tokens `a` and then `b` is the parser that went on
/// with `b` after `a`.
pub proof fn lemma_parse_concat(st: ParseState, a: Seq<TokenView>, b: Seq<TokenView>)
    ensures
        parse_from(st, a + b) == parse_from(parse_from(st, a), b),
    decreases b.len(),
{
    if b.len() == 0 {
        assert(a + b =~= a);
    } else {
        lemma_parse_concat(st, a, b.drop_last());
        assert((a + b).drop_last() =~= a + b.drop_last());
        assert((a + b).last() == b.last());
    }
}

/// Items after a header join the section that the header opened.
pub proof fn lemma_parse_issues(st: ParseState, key: Seq<char>, issues: Seq<IssueView>)
    requires
        st.current == Some(key),
        !st.in_preamble,
        has_key(st.doc.report, key),
    ensures
        parse_from(st, issue_tokens(issues)) == (ParseState {
            doc: DocumentView {
                preamble: st.doc.preamble,
                report: add_issues(st.doc.report, rank(st.doc.report, key), issues),
            },
            in_preamble: false,
            current: Some(key),
        }),
    decreases issues.len(),
{
    let at = rank(st.doc.report, key);
    if issues.len() == 0 {
    } else {
        let init = issues.drop_last();
        lemma_parse_issues(st, key, init);
        lemma_add_issues(st.doc.report, at, init);
        lemma_rank_same_keys(add_issues(st.doc.report, at, init), st.doc.report, key);
        assert(issue_tokens(issues).drop_last() =~= issue_tokens(init));
        assert(issue_tokens(issues).last() == TokenView::Issue(issues.last()));
    }
}

/// A header that comes again opens no second section: the items after it
/// join the section that its package has already, behind the items that are
/// there, and nothing else changes.
pub proof fn law_repeated_header_accumulates(
    tokens: Seq<TokenView>,
    h: HeaderView,
    issues: Seq<IssueView>,
)
    requires
        has_key(parse_tokens(tokens).report, h.package),
    ensures
        parse_tokens(tokens + seq![TokenView::Header(h)] + issue_tokens(issues)).preamble
            == parse_tokens(tokens).preamble,
        parse_tokens(tokens + seq![TokenView::Header(h)] + issue_tokens(issues)).report
            == add_issues(
            parse_tokens(tokens).report,
            rank(parse_tokens(tokens).report, h.package),
            issues,
        ),
{
    let head = seq![TokenView::Header(h)];
    let st = parse_state(tokens);
    let opened = parse_step(st, TokenView::Header(h));
    lemma_parse_from_start(tokens);
    lemma_parse_from_start(tokens + head + issue_tokens(issues));
    lemma_parse_concat(parse_start(), tokens + head, issue_tokens(issues));
    lemma_parse_concat(parse_start(), tokens, head);
    assert(parse_from(st, head) == opened) by {
        assert(head.drop_last() =~= Seq::<TokenView>::empty());
        assert(parse_from(st, Seq::<TokenView>::empty()) == st);
        assert(head.last() == TokenView::Header(h));
    }
    lemma_parse_issues(opened, h.package, issues);
}

/// Builds the document that a sequence of tokens stands for. This never
/// fails.
///
/// The preamble tokens before the first header or item become the preamble.
/// Each header opens the section of its package; where a package's header
/// comes again, the items after it join the section that is there, and the
/// first header's notes stay. The count in a section's header is the number
/// of its items as long as that is an `i32`.
pub fn parse(input: Vec<Token>) -> (r: Result<Document, String>)
    ensures
        match r {
            Ok(doc) => doc@ == parse_tokens(token_views(input@)) && doc.wf(),
            Err(_) => false,
        },
{
    let mut doc = Document { preamble: Vec::new(), report: Report::new() };
    let mut in_preamble = true;
    let mut current: Option<usize> = None;
    let ghost views = token_views(input@);
    proof {
        assert(views.take(0) =~= Seq::<TokenView>::empty());
        assert(token_views(doc.preamble@) =~= Seq::<TokenView>::empty());
    }
    for token in it: input
        invariant
            it.seq() == input@,
            views == token_views(input@),
            doc@ == parse_state(views.take(it.index() as int)).doc,
            in_preamble == parse_state(views.take(it.index() as int)).in_preamble,
            doc.wf(),
            match parse_state(views.take(it.index() as int)).current {
                Some(key) => current is Some && current->0 == rank(doc@.report, key)
                    && current->0 < doc@.report.len(),
                None => current is None,
            },
    {
        let ghost idx = it.index() as int;
        let ghost st = parse_state(views.take(idx));
        let ghost old_preamble = doc.preamble@;
        proof {
            assert(views.take(idx + 1).drop_last() =~= views.take(idx));
            assert(views.take(idx + 1).last() == token@);
            lemma_parse_state_wf(views.take(idx));
        }
        match token {
            Token::Preamble(text) => {
                if in_preamble {
                    doc.preamble.push(Token::Preamble(text));
                    proof {
                        assert(token_views(doc.preamble@) =~= token_views(old_preamble).push(
                            token@,
                        ));
                    }
                }
            },
            Token::Header(header) => {
                in_preamble = false;
                let key = header.package.clone();
                let section = Section {
                    header: Header {
                        package: header.package,
                        issue_count: 0,
                        notes: header.notes,
                    },
                    children: Vec::new(),
                };
                proof {
                    assert(section@.children =~= Seq::<IssueView>::empty());
                    lemma_put_ascending(doc@.report, key@, section@);
                }
                let at = doc.report.or_insert(key, section);
                current = Some(at);
            },
            Token::Issue(issue) => {
                in_preamble = false;
                match current {
                    Some(at) => {
                        proof {
                            lemma_append_issue(doc@.report, at as int, issue@, st.current->0);
                        }
                        doc.report.push_issue(at, issue);
                    },
                    None => {},
                }
            },
        }
    }
    proof {
        assert(views.take(input@.len() as int) =~= views);
    }
    Ok(doc)
}

} // verus!
