//! Reading back what was written: the text of a document that came from a
//! text gives that document again.

use crate::parse::{
    fresh_section, issue_tokens, lemma_parse_concat, lemma_parse_from_start, lemma_parse_issues,
    parse_from, parse_start, parse_state, parse_step, parse_tokens, DocumentView, ParseState,
};
use crate::report::{
    ascending, has_key, lemma_add_issues, lemma_append_issue, lemma_put_ascending, lemma_rank,
    lemma_rank_is_rank, put_if_absent, rank, with_issues, EntryView, SectionView,
};
use crate::text::{
    decimal, digit_run, digits_value, first_index_of, first_pair, has_prefix, is_digit,
    lemma_decimal, lemma_digit_run, lemma_digit_run_is_run, lemma_first_index_of,
    lemma_first_index_of_is_first, lemma_first_pair, lemma_first_pair_is_first, lex_less, pair_at,
    signed_decimal, split_lines, strip_cr,
};
use crate::tokenize::{
    box_open, check_mark, header_close, header_mark, header_of_line, header_tail, header_tail_text,
    header_text, id_open, issue_of_body, issue_of_line, issue_tail, issue_text, issue_word,
    line_token, no_header, notes_text, plural_mark, tokens_of_lines, tokens_of_text, url_close,
    url_open, HeaderView, IssueView, MAX_COUNT, TokenView,
};
use crate::transform::saturated;
use crate::writer::{
    document_lines, document_text, issue_lines, render_lines, report_lines, section_lines,
    token_lines, written_header,
};
use vstd::prelude::*;

verus! {

/// Whether `c` occurs nowhere in `s`.
pub open spec fn free_of(s: Seq<char>, c: char) -> bool {
    forall|i: int| 0 <= i < s.len() ==> s[i] != c
}

/// Whether `s` does not end with a carriage return.
pub open spec fn keeps_end(s: Seq<char>) -> bool {
    s.len() == 0 || s.last() != '\r'
}

/// Whether ` (` occurs nowhere in `s`.
pub open spec fn free_of_open(s: Seq<char>) -> bool {
    forall|i: int| !#[trigger] pair_at(s, i, ' ', '(')
}

/// The headers that a header line can show: the package holds no ` (`, the
/// count is between zero and `MAX_COUNT`, and the notes are not empty if
/// there are any.
pub open spec fn plain_header(h: HeaderView) -> bool {
    &&& free_of_open(h.package)
    &&& 0 <= h.issue_count <= MAX_COUNT
    &&& match h.notes {
        Some(notes) => notes.len() > 0,
        None => true,
    }
}

/// The items that an item's line can show: the id holds no backtick and the
/// url no closing bracket.
pub open spec fn plain_issue(i: IssueView) -> bool {
    free_of(i.source.id, '`') && free_of(i.source.url, ')')
}

/// The end of a header's line reads back as the header.
proof fn lemma_header_close_reads_back(h: HeaderView)
    requires
        plain_header(h),
    ensures
        header_close(h.package, h.issue_count, seq![')'] + notes_text(h.notes)) == Some(h),
{
    let close = seq![')'] + notes_text(h.notes);
    assert(close[0] == ')');
    match h.notes {
        Some(notes) => {
            assert(close[1] == ' ');
            assert(close.len() == 2 + notes.len());
            assert(close.skip(2) =~= notes);
        },
        None => {
            assert(close.len() == 1);
        },
    }
}

/// What follows a header's package and ` (` reads back as the header.
proof fn lemma_header_tail_reads_back(h: HeaderView)
    requires
        plain_header(h),
    ensures
        header_tail(h.package, header_tail_text(h)) == Some(h),
{
    let digits = decimal(h.issue_count as nat);
    let plural = plural_mark(h.issue_count);
    let close = seq![')'] + notes_text(h.notes);
    let tail = header_tail_text(h);
    let d = digits.len() as int;
    lemma_decimal(h.issue_count as nat);
    lemma_header_close_reads_back(h);
    assert(signed_decimal(h.issue_count) == digits);
    assert(tail =~= digits + (issue_word() + (plural + close)));
    assert forall|i: int| 0 <= i < d implies is_digit(#[trigger] tail[i]) by {
        assert(tail[i] == digits[i]);
    }
    assert(tail[d] == ' ');
    lemma_digit_run(tail, d);
    assert(tail.take(d) =~= digits);
    assert(tail.skip(d) =~= issue_word() + (plural + close));
    assert(tail.skip(d).take(6) =~= issue_word());
    assert(tail.skip(d + 6) =~= plural + close);
    if h.issue_count == 1 {
        assert(plural + close =~= close);
        assert(close[0] == ')');
    } else {
        assert((plural + close)[0] == 's');
        assert((plural + close).skip(1) =~= close);
    }
}

/// A line made of `### `, a package without ` (` in it, ` (` and a tail is
/// read as a header by reading the tail.
proof fn lemma_header_line_splits(package: Seq<char>, tail: Seq<char>)
    requires
        free_of_open(package),
    ensures
        header_of_line(header_mark() + package + seq![' ', '('] + tail) == header_tail(
            package,
            tail,
        ),
{
    reveal(header_of_line);
    let rest = package + seq![' ', '('] + tail;
    let line = header_mark() + package + seq![' ', '('] + tail;
    let p = package.len() as int;
    assert(line =~= header_mark() + rest);
    assert(line.take(4) =~= header_mark());
    assert(line.skip(4) =~= rest);
    assert forall|i: int| 0 <= i < p implies !#[trigger] pair_at(rest, i, ' ', '(') by {
        if pair_at(rest, i, ' ', '(') {
            if i + 1 < p {
                assert(rest[i] == package[i]);
                assert(rest[i + 1] == package[i + 1]);
                assert(pair_at(package, i, ' ', '('));
            } else {
                assert(rest[i + 1] == ' ');
            }
        }
    }
    assert(rest[p] == ' ');
    assert(rest[p + 1] == '(');
    assert(pair_at(rest, p, ' ', '('));
    lemma_first_pair(rest, ' ', '(', p);
    assert(rest.take(p) =~= package);
    assert(rest.skip(p + 2) =~= tail);
}

/// A header's line reads back as the header.
pub proof fn lemma_header_reads_back(h: HeaderView)
    requires
        plain_header(h),
    ensures
        header_of_line(header_text(h)) == Some(h),
{
    lemma_header_tail_reads_back(h);
    lemma_header_line_splits(h.package, header_tail_text(h));
}

/// What follows an item's checkbox and `` [`#`` reads back as the item.
proof fn lemma_issue_tail_reads_back(i: IssueView)
    requires
        plain_issue(i),
    ensures
        issue_tail(
            i.complete,
            i.source.id + url_open() + i.source.url + url_close() + i.content,
        ) == Some(i),
{
    let id = i.source.id;
    let url = i.source.url;
    let tail = id + url_open() + url + url_close() + i.content;
    let q = id.len() as int;
    let u = url.len() as int;
    assert(tail =~= id + (url_open() + (url + (url_close() + i.content))));
    assert forall|k: int| 0 <= k < q implies tail[k] != '`' by {
        assert(tail[k] == id[k]);
    }
    assert(tail[q] == '`');
    lemma_first_index_of(tail, '`', q);
    assert(tail.skip(q) =~= url_open() + (url + (url_close() + i.content)));
    assert(tail.skip(q).take(3) =~= url_open());
    let link = tail.skip(q + 3);
    assert(link =~= url + (url_close() + i.content));
    assert forall|k: int| 0 <= k < u implies link[k] != ')' by {
        assert(link[k] == url[k]);
    }
    assert(link[u] == ')');
    lemma_first_index_of(link, ')', u);
    assert(link.skip(u) =~= url_close() + i.content);
    assert(link.skip(u).take(2) =~= url_close());
    assert(link.take(u) =~= url);
    assert(tail.take(q) =~= id);
    assert(link.skip(u + 2) =~= i.content);
}

/// A line made of a space, a checkbox, `` [`#`` and a tail is read as an item
/// by reading the tail, and is no header.
proof fn lemma_issue_line_splits(complete: bool, tail: Seq<char>)
    ensures
        issue_of_line(seq![' '] + box_open() + seq![check_mark(complete)] + id_open() + tail)
            == issue_tail(complete, tail),
        header_of_line(seq![' '] + box_open() + seq![check_mark(complete)] + id_open() + tail)
            is None,
{
    reveal(header_of_line);
    reveal(issue_of_line);
    let line = seq![' '] + box_open() + seq![check_mark(complete)] + id_open() + tail;
    let body = box_open() + seq![check_mark(complete)] + id_open() + tail;
    assert(line =~= seq![' '] + body);
    assert(line[0] == ' ');
    assert(line.skip(1) =~= body);
    assert(issue_of_line(line) == issue_of_body(body));
    assert(issue_of_body(body) == issue_tail(complete, tail)) by {
        assert(body =~= box_open() + (seq![check_mark(complete)] + (id_open() + tail)));
        assert(body.take(3) =~= box_open());
        assert(body[3] == check_mark(complete));
        assert(body.skip(4) =~= id_open() + tail);
        assert(body.skip(4).take(5) =~= id_open());
        assert(body.skip(9) =~= tail);
    }
    assert(header_of_line(line) is None) by {
        if has_prefix(line, header_mark()) {
            assert(line.take(4)[0] == line[0]);
            assert(header_mark()[0] == '#');
        }
    }
}

/// An item's line reads back as the item, and is no header.
pub proof fn lemma_issue_reads_back(i: IssueView)
    requires
        plain_issue(i),
    ensures
        issue_of_line(issue_text(i)) == Some(i),
        header_of_line(issue_text(i)) is None,
{
    let tail = i.source.id + url_open() + i.source.url + url_close() + i.content;
    lemma_issue_tail_reads_back(i);
    lemma_issue_line_splits(i.complete, tail);
    assert(issue_text(i) =~= seq![' '] + box_open() + seq![check_mark(i.complete)] + id_open()
        + tail);
}

/// An empty line is neither a header nor an item.
pub proof fn lemma_empty_line_is_nothing()
    ensures
        header_of_line(Seq::<char>::empty()) is None,
        issue_of_line(Seq::<char>::empty()) is None,
{
    reveal(header_of_line);
    reveal(issue_of_line);
    let line = Seq::<char>::empty();
    assert(box_open().len() == 3);
    assert(header_mark().len() == 4);
}

/// The lines that come back from a text as they went into it: without a line
/// feed in them and without a carriage return at their end.
pub open spec fn plain_line(s: Seq<char>) -> bool {
    free_of(s, '\n') && keeps_end(s)
}

/// Two sequences one after the other are free of a character if both are.
pub proof fn lemma_free_of_concat(a: Seq<char>, b: Seq<char>, c: char)
    requires
        free_of(a, c),
        free_of(b, c),
    ensures
        free_of(a + b, c),
{
    assert forall|i: int| 0 <= i < (a + b).len() implies (a + b)[i] != c by {
        if i < a.len() {
            assert((a + b)[i] == a[i]);
        } else {
            assert((a + b)[i] == b[i - a.len()]);
        }
    }
}

/// The text of the lines `a` and then `b` is the text of `a` and then that of
/// `b`.
pub proof fn lemma_render_concat(a: Seq<Seq<char>>, b: Seq<Seq<char>>)
    ensures
        render_lines(a + b) == render_lines(a) + render_lines(b),
    decreases b.len(),
{
    if b.len() == 0 {
        assert(a + b =~= a);
        assert(render_lines(a) + render_lines(b) =~= render_lines(a));
    } else {
        lemma_render_concat(a, b.drop_last());
        assert((a + b).drop_last() =~= a + b.drop_last());
        assert((a + b).last() == b.last());
        assert(render_lines(a + b) =~= render_lines(a) + render_lines(b));
    }
}

/// The text of plain lines splits into those lines again.
pub proof fn lemma_split_render(lines: Seq<Seq<char>>)
    requires
        forall|i: int| 0 <= i < lines.len() ==> plain_line(#[trigger] lines[i]),
    ensures
        split_lines(render_lines(lines)) == lines,
    decreases lines.len(),
{
    if lines.len() == 0 {
        assert(split_lines(render_lines(lines)) =~= lines);
    } else {
        let first = lines[0];
        let rest = lines.drop_first();
        assert(plain_line(first));
        assert forall|i: int| 0 <= i < rest.len() implies plain_line(#[trigger] rest[i]) by {
            assert(rest[i] == lines[i + 1]);
        }
        lemma_split_render(rest);
        lemma_render_concat(seq![first], rest);
        assert(seq![first] + rest =~= lines);
        assert(render_lines(seq![first]) =~= first + seq!['\n']) by {
            assert(seq![first].drop_last() =~= Seq::<Seq<char>>::empty());
            assert(render_lines(Seq::<Seq<char>>::empty()) =~= Seq::<char>::empty());
        }
        let text = render_lines(lines);
        let n = first.len() as int;
        assert(text =~= first + (seq!['\n'] + render_lines(rest)));
        assert forall|i: int| 0 <= i < n implies text[i] != '\n' by {
            assert(text[i] == first[i]);
        }
        assert(text[n] == '\n');
        lemma_first_index_of(text, '\n', n);
        assert(text.take(n) =~= first);
        assert(text.skip(n + 1) =~= render_lines(rest));
        assert(split_lines(text) =~= seq![first] + rest);
    }
}

/// The tokens of the lines `lines`, where `open` says whether the preamble is
/// still open before them.
pub open spec fn tokens_from(lines: Seq<Seq<char>>, open: bool) -> Seq<TokenView>
    decreases lines.len(),
{
    if lines.len() == 0 {
        Seq::empty()
    } else {
        let before = lines.drop_last();
        match line_token(lines.last(), open && no_header(before)) {
            Some(t) => tokens_from(before, open).push(t),
            None => tokens_from(before, open),
        }
    }
}

/// The tokens of lines are their tokens with the preamble open before them.
pub proof fn lemma_tokens_from_start(lines: Seq<Seq<char>>)
    ensures
        tokens_of_lines(lines) == tokens_from(lines, true),
    decreases lines.len(),
{
    if lines.len() > 0 {
        lemma_tokens_from_start(lines.drop_last());
    }
}

/// Lines without a header one after the other are without a header.
pub proof fn lemma_no_header_concat(a: Seq<Seq<char>>, b: Seq<Seq<char>>)
    ensures
        no_header(a + b) == (no_header(a) && no_header(b)),
{
    if no_header(a) && no_header(b) {
        assert forall|i: int| 0 <= i < (a + b).len() implies header_of_line(
            #[trigger] (a + b)[i],
        ) is None by {
            if i < a.len() {
                assert((a + b)[i] == a[i]);
            } else {
                assert((a + b)[i] == b[i - a.len()]);
            }
        }
    }
    if no_header(a + b) {
        assert forall|i: int| 0 <= i < a.len() implies header_of_line(#[trigger] a[i]) is None by {
            assert((a + b)[i] == a[i]);
        }
        assert forall|i: int| 0 <= i < b.len() implies header_of_line(#[trigger] b[i]) is None by {
            assert((a + b)[a.len() + i] == b[i]);
        }
    }
}

/// The tokens of the lines `a` and then `b` are those of `a` and then those
/// of `b`, for which the preamble is open only if `a` left it open.
pub proof fn lemma_tokens_concat(a: Seq<Seq<char>>, b: Seq<Seq<char>>, open: bool)
    ensures
        tokens_from(a + b, open) == tokens_from(a, open) + tokens_from(b, open && no_header(a)),
    decreases b.len(),
{
    if b.len() == 0 {
        assert(a + b =~= a);
        assert(tokens_from(a, open) + tokens_from(b, open && no_header(a)) =~= tokens_from(
            a,
            open,
        ));
    } else {
        let before = b.drop_last();
        lemma_tokens_concat(a, before, open);
        lemma_no_header_concat(a, before);
        assert((a + b).drop_last() =~= a + before);
        assert((a + b).last() == b.last());
        let flag = open && no_header(a + before);
        assert(flag == ((open && no_header(a)) && no_header(before)));
        match line_token(b.last(), flag) {
            Some(t) => {
                assert(tokens_from(a + b, open) =~= tokens_from(a, open) + tokens_from(
                    b,
                    open && no_header(a),
                ));
            },
            None => {},
        }
    }
}

/// The preamble tokens of the lines `lines`.
pub open spec fn preamble_tokens(lines: Seq<Seq<char>>) -> Seq<TokenView> {
    Seq::new(lines.len(), |i: int| TokenView::Preamble(lines[i]))
}

/// The tokens of a section as it is written: its header, showing the number
/// of its items, and its items.
pub open spec fn section_tokens(s: SectionView) -> Seq<TokenView> {
    seq![TokenView::Header(written_header(s))] + issue_tokens(s.children)
}

/// The tokens of the sections of `r` as they are written, in order.
pub open spec fn report_tokens(r: Seq<EntryView>) -> Seq<TokenView>
    decreases r.len(),
{
    if r.len() == 0 {
        Seq::empty()
    } else {
        report_tokens(r.drop_last()) + section_tokens(r.last().section)
    }
}

/// While the preamble is open, lines without a header among them are
/// preamble, each of them.
pub proof fn lemma_preamble_tokens(lines: Seq<Seq<char>>)
    requires
        no_header(lines),
    ensures
        tokens_from(lines, true) == preamble_tokens(lines),
    decreases lines.len(),
{
    if lines.len() == 0 {
        assert(tokens_from(lines, true) =~= preamble_tokens(lines));
    } else {
        let before = lines.drop_last();
        assert forall|i: int| 0 <= i < before.len() implies header_of_line(
            #[trigger] before[i],
        ) is None by {
            assert(before[i] == lines[i]);
        }
        lemma_preamble_tokens(before);
        assert(header_of_line(lines[lines.len() - 1]) is None);
        assert(tokens_from(lines, true) =~= preamble_tokens(lines));
    }
}

/// None of the lines of plain items is a header.
proof fn lemma_issue_lines_no_header(issues: Seq<IssueView>)
    requires
        forall|j: int| 0 <= j < issues.len() ==> plain_issue(#[trigger] issues[j]),
    ensures
        no_header(issue_lines(issues)),
{
    let lines = issue_lines(issues);
    assert forall|i: int| 0 <= i < lines.len() implies header_of_line(#[trigger] lines[i])
        is None by {
        assert(plain_issue(issues[i]));
        lemma_issue_reads_back(issues[i]);
    }
}

/// After the preamble, the line of a plain item gives the item.
proof fn lemma_issue_line_token(i: IssueView)
    requires
        plain_issue(i),
    ensures
        line_token(issue_text(i), false) == Some(TokenView::Issue(i)),
{
    lemma_issue_reads_back(i);
}

/// After the preamble, the lines of items give those items, and none of them
/// is a header.
pub proof fn lemma_issue_tokens(issues: Seq<IssueView>)
    requires
        forall|j: int| 0 <= j < issues.len() ==> plain_issue(#[trigger] issues[j]),
    ensures
        tokens_from(issue_lines(issues), false) == issue_tokens(issues),
        no_header(issue_lines(issues)),
    decreases issues.len(),
{
    let lines = issue_lines(issues);
    lemma_issue_lines_no_header(issues);
    if issues.len() == 0 {
        assert(tokens_from(lines, false) =~= issue_tokens(issues));
    } else {
        let init = issues.drop_last();
        assert forall|j: int| 0 <= j < init.len() implies plain_issue(#[trigger] init[j]) by {
            assert(init[j] == issues[j]);
        }
        lemma_issue_tokens(init);
        assert(lines.drop_last() =~= issue_lines(init));
        assert(lines.last() == issue_text(issues.last()));
        assert(plain_issue(issues[issues.len() - 1]));
        lemma_issue_line_token(issues.last());
        assert(tokens_from(lines, false) == tokens_from(issue_lines(init), false).push(
            TokenView::Issue(issues.last()),
        ));
        assert(issue_tokens(init).push(TokenView::Issue(issues.last())) =~= issue_tokens(issues));
    }
}

/// The line of a header gives the header, whether the preamble was open
/// before it or not.
proof fn lemma_header_line_tokens(h: HeaderView, open: bool)
    requires
        plain_header(h),
    ensures
        tokens_from(seq![header_text(h)], open) == seq![TokenView::Header(h)],
        !no_header(seq![header_text(h)]),
{
    let head = seq![header_text(h)];
    lemma_header_reads_back(h);
    assert(head[0] == header_text(h));
    assert(head.drop_last() =~= Seq::<Seq<char>>::empty());
    assert(head.last() == header_text(h));
    assert(tokens_from(Seq::<Seq<char>>::empty(), open) =~= Seq::<TokenView>::empty());
    assert(tokens_from(head, open) =~= seq![TokenView::Header(h)]);
}

/// After the preamble an empty line gives no token.
proof fn lemma_blank_line_tokens()
    ensures
        tokens_from(seq![Seq::<char>::empty()], false) == Seq::<TokenView>::empty(),
{
    let blank = seq![Seq::<char>::empty()];
    lemma_empty_line_is_nothing();
    assert(blank.drop_last() =~= Seq::<Seq<char>>::empty());
    assert(blank.last() == Seq::<char>::empty());
    assert(tokens_from(Seq::<Seq<char>>::empty(), false) =~= Seq::<TokenView>::empty());
}

/// The lines of a section give the section's tokens, whether the preamble was
/// open before them or not, and close it.
pub proof fn lemma_section_tokens(s: SectionView, open: bool)
    requires
        plain_header(written_header(s)),
        forall|j: int| 0 <= j < s.children.len() ==> plain_issue(#[trigger] s.children[j]),
    ensures
        tokens_from(section_lines(s), open) == section_tokens(s),
        !no_header(section_lines(s)),
{
    let head = seq![header_text(written_header(s))];
    let items = issue_lines(s.children);
    let blank = seq![Seq::<char>::empty()];
    lemma_header_line_tokens(written_header(s), open);
    lemma_issue_tokens(s.children);
    lemma_blank_line_tokens();
    lemma_tokens_concat(head, items, open);
    lemma_no_header_concat(head, items);
    lemma_tokens_concat(head + items, blank, open);
    lemma_no_header_concat(head + items, blank);
    assert(tokens_from(head + items + blank, open) =~= seq![
        TokenView::Header(written_header(s)),
    ] + issue_tokens(s.children));
}

/// The items that come back as they are: plain ones, without a line feed in
/// them, and without a carriage return at the end of their content.
pub open spec fn faithful_issue(i: IssueView) -> bool {
    &&& plain_issue(i)
    &&& free_of(i.source.id, '\n')
    &&& free_of(i.source.url, '\n')
    &&& free_of(i.content, '\n')
    &&& keeps_end(i.content)
}

/// The sections that come back as they are: kept under the package name of
/// their header, which holds neither ` (` nor a line feed; with a header
/// whose count is the number of the items, at most `MAX_COUNT`; with notes
/// that, if there are any, are not empty, hold no line feed and do not end
/// with a carriage return; and with items that come back as they are.
pub open spec fn faithful_section(e: EntryView) -> bool {
    let h = e.section.header;
    &&& e.key == h.package
    &&& free_of_open(h.package)
    &&& free_of(h.package, '\n')
    &&& h.issue_count == e.section.children.len()
    &&& e.section.children.len() <= MAX_COUNT
    &&& match h.notes {
        Some(notes) => notes.len() > 0 && free_of(notes, '\n') && keeps_end(notes),
        None => true,
    }
    &&& forall|j: int|
        0 <= j < e.section.children.len() ==> faithful_issue(#[trigger] e.section.children[j])
}

/// The preamble tokens that come back as they are: plain lines that are no
/// headers.
pub open spec fn faithful_preamble(t: TokenView) -> bool {
    t matches TokenView::Preamble(line) && plain_line(line) && header_of_line(line) is None
}

/// The documents that come back from their text as they are.
pub open spec fn faithful(d: DocumentView) -> bool {
    &&& ascending(d.report)
    &&& forall|i: int| 0 <= i < d.preamble.len() ==> faithful_preamble(#[trigger] d.preamble[i])
    &&& forall|k: int| 0 <= k < d.report.len() ==> faithful_section(#[trigger] d.report[k])
}

/// The lines of the sections of `r` give the tokens of those sections,
/// whether the preamble was open before them or not, and close it.
pub proof fn lemma_report_tokens(r: Seq<EntryView>, open: bool)
    requires
        forall|k: int| 0 <= k < r.len() ==> faithful_section(#[trigger] r[k]),
    ensures
        tokens_from(report_lines(r), open) == report_tokens(r),
        r.len() > 0 ==> !no_header(report_lines(r)),
    decreases r.len(),
{
    if r.len() == 0 {
        assert(tokens_from(report_lines(r), open) =~= report_tokens(r));
    } else {
        let init = r.drop_last();
        let last = r.last();
        assert forall|k: int| 0 <= k < init.len() implies faithful_section(#[trigger] init[k]) by {
            assert(init[k] == r[k]);
        }
        lemma_report_tokens(init, open);
        assert(faithful_section(r[r.len() - 1]));
        assert forall|j: int| 0 <= j < last.section.children.len() implies plain_issue(
            #[trigger] last.section.children[j],
        ) by {
            assert(faithful_issue(last.section.children[j]));
        }
        lemma_section_tokens(last.section, open && no_header(report_lines(init)));
        lemma_tokens_concat(report_lines(init), section_lines(last.section), open);
        lemma_no_header_concat(report_lines(init), section_lines(last.section));
    }
}

/// The plain lines of a document that comes back as it is give its tokens:
/// its preamble, then the tokens of its sections.
pub proof fn lemma_document_tokens(d: DocumentView)
    requires
        faithful(d),
    ensures
        tokens_of_lines(document_lines(d)) == d.preamble + report_tokens(d.report),
{
    let lines = token_lines(d.preamble);
    assert forall|i: int| 0 <= i < lines.len() implies header_of_line(#[trigger] lines[i])
        is None by {
        assert(faithful_preamble(d.preamble[i]));
    }
    lemma_preamble_tokens(lines);
    assert(preamble_tokens(lines) =~= d.preamble) by {
        assert forall|i: int| 0 <= i < lines.len() implies preamble_tokens(lines)[i]
            == d.preamble[i] by {
            assert(faithful_preamble(d.preamble[i]));
        }
    }
    lemma_report_tokens(d.report, true && no_header(lines));
    lemma_tokens_concat(lines, report_lines(d.report), true);
    lemma_tokens_from_start(document_lines(d));
}

/// A sequence is free of a character if each of its characters is another.
proof fn lemma_digits_free(s: Seq<char>, c: char)
    requires
        forall|i: int| 0 <= i < s.len() ==> is_digit(#[trigger] s[i]),
        !is_digit(c),
    ensures
        free_of(s, c),
{
}

/// The header line of a section that comes back as it is is plain.
proof fn lemma_header_line_plain(e: EntryView)
    requires
        faithful_section(e),
    ensures
        plain_line(header_text(written_header(e.section))),
        plain_header(written_header(e.section)),
{
    let h = written_header(e.section);
    let digits = decimal(h.issue_count as nat);
    let close = seq![')'] + notes_text(h.notes);
    let front = header_mark() + h.package + seq![' ', '('] + (digits + issue_word() + plural_mark(
        h.issue_count,
    ));
    let line = header_text(h);
    lemma_decimal(h.issue_count as nat);
    lemma_digits_free(digits, '\n');
    assert(signed_decimal(h.issue_count) == digits);
    assert(line =~= front + close);
    assert(free_of(front, '\n')) by {
        lemma_free_of_concat(header_mark(), h.package, '\n');
        lemma_free_of_concat(header_mark() + h.package, seq![' ', '('], '\n');
        lemma_free_of_concat(digits, issue_word(), '\n');
        lemma_free_of_concat(digits + issue_word(), plural_mark(h.issue_count), '\n');
        lemma_free_of_concat(
            header_mark() + h.package + seq![' ', '('],
            digits + issue_word() + plural_mark(h.issue_count),
            '\n',
        );
    }
    assert(free_of(close, '\n')) by {
        match h.notes {
            Some(notes) => {
                lemma_free_of_concat(seq![' '], notes, '\n');
            },
            None => {},
        }
        lemma_free_of_concat(seq![')'], notes_text(h.notes), '\n');
    }
    lemma_free_of_concat(front, close, '\n');
    assert(line.last() == close.last());
    match h.notes {
        Some(notes) => {
            assert(close.last() == notes.last());
        },
        None => {
            assert(close.last() == ')');
        },
    }
}

/// The line of an item that comes back as it is is plain.
proof fn lemma_issue_line_plain(i: IssueView)
    requires
        faithful_issue(i),
    ensures
        plain_line(issue_text(i)),
{
    let front = seq![' '] + box_open() + seq![check_mark(i.complete)] + id_open() + i.source.id
        + url_open() + i.source.url;
    let back = url_close() + i.content;
    let line = issue_text(i);
    assert(line =~= front + back);
    assert(free_of(front, '\n')) by {
        lemma_free_of_concat(seq![' '], box_open(), '\n');
        lemma_free_of_concat(seq![' '] + box_open(), seq![check_mark(i.complete)], '\n');
        lemma_free_of_concat(
            seq![' '] + box_open() + seq![check_mark(i.complete)],
            id_open(),
            '\n',
        );
        lemma_free_of_concat(
            seq![' '] + box_open() + seq![check_mark(i.complete)] + id_open(),
            i.source.id,
            '\n',
        );
        lemma_free_of_concat(
            seq![' '] + box_open() + seq![check_mark(i.complete)] + id_open() + i.source.id,
            url_open(),
            '\n',
        );
        lemma_free_of_concat(
            seq![' '] + box_open() + seq![check_mark(i.complete)] + id_open() + i.source.id
                + url_open(),
            i.source.url,
            '\n',
        );
    }
    lemma_free_of_concat(url_close(), i.content, '\n');
    lemma_free_of_concat(front, back, '\n');
    assert(line.last() == back.last());
    if i.content.len() > 0 {
        assert(back.last() == i.content.last());
    } else {
        assert(back.last() == ' ');
    }
}

/// The lines of a section that comes back as it is are plain.
proof fn lemma_section_lines_plain(e: EntryView)
    requires
        faithful_section(e),
    ensures
        forall|i: int|
            0 <= i < section_lines(e.section).len() ==> plain_line(
                #[trigger] section_lines(e.section)[i],
            ),
{
    let lines = section_lines(e.section);
    let n = e.section.children.len() as int;
    lemma_header_line_plain(e);
    assert forall|i: int| 0 <= i < lines.len() implies plain_line(#[trigger] lines[i]) by {
        if i == 0 {
            assert(lines[0] == header_text(written_header(e.section)));
        } else if i <= n {
            assert(lines[i] == issue_text(e.section.children[i - 1]));
            assert(faithful_issue(e.section.children[i - 1]));
            lemma_issue_line_plain(e.section.children[i - 1]);
        } else {
            assert(lines[i] == Seq::<char>::empty());
        }
    }
}

/// The lines of the sections of a report whose sections come back as they
/// are are plain.
proof fn lemma_report_lines_plain(r: Seq<EntryView>)
    requires
        forall|k: int| 0 <= k < r.len() ==> faithful_section(#[trigger] r[k]),
    ensures
        forall|i: int|
            0 <= i < report_lines(r).len() ==> plain_line(#[trigger] report_lines(r)[i]),
    decreases r.len(),
{
    if r.len() > 0 {
        let init = r.drop_last();
        assert forall|k: int| 0 <= k < init.len() implies faithful_section(#[trigger] init[k]) by {
            assert(init[k] == r[k]);
        }
        lemma_report_lines_plain(init);
        assert(faithful_section(r[r.len() - 1]));
        lemma_section_lines_plain(r.last());
        let a = report_lines(init);
        let b = section_lines(r.last().section);
        assert forall|i: int| 0 <= i < report_lines(r).len() implies plain_line(
            #[trigger] report_lines(r)[i],
        ) by {
            if i < a.len() {
                assert(report_lines(r)[i] == a[i]);
            } else {
                assert(report_lines(r)[i] == b[i - a.len()]);
            }
        }
    }
}

/// The text of a document that comes back as it is gives the document's
/// tokens: its preamble, then the tokens of its sections.
pub proof fn lemma_text_tokens(d: DocumentView)
    requires
        faithful(d),
    ensures
        tokens_of_text(document_text(d)) == d.preamble + report_tokens(d.report),
{
    let a = token_lines(d.preamble);
    let b = report_lines(d.report);
    lemma_report_lines_plain(d.report);
    assert forall|i: int| 0 <= i < document_lines(d).len() implies plain_line(
        #[trigger] document_lines(d)[i],
    ) by {
        if i < a.len() {
            assert(document_lines(d)[i] == a[i]);
            assert(faithful_preamble(d.preamble[i]));
        } else {
            assert(document_lines(d)[i] == b[i - a.len()]);
        }
    }
    lemma_split_render(document_lines(d));
    lemma_document_tokens(d);
}

/// The parser after a preamble: it has the preamble and no sections, and the
/// preamble is still open.
pub open spec fn after_preamble(preamble: Seq<TokenView>) -> ParseState {
    ParseState {
        doc: DocumentView { preamble, report: Seq::empty() },
        in_preamble: true,
        current: None,
    }
}

/// Preamble tokens alone are taken as the preamble.
proof fn lemma_parse_preamble(preamble: Seq<TokenView>)
    requires
        forall|i: int| 0 <= i < preamble.len() ==> #[trigger] preamble[i] is Preamble,
    ensures
        parse_from(parse_start(), preamble) == after_preamble(preamble),
    decreases preamble.len(),
{
    if preamble.len() == 0 {
        assert(preamble =~= Seq::<TokenView>::empty());
    } else {
        let init = preamble.drop_last();
        assert forall|i: int| 0 <= i < init.len() implies #[trigger] init[i] is Preamble by {
            assert(init[i] == preamble[i]);
        }
        lemma_parse_preamble(init);
        assert(preamble[preamble.len() - 1] is Preamble);
        assert(init.push(preamble.last()) =~= preamble);
    }
}

/// The section that a header opens, with items added, has those items, and in
/// its header their number as far as the count goes.
proof fn lemma_fresh_with_issues(h: HeaderView, issues: Seq<IssueView>)
    ensures
        with_issues(fresh_section(h), issues) == (SectionView {
            header: HeaderView {
                package: h.package,
                issue_count: saturated(issues.len()),
                notes: h.notes,
            },
            children: issues,
        }),
    decreases issues.len(),
{
    if issues.len() == 0 {
        assert(issues =~= Seq::<IssueView>::empty());
    } else {
        lemma_fresh_with_issues(h, issues.drop_last());
        assert(issues.drop_last().push(issues.last()) =~= issues);
    }
}

/// The tokens of a section that comes back as it is, read after sections
/// whose names all come before its name, add the section as it is.
proof fn lemma_parse_section(st: ParseState, e: EntryView)
    requires
        ascending(st.doc.report),
        forall|i: int| 0 <= i < st.doc.report.len() ==> lex_less(#[trigger] st.doc.report[i].key, e.key),
        faithful_section(e),
    ensures
        parse_from(st, section_tokens(e.section)) == (ParseState {
            doc: DocumentView { preamble: st.doc.preamble, report: st.doc.report.push(e) },
            in_preamble: false,
            current: Some(e.key),
        }),
{
    let r = st.doc.report;
    let h = written_header(e.section);
    let n = r.len() as int;
    let head = seq![TokenView::Header(h)];
    let opened = parse_from(st, head);
    let first = EntryView { key: e.key, section: fresh_section(h) };
    lemma_rank(r, e.key, n);
    lemma_put_ascending(r, e.key, fresh_section(h));
    assert(opened == parse_step(st, TokenView::Header(h))) by {
        assert(head.drop_last() =~= Seq::<TokenView>::empty());
        assert(parse_from(st, Seq::<TokenView>::empty()) == st);
        assert(head.last() == TokenView::Header(h));
    }
    assert(opened.doc.report =~= r.push(first)) by {
        assert(!has_key(r, e.key));
        assert(put_if_absent(r, e.key, fresh_section(h)) =~= r.push(first));
    }
    lemma_parse_issues(opened, e.key, e.section.children);
    lemma_add_issues(r.push(first), n, e.section.children);
    lemma_fresh_with_issues(h, e.section.children);
    assert(with_issues(fresh_section(h), e.section.children) == e.section);
    assert(r.push(first).update(n, e) =~= r.push(e));
    lemma_parse_concat(st, head, issue_tokens(e.section.children));
}

/// The parser after the sections `r`, read after the preamble `preamble`.
pub open spec fn after_report(preamble: Seq<TokenView>, r: Seq<EntryView>) -> ParseState {
    ParseState {
        doc: DocumentView { preamble, report: r },
        in_preamble: r.len() == 0,
        current: if r.len() == 0 {
            None
        } else {
            Some(r.last().key)
        },
    }
}

/// The tokens of the sections of an ascending report whose sections come back
/// as they are, read after a preamble, give the report.
proof fn lemma_parse_report(preamble: Seq<TokenView>, r: Seq<EntryView>)
    requires
        ascending(r),
        forall|k: int| 0 <= k < r.len() ==> faithful_section(#[trigger] r[k]),
    ensures
        parse_from(after_preamble(preamble), report_tokens(r)) == after_report(preamble, r),
    decreases r.len(),
{
    if r.len() == 0 {
        assert(r =~= Seq::<EntryView>::empty());
    } else {
        let init = r.drop_last();
        let last = r.last();
        assert(ascending(init)) by {
            assert forall|i: int, j: int| 0 <= i < j < init.len() implies lex_less(
                #[trigger] init[i].key,
                #[trigger] init[j].key,
            ) by {
                assert(init[i] == r[i] && init[j] == r[j]);
            }
        }
        assert forall|k: int| 0 <= k < init.len() implies faithful_section(#[trigger] init[k]) by {
            assert(init[k] == r[k]);
        }
        lemma_parse_report(preamble, init);
        let st = after_report(preamble, init);
        assert forall|i: int| 0 <= i < init.len() implies lex_less(
            #[trigger] st.doc.report[i].key,
            last.key,
        ) by {
            assert(init[i] == r[i]);
            assert(lex_less(r[i].key, r[r.len() - 1].key));
        }
        assert(faithful_section(r[r.len() - 1]));
        lemma_parse_section(st, last);
        lemma_parse_concat(
            after_preamble(preamble),
            report_tokens(init),
            section_tokens(last.section),
        );
        assert(init.push(last) =~= r);
    }
}

/// A document that comes back as it is comes back from its text: written,
/// tokenized and parsed, it is the document again.
pub proof fn law_written_document_reads_back(d: DocumentView)
    requires
        faithful(d),
    ensures
        parse_tokens(tokens_of_text(document_text(d))) == d,
{
    lemma_text_tokens(d);
    assert forall|i: int| 0 <= i < d.preamble.len() implies #[trigger] d.preamble[i]
        is Preamble by {
        assert(faithful_preamble(d.preamble[i]));
    }
    lemma_parse_preamble(d.preamble);
    lemma_parse_report(d.preamble, d.report);
    lemma_parse_concat(parse_start(), d.preamble, report_tokens(d.report));
    lemma_parse_from_start(d.preamble + report_tokens(d.report));
}

/// What every header read from a line without a line feed is like: its
/// package holds neither ` (` nor a line feed, and its notes, if it has any,
/// are not empty and hold no line feed.
pub open spec fn clean_header(h: HeaderView) -> bool {
    &&& free_of_open(h.package)
    &&& free_of(h.package, '\n')
    &&& match h.notes {
        Some(notes) => notes.len() > 0 && free_of(notes, '\n'),
        None => true,
    }
}

/// What every item read from a line without a line feed is like: plain, and
/// without a line feed.
pub open spec fn clean_issue(i: IssueView) -> bool {
    &&& plain_issue(i)
    &&& free_of(i.source.id, '\n')
    &&& free_of(i.source.url, '\n')
    &&& free_of(i.content, '\n')
}

/// What every token of a text is like.
pub open spec fn clean_token(t: TokenView) -> bool {
    match t {
        TokenView::Preamble(line) => free_of(line, '\n') && header_of_line(line) is None,
        TokenView::Header(h) => clean_header(h),
        TokenView::Issue(i) => clean_issue(i),
    }
}

/// What every section parsed from the tokens of a text is like.
pub open spec fn clean_section(e: EntryView) -> bool {
    &&& e.key == e.section.header.package
    &&& clean_header(e.section.header)
    &&& e.section.header.issue_count == saturated(e.section.children.len())
    &&& forall|j: int|
        0 <= j < e.section.children.len() ==> clean_issue(#[trigger] e.section.children[j])
}

/// What the parser's state is like after the tokens of a text.
pub open spec fn clean_state(st: ParseState) -> bool {
    &&& ascending(st.doc.report)
    &&& forall|i: int|
        0 <= i < st.doc.preamble.len() ==> #[trigger] st.doc.preamble[i] is Preamble
            && clean_token(st.doc.preamble[i])
    &&& forall|k: int| 0 <= k < st.doc.report.len() ==> clean_section(#[trigger] st.doc.report[k])
    &&& match st.current {
        Some(key) => has_key(st.doc.report, key),
        None => true,
    }
}

/// No line of a text holds a line feed.
pub proof fn lemma_split_lines_free(text: Seq<char>)
    ensures
        forall|i: int|
            0 <= i < split_lines(text).len() ==> free_of(#[trigger] split_lines(text)[i], '\n'),
    decreases text.len(),
{
    let n = first_index_of(text, '\n');
    lemma_first_index_of_is_first(text, '\n');
    if text.len() == 0 {
    } else if 0 <= n < text.len() {
        let rest = text.skip(n + 1);
        lemma_split_lines_free(rest);
        let first = strip_cr(text.take(n));
        assert(free_of(first, '\n')) by {
            assert forall|i: int| 0 <= i < first.len() implies first[i] != '\n' by {
                assert(first[i] == text[i]);
            }
        }
        assert forall|i: int| 0 <= i < split_lines(text).len() implies free_of(
            #[trigger] split_lines(text)[i],
            '\n',
        ) by {
            if i > 0 {
                assert(split_lines(text)[i] == split_lines(rest)[i - 1]);
            }
        }
    } else {
        assert(free_of(text, '\n'));
    }
}

/// A part of a sequence that is free of a character is free of it.
proof fn lemma_free_of_part(s: Seq<char>, from: int, to: int, c: char)
    requires
        free_of(s, c),
        0 <= from <= to <= s.len(),
    ensures
        free_of(s.subrange(from, to), c),
{
    assert forall|i: int| 0 <= i < to - from implies s.subrange(from, to)[i] != c by {
        assert(s.subrange(from, to)[i] == s[from + i]);
    }
}

/// The notes of a header read from what follows the count are not empty, and
/// hold no line feed if that holds none.
proof fn lemma_header_close_clean(package: Seq<char>, count: int, close: Seq<char>)
    requires
        free_of(close, '\n'),
        header_close(package, count, close) is Some,
    ensures
        header_close(package, count, close)->0.package == package,
        match header_close(package, count, close)->0.notes {
            Some(notes) => notes.len() > 0 && free_of(notes, '\n'),
            None => true,
        },
{
    if close.len() > 2 {
        lemma_free_of_part(close, 2, close.len() as int, '\n');
        assert(close.skip(2) =~= close.subrange(2, close.len() as int));
    }
}

/// A header read from a line without a line feed is clean.
pub proof fn lemma_header_of_line_clean(line: Seq<char>)
    requires
        free_of(line, '\n'),
        header_of_line(line) is Some,
    ensures
        clean_header(header_of_line(line)->0),
{
    reveal(header_of_line);
    let rest = line.skip(4);
    let p = first_pair(rest, ' ', '(');
    let package = rest.take(p);
    let tail = rest.skip(p + 2);
    lemma_first_pair_is_first(rest, ' ', '(');
    assert(pair_at(rest, p, ' ', '('));
    let d = digit_run(tail);
    lemma_digit_run_is_run(tail);
    let word_end = tail.skip(d + 6);
    let close = if word_end.len() > 0 && word_end[0] == 's' {
        word_end.skip(1)
    } else {
        word_end
    };
    assert(has_prefix(tail.skip(d), issue_word()));
    assert(issue_word().len() == 6);
    let from = 4 + p + 2 + d + 6 + (if word_end.len() > 0 && word_end[0] == 's' {
        1int
    } else {
        0int
    });
    assert(close =~= line.subrange(from, line.len() as int));
    lemma_free_of_part(line, from, line.len() as int, '\n');
    lemma_header_close_clean(package, digits_value(tail.take(d)) as int, close);
    assert(package =~= line.subrange(4, 4 + p));
    lemma_free_of_part(line, 4, 4 + p, '\n');
    assert forall|i: int| !#[trigger] pair_at(package, i, ' ', '(') by {
        if pair_at(package, i, ' ', '(') {
            assert(pair_at(rest, i, ' ', '('));
        }
    }
}

/// An item read from what follows a checkbox and `` [`# `` is clean, if that
/// holds no line feed.
proof fn lemma_issue_tail_clean(complete: bool, tail: Seq<char>)
    requires
        free_of(tail, '\n'),
        issue_tail(complete, tail) is Some,
    ensures
        clean_issue(issue_tail(complete, tail)->0),
{
    let q = first_index_of(tail, '`');
    let link = tail.skip(q + 3);
    let u = first_index_of(link, ')');
    lemma_first_index_of_is_first(tail, '`');
    lemma_first_index_of_is_first(link, ')');
    assert(url_open().len() == 3);
    assert(url_close().len() == 2);
    let i = issue_tail(complete, tail)->0;
    let n = tail.len() as int;
    assert(i.source.id =~= tail.subrange(0, q));
    assert(i.source.url =~= tail.subrange(q + 3, q + 3 + u));
    assert(i.content =~= tail.subrange(q + 3 + u + 2, n));
    lemma_free_of_part(tail, 0, q, '\n');
    lemma_free_of_part(tail, q + 3, q + 3 + u, '\n');
    lemma_free_of_part(tail, q + 3 + u + 2, n, '\n');
    assert(free_of(i.source.id, '`')) by {
        assert forall|k: int| 0 <= k < i.source.id.len() implies i.source.id[k] != '`' by {
            assert(i.source.id[k] == tail[k]);
        }
    }
    assert(free_of(i.source.url, ')')) by {
        assert forall|k: int| 0 <= k < i.source.url.len() implies i.source.url[k] != ')' by {
            assert(i.source.url[k] == link[k]);
        }
    }
}

/// An item read from a line without a line feed is clean.
pub proof fn lemma_issue_of_line_clean(line: Seq<char>)
    requires
        free_of(line, '\n'),
        issue_of_line(line) is Some,
    ensures
        clean_issue(issue_of_line(line)->0),
{
    reveal(issue_of_line);
    let b = if line.len() > 0 && line[0] == ' ' {
        1int
    } else {
        0int
    };
    let body = line.skip(b);
    assert(issue_of_line(line) == issue_of_body(body)) by {
        if b == 0 {
            assert(body =~= line);
        }
    }
    let tail = body.skip(9);
    assert(tail =~= line.subrange(b + 9, line.len() as int));
    lemma_free_of_part(line, b + 9, line.len() as int, '\n');
    lemma_issue_tail_clean(body[3] == 'x', tail);
}

/// The tokens of lines without line feeds are clean.
pub proof fn lemma_tokens_clean(lines: Seq<Seq<char>>)
    requires
        forall|i: int| 0 <= i < lines.len() ==> free_of(#[trigger] lines[i], '\n'),
    ensures
        forall|j: int|
            0 <= j < tokens_of_lines(lines).len() ==> clean_token(
                #[trigger] tokens_of_lines(lines)[j],
            ),
    decreases lines.len(),
{
    if lines.len() > 0 {
        let before = lines.drop_last();
        let line = lines.last();
        assert forall|i: int| 0 <= i < before.len() implies free_of(#[trigger] before[i], '\n') by {
            assert(before[i] == lines[i]);
        }
        lemma_tokens_clean(before);
        assert(free_of(lines[lines.len() - 1], '\n'));
        if header_of_line(line) is Some {
            lemma_header_of_line_clean(line);
        } else if issue_of_line(line) is Some {
            lemma_issue_of_line_clean(line);
        }
        assert forall|j: int| 0 <= j < tokens_of_lines(lines).len() implies clean_token(
            #[trigger] tokens_of_lines(lines)[j],
        ) by {
            if j < tokens_of_lines(before).len() {
                assert(tokens_of_lines(lines)[j] == tokens_of_lines(before)[j]);
            }
        }
    }
}

/// A clean token keeps the parser's state clean.
proof fn lemma_parse_step_clean(st: ParseState, t: TokenView)
    requires
        clean_state(st),
        clean_token(t),
    ensures
        clean_state(parse_step(st, t)),
{
    let r = st.doc.report;
    let next = parse_step(st, t);
    match t {
        TokenView::Preamble(_) => {
            if st.in_preamble {
                assert forall|i: int| 0 <= i < next.doc.preamble.len() implies #[trigger] next.doc.preamble[i]
                    is Preamble && clean_token(next.doc.preamble[i]) by {
                    if i < st.doc.preamble.len() {
                        assert(next.doc.preamble[i] == st.doc.preamble[i]);
                    }
                }
            }
        },
        TokenView::Header(h) => {
            lemma_put_ascending(r, h.package, fresh_section(h));
            lemma_rank_is_rank(r, h.package);
            let p = rank(r, h.package);
            if !has_key(r, h.package) {
                let n = next.doc.report;
                assert forall|k: int| 0 <= k < n.len() implies clean_section(#[trigger] n[k]) by {
                    if k < p {
                        assert(n[k] == r[k]);
                    } else if k == p {
                        assert(n[k].section.children =~= Seq::<IssueView>::empty());
                    } else {
                        assert(n[k] == r[k - 1]);
                    }
                }
            }
        },
        TokenView::Issue(i) => {
            match st.current {
                Some(key) => {
                    let at = rank(r, key);
                    lemma_append_issue(r, at, i, key);
                    let n = next.doc.report;
                    assert forall|k: int| 0 <= k < n.len() implies clean_section(#[trigger] n[k]) by {
                        if k == at {
                            assert(clean_section(r[at]));
                            let children = n[k].section.children;
                            assert forall|j: int| 0 <= j < children.len() implies clean_issue(
                                #[trigger] children[j],
                            ) by {
                                if j < r[at].section.children.len() {
                                    assert(children[j] == r[at].section.children[j]);
                                }
                            }
                        } else {
                            assert(n[k] == r[k]);
                        }
                    }
                },
                None => {},
            }
        },
    }
}

/// Clean tokens leave the parser's state clean.
proof fn lemma_parse_clean(tokens: Seq<TokenView>)
    requires
        forall|j: int| 0 <= j < tokens.len() ==> clean_token(#[trigger] tokens[j]),
    ensures
        clean_state(parse_state(tokens)),
    decreases tokens.len(),
{
    if tokens.len() > 0 {
        let init = tokens.drop_last();
        assert forall|j: int| 0 <= j < init.len() implies clean_token(#[trigger] init[j]) by {
            assert(init[j] == tokens[j]);
        }
        lemma_parse_clean(init);
        assert(clean_token(tokens[tokens.len() - 1]));
        lemma_parse_step_clean(parse_state(init), tokens.last());
    }
}

/// The documents that writing does not change: no line of the preamble, no
/// notes and no item's content ends with a carriage return, and no section
/// has more than `MAX_COUNT` items.
pub open spec fn survives_writing(d: DocumentView) -> bool {
    &&& forall|i: int|
        0 <= i < d.preamble.len() ==> (#[trigger] d.preamble[i] matches TokenView::Preamble(line)
            ==> keeps_end(line))
    &&& forall|k: int|
        0 <= k < d.report.len() ==> {
            let s = (#[trigger] d.report[k]).section;
            &&& s.children.len() <= MAX_COUNT
            &&& (s.header.notes matches Some(notes) ==> keeps_end(notes))
            &&& forall|j: int| 0 <= j < s.children.len() ==> keeps_end(#[trigger] s.children[j].content)
        }
}

/// The document of a text comes back as it is, if writing does not change it.
pub proof fn lemma_parsed_text_is_faithful(text: Seq<char>)
    requires
        survives_writing(parse_tokens(tokens_of_text(text))),
    ensures
        faithful(parse_tokens(tokens_of_text(text))),
{
    let d = parse_tokens(tokens_of_text(text));
    lemma_split_lines_free(text);
    lemma_tokens_clean(split_lines(text));
    lemma_parse_clean(tokens_of_text(text));
    assert forall|i: int| 0 <= i < d.preamble.len() implies faithful_preamble(
        #[trigger] d.preamble[i],
    ) by {
        assert(d.preamble[i] is Preamble && clean_token(d.preamble[i]));
    }
    assert forall|k: int| 0 <= k < d.report.len() implies faithful_section(#[trigger] d.report[k]) by {
        let e = d.report[k];
        assert(clean_section(e));
        assert forall|j: int| 0 <= j < e.section.children.len() implies faithful_issue(
            #[trigger] e.section.children[j],
        ) by {
            assert(clean_issue(e.section.children[j]));
            assert(keeps_end(e.section.children[j].content));
        }
    }
}

/// The document that a text gives after one pass through the tokenizer, the
/// parser and the writer.
pub open spec fn normalized(text: Seq<char>) -> DocumentView {
    parse_tokens(tokens_of_text(document_text(parse_tokens(tokens_of_text(text)))))
}

/// Writing a document that was read from a text, and reading what was
/// written, gives the document again: after one pass through the tokenizer,
/// the parser and the writer, a text has reached its fixed form, and a second
/// pass changes nothing. This holds of every text whose document writing does
/// not change.
pub proof fn law_round_trip(text: Seq<char>)
    requires
        survives_writing(parse_tokens(tokens_of_text(text))),
    ensures
        normalized(text) == parse_tokens(tokens_of_text(text)),
        normalized(document_text(parse_tokens(tokens_of_text(text)))) == normalized(text),
{
    lemma_parsed_text_is_faithful(text);
    law_written_document_reads_back(parse_tokens(tokens_of_text(text)));
}

} // verus!
