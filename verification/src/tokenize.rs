//! The three kinds of line that a checklist is made of, and the tokenizer
//! that tells them apart.

use crate::text::{
    chars_of, decimal, digit_run, digits_value, find_char, find_pair, first_index_of, first_pair,
    has_prefix, lemma_first_pair_is_first, lines_of, matches_at, pair_at, push_decimal, rows,
    scan_number, signed_decimal, split_lines, string_of,
};
use vstd::prelude::*;
use vstd::string::StringExecFns;

verus! {

/// One line of a checklist, by its kind.
#[derive(Debug, PartialEq)]
pub enum Token {
    /// A line of the free text before the first section, kept as it is.
    Preamble(String),
    /// The line that opens a package's section.
    Header(Header),
    /// One checklist item.
    Issue(Issue),
}

/// The line that opens a package's section.
#[derive(Debug, PartialEq)]
pub struct Header {
    pub package: String,
    /// The count that the line shows. It is for display only: a section's
    /// true count is the number of its items.
    pub issue_count: i32,
    pub notes: Option<String>,
}

/// One checklist item: an advisory, ticked off or not.
#[derive(Debug, PartialEq)]
pub struct Issue {
    pub complete: bool,
    pub source: SourceLink,
    pub content: String,
}

/// Where an advisory comes from. Two advisories are the same if their `id`s
/// are.
#[derive(Debug, PartialEq)]
pub struct SourceLink {
    pub url: String,
    pub id: String,
}

/// A source link as specifications see it: its strings as sequences of
/// characters.
pub struct SourceLinkView {
    pub url: Seq<char>,
    pub id: Seq<char>,
}

/// An item as specifications see it.
pub struct IssueView {
    pub complete: bool,
    pub source: SourceLinkView,
    pub content: Seq<char>,
}

/// A header as specifications see it, with its count as an integer.
pub struct HeaderView {
    pub package: Seq<char>,
    pub issue_count: int,
    pub notes: Option<Seq<char>>,
}

/// A token as specifications see it.
pub enum TokenView {
    Preamble(Seq<char>),
    Header(HeaderView),
    Issue(IssueView),
}

impl View for SourceLink {
    type V = SourceLinkView;

    open spec fn view(&self) -> SourceLinkView {
        SourceLinkView { url: self.url@, id: self.id@ }
    }
}

impl View for Issue {
    type V = IssueView;

    open spec fn view(&self) -> IssueView {
        IssueView { complete: self.complete, source: self.source@, content: self.content@ }
    }
}

/// The characters of an optional string.
pub open spec fn option_text(s: Option<String>) -> Option<Seq<char>> {
    match s {
        Some(t) => Some(t@),
        None => None,
    }
}

impl View for Header {
    type V = HeaderView;

    open spec fn view(&self) -> HeaderView {
        HeaderView {
            package: self.package@,
            issue_count: self.issue_count as int,
            notes: option_text(self.notes),
        }
    }
}

impl View for Token {
    type V = TokenView;

    open spec fn view(&self) -> TokenView {
        match *self {
            Token::Preamble(line) => TokenView::Preamble(line@),
            Token::Header(header) => TokenView::Header(header@),
            Token::Issue(issue) => TokenView::Issue(issue@),
        }
    }
}

/// The views of a sequence of tokens.
pub open spec fn token_views(tokens: Seq<Token>) -> Seq<TokenView> {
    Seq::new(tokens.len(), |i: int| tokens[i]@)
}

/// The views of a sequence of issues.
pub open spec fn issue_views(issues: Seq<Issue>) -> Seq<IssueView> {
    Seq::new(issues.len(), |i: int| issues[i]@)
}

/// `### `, which every header line begins with.
pub open spec fn header_mark() -> Seq<char> {
    seq!['#', '#', '#', ' ']
}

/// ` issue`, which follows a header's count.
pub open spec fn issue_word() -> Seq<char> {
    seq![' ', 'i', 's', 's', 'u', 'e']
}

/// `- [`, which opens an item's checkbox.
pub open spec fn box_open() -> Seq<char> {
    seq!['-', ' ', '[']
}

/// The characters between an item's check mark and its id.
pub open spec fn id_open() -> Seq<char> {
    seq![']', ' ', '[', '`', '#']
}

/// The characters between an item's id and its url.
pub open spec fn url_open() -> Seq<char> {
    seq!['`', ']', '(']
}

/// The characters between an item's url and its content.
pub open spec fn url_close() -> Seq<char> {
    seq![')', ' ']
}

/// The `s` that makes `issue` plural: it is left out if the count is one.
pub open spec fn plural_mark(count: int) -> Seq<char> {
    if count == 1 {
        Seq::empty()
    } else {
        seq!['s']
    }
}

/// The notes as a header line shows them: after a space, or not at all.
pub open spec fn notes_text(notes: Option<Seq<char>>) -> Seq<char> {
    match notes {
        Some(notes) => seq![' '] + notes,
        None => Seq::empty(),
    }
}

/// What a header line shows after its package and ` (`.
pub open spec fn header_tail_text(h: HeaderView) -> Seq<char> {
    signed_decimal(h.issue_count) + issue_word() + plural_mark(h.issue_count) + seq![')']
        + notes_text(h.notes)
}

/// The text of a header line: `### <package> (<count> issues) <notes>`, with
/// `issue` in place of `issues` if the count is one, and without the last
/// space if there are no notes.
pub open spec fn header_text(h: HeaderView) -> Seq<char> {
    header_mark() + h.package + seq![' ', '('] + header_tail_text(h)
}

/// The mark in an item's checkbox.
pub open spec fn check_mark(complete: bool) -> char {
    if complete {
        'x'
    } else {
        ' '
    }
}

/// The text of an item's line: `` - [x] [`#<id>`](<url>) <content>``, with a
/// space in place of the `x` if the item is not complete.
pub open spec fn issue_text(i: IssueView) -> Seq<char> {
    seq![' '] + box_open() + seq![check_mark(i.complete)] + id_open() + i.source.id + url_open()
        + i.source.url + url_close() + i.content
}

/// The text of a token's line.
pub open spec fn token_text(t: TokenView) -> Seq<char> {
    match t {
        TokenView::Preamble(line) => line,
        TokenView::Header(h) => header_text(h),
        TokenView::Issue(i) => issue_text(i),
    }
}

impl Clone for Header {
    fn clone(&self) -> (copy: Header)
        ensures
            copy@ == self@,
    {
        Header {
            package: self.package.clone(),
            issue_count: self.issue_count,
            notes: match &self.notes {
                Some(notes) => Some(notes.clone()),
                None => None,
            },
        }
    }
}

/// Appends to `out` what a header line shows between ` (` and its notes: the
/// count, then ` issue` or ` issues`, and `)`.
fn push_count_text(out: &mut String, count: i128)
    ensures
        final(out)@ == old(out)@ + (signed_decimal(count as int) + issue_word() + plural_mark(
            count as int,
        ) + seq![')']),
{
    proof {
        reveal_strlit(" issue");
        reveal_strlit(" issues");
        reveal_strlit(")");
        assert(" issue"@ =~= issue_word());
        assert(" issues"@ =~= issue_word() + seq!['s']);
        assert(")"@ =~= seq![')']);
    }
    if count < 0 {
        out.push('-');
        let magnitude: u128 = (-(count + 1)) as u128 + 1;
        push_decimal(out, magnitude);
        proof {
            assert(signed_decimal(count as int) =~= seq!['-'] + decimal(magnitude as nat));
        }
    } else {
        push_decimal(out, count as u128);
    }
    proof {
        assert(out@ =~= old(out)@ + signed_decimal(count as int));
    }
    if count == 1 {
        out.append(" issue");
    } else {
        out.append(" issues");
    }
    out.append(")");
    proof {
        assert(out@ =~= old(out)@ + (signed_decimal(count as int) + issue_word() + plural_mark(
            count as int,
        ) + seq![')']));
    }
}

/// Appends the notes to `out` as a header line shows them.
fn push_notes_text(out: &mut String, notes: &Option<String>)
    ensures
        final(out)@ == old(out)@ + notes_text(option_text(*notes)),
{
    match notes {
        Some(text) => {
            proof {
                reveal_strlit(" ");
                assert(" "@ =~= seq![' ']);
            }
            out.append(" ");
            out.append(text.as_str());
            proof {
                assert(out@ =~= old(out)@ + (seq![' '] + text@));
            }
        },
        None => {
            proof {
                assert(out@ =~= old(out)@ + Seq::<char>::empty());
            }
        },
    }
}

/// Appends to `out` the line of a header with the given package, count and
/// notes.
pub fn push_header_text(out: &mut String, package: &str, count: i128, notes: &Option<String>)
    ensures
        final(out)@ == old(out)@ + header_text(
            HeaderView { package: package@, issue_count: count as int, notes: option_text(*notes) },
        ),
{
    let ghost h = HeaderView {
        package: package@,
        issue_count: count as int,
        notes: option_text(*notes),
    };
    proof {
        reveal_strlit("### ");
        reveal_strlit(" (");
        assert("### "@ =~= header_mark());
        assert(" ("@ =~= seq![' ', '(']);
    }
    out.append("### ");
    out.append(package);
    out.append(" (");
    let ghost stem = out@;
    push_count_text(out, count);
    let ghost counted = out@;
    push_notes_text(out, notes);
    proof {
        let count_text = signed_decimal(h.issue_count) + issue_word() + plural_mark(h.issue_count)
            + seq![')'];
        assert(stem =~= old(out)@ + (header_mark() + h.package + seq![' ', '(']));
        assert(counted == stem + count_text);
        assert(out@ == counted + notes_text(h.notes));
        assert(header_tail_text(h) =~= count_text + notes_text(h.notes));
        assert(out@ =~= old(out)@ + header_text(h));
    }
}

/// Appends an item's line to `out`.
pub fn push_issue_text(out: &mut String, issue: &Issue)
    ensures
        final(out)@ == old(out)@ + issue_text(issue@),
{
    proof {
        reveal_strlit(" - [x] [`#");
        reveal_strlit(" - [ ] [`#");
        reveal_strlit("`](");
        reveal_strlit(") ");
        assert(" - [x] [`#"@ =~= seq![' '] + box_open() + seq!['x'] + id_open());
        assert(" - [ ] [`#"@ =~= seq![' '] + box_open() + seq![' '] + id_open());
        assert("`]("@ =~= url_open());
        assert(") "@ =~= url_close());
    }
    if issue.complete {
        out.append(" - [x] [`#");
    } else {
        out.append(" - [ ] [`#");
    }
    out.append(issue.source.id.as_str());
    out.append("`](");
    out.append(issue.source.url.as_str());
    out.append(") ");
    out.append(issue.content.as_str());
    proof {
        assert(out@ =~= old(out)@ + issue_text(issue@));
    }
}

impl Header {
    /// The header's line, showing the count that the header holds.
    pub fn to_string(&self) -> (line: String)
        ensures
            line@ == header_text(self@),
    {
        let mut line = String::new();
        push_header_text(&mut line, self.package.as_str(), self.issue_count as i128, &self.notes);
        proof {
            assert(Seq::<char>::empty() + header_text(self@) =~= header_text(self@));
        }
        line
    }
}

impl Issue {
    /// The item's line.
    pub fn to_string(&self) -> (line: String)
        ensures
            line@ == issue_text(self@),
    {
        let mut line = String::new();
        push_issue_text(&mut line, self);
        proof {
            assert(Seq::<char>::empty() + issue_text(self@) =~= issue_text(self@));
        }
        line
    }
}

impl Token {
    /// The token's line.
    pub fn to_string(&self) -> (line: String)
        ensures
            line@ == token_text(self@),
    {
        match self {
            Token::Preamble(text) => text.clone(),
            Token::Header(header) => header.to_string(),
            Token::Issue(issue) => issue.to_string(),
        }
    }
}

/// The largest count that a header line may show.
pub const MAX_COUNT: u32 = 0x7fff_ffff;

/// What follows a header's count and ` issue` or ` issues`: `)`, and then
/// either nothing or a space and the notes. Empty notes are none.
pub open spec fn header_close(package: Seq<char>, count: int, close: Seq<char>) -> Option<
    HeaderView,
> {
    if close.len() == 0 || close[0] != ')' {
        None
    } else if close.len() == 1 {
        Some(HeaderView { package, issue_count: count, notes: None })
    } else if close[1] != ' ' {
        None
    } else if close.len() == 2 {
        Some(HeaderView { package, issue_count: count, notes: None })
    } else {
        Some(HeaderView { package, issue_count: count, notes: Some(close.skip(2)) })
    }
}

/// What follows a header's package and ` (`: the count in digits, at most
/// `MAX_COUNT`, then ` issue` or ` issues`, and the rest as `header_close`
/// reads it.
pub open spec fn header_tail(package: Seq<char>, tail: Seq<char>) -> Option<HeaderView> {
    let d = digit_run(tail);
    let value = digits_value(tail.take(d));
    let word_end = tail.skip(d + 6);
    if d <= 0 || d > tail.len() || value > MAX_COUNT || !has_prefix(tail.skip(d), issue_word()) {
        None
    } else if word_end.len() > 0 && word_end[0] == 's' {
        header_close(package, value as int, word_end.skip(1))
    } else {
        header_close(package, value as int, word_end)
    }
}

/// The header that a line is, if it is one: `### `, the package up to the
/// first ` (` of the line, the count in digits, ` issue` or ` issues`, `)`,
/// and either nothing more or a space and the notes.
#[verifier::opaque]
pub open spec fn header_of_line(line: Seq<char>) -> Option<HeaderView> {
    let rest = line.skip(4);
    let p = first_pair(rest, ' ', '(');
    if !has_prefix(line, header_mark()) || !(0 <= p < rest.len()) {
        None
    } else {
        header_tail(rest.take(p), rest.skip(p + 2))
    }
}

/// What follows an item's checkbox and `` [`#``: the id up to the first
/// backtick, `` `]( ``, the url up to the first `)`, `) `, and the content.
pub open spec fn issue_tail(complete: bool, tail: Seq<char>) -> Option<IssueView> {
    let q = first_index_of(tail, '`');
    let link = tail.skip(q + 3);
    let u = first_index_of(link, ')');
    if !(0 <= q < tail.len()) || !has_prefix(tail.skip(q), url_open()) {
        None
    } else if !(0 <= u < link.len()) || !has_prefix(link.skip(u), url_close()) {
        None
    } else {
        Some(
            IssueView {
                complete,
                source: SourceLinkView { url: link.take(u), id: tail.take(q) },
                content: link.skip(u + 2),
            },
        )
    }
}

/// The item that a line is, if it is one, the line taken without a space at
/// its beginning: `- [x] ` or `- [ ] `, then `` [`#<id>`](<url>) `` and the
/// content.
pub open spec fn issue_of_body(body: Seq<char>) -> Option<IssueView> {
    if !has_prefix(body, box_open()) || body.len() < 9 || !(body[3] == 'x' || body[3] == ' ')
        || !has_prefix(body.skip(4), id_open()) {
        None
    } else {
        issue_tail(body[3] == 'x', body.skip(9))
    }
}

/// The item that a line is, if it is one. One space may stand before it.
#[verifier::opaque]
pub open spec fn issue_of_line(line: Seq<char>) -> Option<IssueView> {
    if line.len() > 0 && line[0] == ' ' {
        issue_of_body(line.skip(1))
    } else {
        issue_of_body(line)
    }
}

/// The view of an optional header.
pub open spec fn option_header_view(h: Option<Header>) -> Option<HeaderView> {
    match h {
        Some(h) => Some(h@),
        None => None,
    }
}

/// The view of an optional issue.
pub open spec fn option_issue_view(i: Option<Issue>) -> Option<IssueView> {
    match i {
        Some(i) => Some(i@),
        None => None,
    }
}

/// The view of an optional token.
pub open spec fn option_token_view(t: Option<Token>) -> Option<TokenView> {
    match t {
        Some(t) => Some(t@),
        None => None,
    }
}

/// Reads the end of a header line, from position `at` on.
fn read_header_close(line: &Vec<char>, at: usize, package: String, count: i32) -> (r: Option<
    Header,
>)
    requires
        at <= line.len(),
    ensures
        option_header_view(r) == header_close(package@, count as int, line@.skip(at as int)),
{
    let n = line.len();
    if at >= n || line[at] != ')' {
        return None;
    }
    if n - at == 1 {
        return Some(Header { package, issue_count: count, notes: None });
    }
    if line[at + 1] != ' ' {
        return None;
    }
    if n - at == 2 {
        return Some(Header { package, issue_count: count, notes: None });
    }
    let text = string_of(line, at + 2, n);
    proof {
        assert(line@.skip(at as int).skip(2) =~= line@.subrange(at + 2, n as int));
    }
    Some(Header { package, issue_count: count, notes: Some(text) })
}

/// Reads what follows a header's package and ` (`, from position `at` on.
fn read_header_tail(line: &Vec<char>, at: usize, package: String) -> (r: Option<Header>)
    requires
        at <= line.len(),
    ensures
        option_header_view(r) == header_tail(package@, line@.skip(at as int)),
{
    let n = line.len();
    let ghost tail = line@.skip(at as int);
    let (e, value) = scan_number(line, at, MAX_COUNT);
    let ghost d = e - at;
    proof {
        reveal_strlit(" issue");
        assert(" issue"@ =~= issue_word());
        assert(tail.take(d) =~= line@.subrange(at as int, e as int));
        assert(tail.skip(d) =~= line@.skip(e as int));
    }
    if e == at {
        return None;
    }
    let count: u32 = match value {
        Some(v) => v,
        None => {
            return None;
        },
    };
    if !matches_at(line, e, " issue") {
        return None;
    }
    let ghost word_end = tail.skip(d + 6);
    proof {
        assert(word_end =~= line@.skip(e + 6));
    }
    if e + 6 < n && line[e + 6] == 's' {
        proof {
            assert(word_end.skip(1) =~= line@.skip(e + 7));
        }
        read_header_close(line, e + 7, package, count as i32)
    } else {
        read_header_close(line, e + 6, package, count as i32)
    }
}

/// Reads a line as a header.
pub fn read_header(line: &Vec<char>) -> (r: Option<Header>)
    ensures
        option_header_view(r) == header_of_line(line@),
{
    let n = line.len();
    proof {
        reveal(header_of_line);
        reveal_strlit("### ");
        assert("### "@ =~= header_mark());
        assert(line@.skip(0) =~= line@);
    }
    if !matches_at(line, 0, "### ") {
        return None;
    }
    let p = find_pair(line, 4, ' ', '(');
    if p >= n {
        return None;
    }
    let ghost rest = line@.skip(4);
    proof {
        lemma_first_pair_is_first(rest, ' ', '(');
        assert(pair_at(rest, p - 4, ' ', '('));
        assert(rest.skip(p - 4 + 2) =~= line@.skip(p + 2));
        assert(rest.take(p - 4) =~= line@.subrange(4, p as int));
    }
    let package = string_of(line, 4, p);
    read_header_tail(line, p + 2, package)
}

/// Reads what follows an item's checkbox and `` [`#``, from position `at` on.
fn read_issue_tail(line: &Vec<char>, at: usize, complete: bool) -> (r: Option<Issue>)
    requires
        at <= line.len(),
    ensures
        option_issue_view(r) == issue_tail(complete, line@.skip(at as int)),
{
    let n = line.len();
    let ghost tail = line@.skip(at as int);
    proof {
        reveal_strlit("`](");
        reveal_strlit(") ");
        assert("`]("@ =~= url_open());
        assert(") "@ =~= url_close());
    }
    let q = find_char(line, at, '`');
    if q >= n {
        return None;
    }
    proof {
        assert(tail.skip(q - at) =~= line@.skip(q as int));
    }
    if !matches_at(line, q, "`](") {
        return None;
    }
    let ghost link = tail.skip(q - at + 3);
    proof {
        assert(link =~= line@.skip(q + 3));
    }
    let u = find_char(line, q + 3, ')');
    if u >= n {
        return None;
    }
    proof {
        assert(link.skip(u - (q + 3)) =~= line@.skip(u as int));
    }
    if !matches_at(line, u, ") ") {
        return None;
    }
    let id = string_of(line, at, q);
    let url = string_of(line, q + 3, u);
    let content = string_of(line, u + 2, n);
    proof {
        assert(tail.take(q - at) =~= line@.subrange(at as int, q as int));
        assert(link.take(u - (q + 3)) =~= line@.subrange(q + 3, u as int));
        assert(link.skip(u - (q + 3) + 2) =~= line@.subrange(u + 2, n as int));
    }
    Some(Issue { complete, source: SourceLink { url, id }, content })
}

/// Reads the characters from position `at` on as a checklist item.
fn read_issue_body(line: &Vec<char>, at: usize) -> (r: Option<Issue>)
    requires
        at <= line.len(),
    ensures
        option_issue_view(r) == issue_of_body(line@.skip(at as int)),
{
    let n = line.len();
    let ghost body = line@.skip(at as int);
    proof {
        reveal_strlit("- [");
        reveal_strlit("] [`#");
        assert("- ["@ =~= box_open());
        assert("] [`#"@ =~= id_open());
    }
    if !matches_at(line, at, "- [") {
        return None;
    }
    if n - at < 9 {
        return None;
    }
    let mark = line[at + 3];
    if !(mark == 'x' || mark == ' ') {
        return None;
    }
    proof {
        assert(body.skip(4) =~= line@.skip(at + 4));
        assert(body.skip(9) =~= line@.skip(at + 9));
    }
    if !matches_at(line, at + 4, "] [`#") {
        return None;
    }
    read_issue_tail(line, at + 9, mark == 'x')
}

/// Reads a line as a checklist item.
pub fn read_issue(line: &Vec<char>) -> (r: Option<Issue>)
    ensures
        option_issue_view(r) == issue_of_line(line@),
{
    proof {
        reveal(issue_of_line);
    }
    if line.len() > 0 && line[0] == ' ' {
        read_issue_body(line, 1)
    } else {
        proof {
            assert(line@.skip(0) =~= line@);
        }
        read_issue_body(line, 0)
    }
}

/// Reads a line as a header token.
pub fn parse_header(line: String) -> (r: Option<Token>)
    ensures
        option_token_view(r) == (match header_of_line(line@) {
            Some(h) => Some(TokenView::Header(h)),
            None => None,
        }),
{
    let chars = chars_of(line.as_str());
    match read_header(&chars) {
        Some(header) => Some(Token::Header(header)),
        None => None,
    }
}

/// Reads a line as a checklist item token.
pub fn parse_issue(line: String) -> (r: Option<Token>)
    ensures
        option_token_view(r) == (match issue_of_line(line@) {
            Some(i) => Some(TokenView::Issue(i)),
            None => None,
        }),
{
    let chars = chars_of(line.as_str());
    match read_issue(&chars) {
        Some(issue) => Some(Token::Issue(issue)),
        None => None,
    }
}

/// Whether none of `lines` is a header.
pub open spec fn no_header(lines: Seq<Seq<char>>) -> bool {
    forall|i: int| 0 <= i < lines.len() ==> header_of_line(#[trigger] lines[i]) is None
}

/// The token that a line gives, if any. A header line always gives a header.
/// Before the first header every other line is preamble. After it, a line
/// that is an item gives the item, and any other line gives nothing.
pub open spec fn line_token(line: Seq<char>, in_preamble: bool) -> Option<TokenView> {
    match header_of_line(line) {
        Some(h) => Some(TokenView::Header(h)),
        None => if in_preamble {
            Some(TokenView::Preamble(line))
        } else {
            match issue_of_line(line) {
                Some(i) => Some(TokenView::Issue(i)),
                None => None,
            }
        },
    }
}

/// The tokens of a sequence of lines, in order.
pub open spec fn tokens_of_lines(lines: Seq<Seq<char>>) -> Seq<TokenView>
    decreases lines.len(),
{
    if lines.len() == 0 {
        Seq::empty()
    } else {
        let before = lines.drop_last();
        match line_token(lines.last(), no_header(before)) {
            Some(t) => tokens_of_lines(before).push(t),
            None => tokens_of_lines(before),
        }
    }
}

/// The tokens of a text.
pub open spec fn tokens_of_text(text: Seq<char>) -> Seq<TokenView> {
    tokens_of_lines(split_lines(text))
}

/// Splits a text into lines and gives each line's token: headers wherever
/// they stand, preamble for every other line before the first header, items
/// after it; other lines after the first header are left out.
pub fn tokenize(inputs: String) -> (tokens: Vec<Token>)
    ensures
        token_views(tokens@) == tokens_of_text(inputs@),
{
    let chars = chars_of(inputs.as_str());
    let lines = lines_of(&chars);
    let mut tokens: Vec<Token> = Vec::new();
    let mut in_preamble = true;
    let ghost all = rows(lines@);
    proof {
        assert(all.take(0) =~= Seq::<Seq<char>>::empty());
        assert(token_views(tokens@) =~= Seq::<TokenView>::empty());
    }
    let mut i: usize = 0;
    while i < lines.len()
        invariant
            i <= lines.len(),
            all == rows(lines@),
            in_preamble == no_header(all.take(i as int)),
            token_views(tokens@) == tokens_of_lines(all.take(i as int)),
        decreases lines.len() - i,
    {
        let line = &lines[i];
        let ghost before = all.take(i as int);
        let ghost old_tokens = tokens@;
        proof {
            assert(all.take(i + 1).drop_last() =~= before);
            assert(all.take(i + 1).last() == line@);
            assert(all[i as int] == line@);
        }
        match read_header(line) {
            Some(header) => {
                in_preamble = false;
                tokens.push(Token::Header(header));
                proof {
                    assert(token_views(tokens@) =~= token_views(old_tokens).push(
                        TokenView::Header(header@),
                    ));
                    assert(!no_header(all.take(i + 1)));
                }
            },
            None => {
                proof {
                    assert(no_header(all.take(i + 1)) == no_header(before)) by {
                        if no_header(before) {
                            assert forall|j: int| 0 <= j < i + 1 implies header_of_line(
                                #[trigger] all.take(i + 1)[j],
                            ) is None by {
                                if j < i {
                                    assert(all.take(i + 1)[j] == before[j]);
                                }
                            }
                        } else {
                            let j = choose|j: int|
                                0 <= j < before.len() && !(header_of_line(#[trigger] before[j])
                                    is None);
                            assert(all.take(i + 1)[j] == before[j]);
                        }
                    }
                }
                if in_preamble {
                    let text = string_of(line, 0, line.len());
                    proof {
                        assert(text@ =~= line@);
                    }
                    tokens.push(Token::Preamble(text));
                    proof {
                        assert(token_views(tokens@) =~= token_views(old_tokens).push(
                            TokenView::Preamble(line@),
                        ));
                    }
                } else {
                    match read_issue(line) {
                        Some(issue) => {
                            tokens.push(Token::Issue(issue));
                            proof {
                                assert(token_views(tokens@) =~= token_views(old_tokens).push(
                                    TokenView::Issue(issue@),
                                ));
                            }
                        },
                        None => {},
                    }
                }
            },
        }
        i += 1;
    }
    proof {
        assert(all.take(lines.len() as int) =~= all);
    }
    tokens
}

} // verus!
