//! Finding new advisories: turning the rows of an advisory listing into
//! tokens, leaving out what is known already, and deciding when to stop
//! asking for more pages.

use crate::parse::{parse, parse_tokens};
use crate::text::{
    chars_of, decimal, push_decimal, rows, split_words, str_same, string_of, string_without,
    without, words_of,
};
use crate::tokenize::{
    option_text, token_views, Header, HeaderView, Issue, IssueView, SourceLink, SourceLinkView,
    Token, TokenView,
};
use crate::transform::{collapse_anemic, collapsed};
use crate::writer::document_text;
use vstd::prelude::*;
use vstd::string::StringExecFns;

verus! {

/// One row of the advisory listing.
#[derive(Debug, PartialEq)]
pub struct LwnRow {
    /// The path of the advisory's page.
    pub url: String,
    pub id: String,
    /// The names of the packages that the advisory is about, separated by
    /// white space.
    pub packages: String,
    pub description: String,
}

/// A row of the listing as specifications see it.
pub struct LwnRowView {
    pub url: Seq<char>,
    pub id: Seq<char>,
    pub packages: Seq<char>,
    pub description: Seq<char>,
}

impl View for LwnRow {
    type V = LwnRowView;

    open spec fn view(&self) -> LwnRowView {
        LwnRowView {
            url: self.url@,
            id: self.id@,
            packages: self.packages@,
            description: self.description@,
        }
    }
}

/// The views of a sequence of rows.
pub open spec fn row_views(rows: Seq<LwnRow>) -> Seq<LwnRowView> {
    Seq::new(rows.len(), |i: int| rows[i]@)
}

/// The characters of each string of a sequence.
pub open spec fn texts(strings: Seq<String>) -> Seq<Seq<char>> {
    Seq::new(strings.len(), |i: int| strings[i]@)
}

/// The link in the first cell of a row of the listing's table.
#[derive(Debug, PartialEq)]
pub struct Link {
    /// The address that the link leads to, if it has one.
    pub href: Option<String>,
    /// What the link shows.
    pub text: String,
}

/// What the cells of a row of the listing's table hold, as far as they are
/// there: the link in the first cell, the text of the third, and the text of
/// the fourth.
#[derive(Debug, PartialEq)]
pub struct Cells {
    pub link: Option<Link>,
    pub packages: Option<String>,
    pub description: Option<String>,
}

/// Why a row of the table cannot be read as a row of the listing.
#[derive(Debug, PartialEq, Eq, Clone, Copy)]
pub enum RowError {
    /// The row has a link, but its third cell has no text.
    MissingPackages,
    /// The row has a link, but its fourth cell has no text.
    MissingDescription,
    /// The row's link leads nowhere.
    MissingAddress,
}

/// A link as specifications see it.
pub struct LinkView {
    pub href: Option<Seq<char>>,
    pub text: Seq<char>,
}

/// The cells of a table row as specifications see them.
pub struct CellsView {
    pub link: Option<LinkView>,
    pub packages: Option<Seq<char>>,
    pub description: Option<Seq<char>>,
}

impl View for Link {
    type V = LinkView;

    open spec fn view(&self) -> LinkView {
        LinkView { href: option_text(self.href), text: self.text@ }
    }
}

impl View for Cells {
    type V = CellsView;

    open spec fn view(&self) -> CellsView {
        CellsView {
            link: match self.link {
                Some(link) => Some(link@),
                None => None,
            },
            packages: option_text(self.packages),
            description: option_text(self.description),
        }
    }
}

/// The views of a sequence of table rows.
pub open spec fn cells_views(table: Seq<Cells>) -> Seq<CellsView> {
    Seq::new(table.len(), |i: int| table[i]@)
}

/// The row of the listing that a row of the table is. A row without a link
/// is none, and no error. A row with a link needs the text of its third
/// cell, the text of its fourth cell and the link's address, and the first of
/// these that is missing is the error.
pub open spec fn row_of_cells(cells: CellsView) -> Result<Option<LwnRowView>, RowError> {
    match cells.link {
        None => Ok(None),
        Some(link) => match cells.packages {
            None => Err(RowError::MissingPackages),
            Some(packages) => match cells.description {
                None => Err(RowError::MissingDescription),
                Some(description) => match link.href {
                    None => Err(RowError::MissingAddress),
                    Some(href) => Ok(
                        Some(LwnRowView { url: href, id: link.text, packages, description }),
                    ),
                },
            },
        },
    }
}

/// The rows of the listing that the rows `table` of the table are, in order,
/// or the error of the first row that has one.
pub open spec fn rows_of_table(table: Seq<CellsView>) -> Result<Seq<LwnRowView>, RowError>
    decreases table.len(),
{
    if table.len() == 0 {
        Ok(Seq::empty())
    } else {
        match rows_of_table(table.drop_last()) {
            Err(e) => Err(e),
            Ok(rows) => match row_of_cells(table.last()) {
                Err(e) => Err(e),
                Ok(Some(row)) => Ok(rows.push(row)),
                Ok(None) => Ok(rows),
            },
        }
    }
}

/// Reads a row of the table as a row of the listing.
pub fn row_from_cells(cells: Cells) -> (r: Result<Option<LwnRow>, RowError>)
    ensures
        match r {
            Ok(Some(row)) => row_of_cells(cells@) == Ok::<Option<LwnRowView>, RowError>(
                Some(row@),
            ),
            Ok(None) => row_of_cells(cells@) == Ok::<Option<LwnRowView>, RowError>(None),
            Err(e) => row_of_cells(cells@) == Err::<Option<LwnRowView>, RowError>(e),
        },
{
    let link = match cells.link {
        Some(link) => link,
        None => {
            return Ok(None);
        },
    };
    let packages = match cells.packages {
        Some(packages) => packages,
        None => {
            return Err(RowError::MissingPackages);
        },
    };
    let description = match cells.description {
        Some(description) => description,
        None => {
            return Err(RowError::MissingDescription);
        },
    };
    match link.href {
        Some(href) => Ok(Some(LwnRow { url: href, id: link.text, packages, description })),
        None => Err(RowError::MissingAddress),
    }
}

/// Reads the rows of the table as rows of the listing, and stops at the
/// first that cannot be read.
pub fn rows_from_table(table: Vec<Cells>) -> (r: Result<Vec<LwnRow>, RowError>)
    ensures
        match r {
            Ok(rows) => rows_of_table(cells_views(table@)) == Ok::<Seq<LwnRowView>, RowError>(
                row_views(rows@),
            ),
            Err(e) => rows_of_table(cells_views(table@)) == Err::<Seq<LwnRowView>, RowError>(e),
        },
{
    let mut rows: Vec<LwnRow> = Vec::new();
    let ghost views = cells_views(table@);
    proof {
        assert(views.take(0) =~= Seq::<CellsView>::empty());
        assert(row_views(rows@) =~= Seq::<LwnRowView>::empty());
    }
    for cells in it: table
        invariant
            it.seq() == table@,
            views == cells_views(table@),
            rows_of_table(views.take(it.index() as int)) == Ok::<Seq<LwnRowView>, RowError>(
                row_views(rows@),
            ),
    {
        let ghost idx = it.index() as int;
        let ghost before = rows@;
        proof {
            assert(views.take(idx + 1).drop_last() =~= views.take(idx));
            assert(views.take(idx + 1).last() == cells@);
        }
        match row_from_cells(cells) {
            Ok(Some(row)) => {
                rows.push(row);
                proof {
                    assert(row_views(rows@) =~= row_views(before).push(row@));
                }
            },
            Ok(None) => {},
            Err(e) => {
                proof {
                    lemma_table_error_stays(views, idx + 1);
                }
                return Err(e);
            },
        }
    }
    proof {
        assert(views.take(table@.len() as int) =~= views);
    }
    Ok(rows)
}

/// An error among the first rows of a table is the error of the table.
proof fn lemma_table_error_stays(table: Seq<CellsView>, n: int)
    requires
        0 <= n <= table.len(),
        rows_of_table(table.take(n)) is Err,
    ensures
        rows_of_table(table) == rows_of_table(table.take(n)),
    decreases table.len() - n,
{
    if n < table.len() {
        assert(table.take(n + 1).drop_last() =~= table.take(n));
        lemma_table_error_stays(table, n + 1);
    } else {
        assert(table.take(n) =~= table);
    }
}

/// How many advisories a page of the listing shows.
pub const PAGE_SIZE: usize = 100;

/// The address of a page of the listing: the pages are numbered from zero,
/// and each begins where the one before it ends.
pub open spec fn page_address(page: nat) -> Seq<char> {
    "https://lwn.net/Vulnerabilities/?n="@ + decimal(PAGE_SIZE as nat) + "&offset="@ + decimal(
        page * PAGE_SIZE as nat,
    )
}

/// The address of a page of the listing.
pub fn page_url(page: usize) -> (url: String)
    ensures
        url@ == page_address(page as nat),
{
    let mut url = String::from_str("https://lwn.net/Vulnerabilities/?n=");
    push_decimal(&mut url, PAGE_SIZE as u128);
    url.append("&offset=");
    assert(page * PAGE_SIZE <= u128::MAX) by (nonlinear_arith)
        requires
            page <= usize::MAX,
            PAGE_SIZE == 100,
            usize::MAX <= u64::MAX,
    ;
    push_decimal(&mut url, page as u128 * PAGE_SIZE as u128);
    url
}

/// The name that a package goes by in the checklist, where the listing calls
/// it otherwise.
pub open spec fn alias(name: Seq<char>) -> Seq<char> {
    if name == "tiff"@ {
        "libtiff"@
    } else if name == "libgc"@ {
        "boehm-gc"@
    } else if name == "perl-DBD-MySQL"@ {
        "DBD-mysql"@
    } else if name == "httpd"@ {
        "apache-httpd"@
    } else {
        name
    }
}

/// The package names in a row's list of packages: its words, each without
/// its commas, and by the name the checklist uses.
pub open spec fn package_names(packages: Seq<char>) -> Seq<Seq<char>> {
    Seq::new(
        split_words(packages).len(),
        |i: int| alias(without(split_words(packages)[i], ',')),
    )
}

/// Splits a row's list of packages into package names: at white space, with
/// every comma taken out, and with the names that the checklist uses in
/// place of those that the listing uses for them.
pub fn split_packages(packages: String) -> (names: Vec<String>)
    ensures
        texts(names@) == package_names(packages@),
{
    let chars = chars_of(packages.as_str());
    let words = words_of(&chars);
    let mut names: Vec<String> = Vec::new();
    let mut i: usize = 0;
    while i < words.len()
        invariant
            i <= words.len(),
            rows(words@) == split_words(packages@),
            texts(names@) == package_names(packages@).take(i as int),
        decreases words.len() - i,
    {
        let plain = string_without(&words[i], ',');
        let ghost before = names@;
        proof {
            assert(rows(words@)[i as int] == words@[i as int]@);
        }
        let name = if str_same(plain.as_str(), "tiff") {
            String::from_str("libtiff")
        } else if str_same(plain.as_str(), "libgc") {
            String::from_str("boehm-gc")
        } else if str_same(plain.as_str(), "perl-DBD-MySQL") {
            String::from_str("DBD-mysql")
        } else if str_same(plain.as_str(), "httpd") {
            String::from_str("apache-httpd")
        } else {
            plain
        };
        names.push(name);
        proof {
            assert(texts(names@) =~= texts(before).push(name@));
            assert(package_names(packages@).take(i + 1) =~= package_names(packages@).take(
                i as int,
            ).push(name@));
        }
        i += 1;
    }
    proof {
        assert(package_names(packages@).take(words.len() as int) =~= package_names(packages@));
    }
    names
}

/// The address of an advisory's page.
pub open spec fn advisory_url(path: Seq<char>) -> Seq<char> {
    "https://lwn.net"@ + path
}

/// What an item says of an advisory for one package: links to search for the
/// package and to find its files, two spaces, and the advisory's description.
pub open spec fn item_content(package: Seq<char>, description: Seq<char>) -> Seq<char> {
    "([search](http://search.nix.gsc.io/?q="@ + package
        + "&i=fosho&repos=nixos-nixpkgs), [files](https://github.com/NixOS/nixpkgs/search?utf8=%E2%9C%93&q="@
        + package + "+in%3Apath&type=Code))  "@ + description
}

/// The two tokens that a row gives for one of its packages: a header for the
/// package, with count zero and no notes, and the advisory as an item that is
/// not complete.
pub open spec fn package_tokens(row: LwnRowView, package: Seq<char>) -> Seq<TokenView> {
    seq![
        TokenView::Header(HeaderView { package, issue_count: 0, notes: None }),
        TokenView::Issue(
            IssueView {
                complete: false,
                source: SourceLinkView { url: advisory_url(row.url), id: row.id },
                content: item_content(package, row.description),
            },
        ),
    ]
}

/// The tokens that a row gives for the packages `names`, in order.
pub open spec fn names_tokens(row: LwnRowView, names: Seq<Seq<char>>) -> Seq<TokenView>
    decreases names.len(),
{
    if names.len() == 0 {
        Seq::empty()
    } else {
        names_tokens(row, names.drop_last()) + package_tokens(row, names.last())
    }
}

/// The tokens that a row gives: for each of its packages a header and an
/// item.
pub open spec fn row_tokens(row: LwnRowView) -> Seq<TokenView> {
    names_tokens(row, package_names(row.packages))
}

/// The tokens that the rows `rows` give, in order.
pub open spec fn rows_tokens(rows: Seq<LwnRowView>) -> Seq<TokenView>
    decreases rows.len(),
{
    if rows.len() == 0 {
        Seq::empty()
    } else {
        rows_tokens(rows.drop_last()) + row_tokens(rows.last())
    }
}

/// Turns a row of the listing into tokens: for each package that the row
/// names, a header for that package and the advisory as an item.
pub fn row_to_tokens(row: LwnRow) -> (tokens: Vec<Token>)
    ensures
        token_views(tokens@) == row_tokens(row@),
{
    let mut tokens: Vec<Token> = Vec::new();
    let mut url = String::from_str("https://lwn.net");
    url.append(row.url.as_str());
    let names = split_packages(row.packages.clone());
    let ghost all = package_names(row@.packages);
    proof {
        assert(all.take(0) =~= Seq::<Seq<char>>::empty());
        assert(token_views(tokens@) =~= Seq::<TokenView>::empty());
    }
    let mut i: usize = 0;
    while i < names.len()
        invariant
            i <= names.len(),
            all == package_names(row@.packages),
            texts(names@) == all,
            url@ == advisory_url(row@.url),
            token_views(tokens@) == names_tokens(row@, all.take(i as int)),
        decreases names.len() - i,
    {
        let package = &names[i];
        let ghost before = tokens@;
        proof {
            assert(all[i as int] == package@);
            assert(all.take(i + 1).drop_last() =~= all.take(i as int));
            assert(all.take(i + 1).last() == package@);
        }
        let mut content = String::from_str("([search](http://search.nix.gsc.io/?q=");
        content.append(package.as_str());
        content.append(
            "&i=fosho&repos=nixos-nixpkgs), [files](https://github.com/NixOS/nixpkgs/search?utf8=%E2%9C%93&q=",
        );
        content.append(package.as_str());
        content.append("+in%3Apath&type=Code))  ");
        content.append(row.description.as_str());
        tokens.push(Token::Header(Header { issue_count: 0, notes: None, package: package.clone() }));
        tokens.push(
            Token::Issue(
                Issue {
                    complete: false,
                    source: SourceLink { id: row.id.clone(), url: url.clone() },
                    content,
                },
            ),
        );
        proof {
            assert(token_views(tokens@) =~= token_views(before) + package_tokens(row@, package@));
        }
        i += 1;
    }
    proof {
        assert(all.take(names.len() as int) =~= all);
    }
    tokens
}

/// Turns the rows of one page of the listing into tokens.
pub fn tokens_from_rows(rows: Vec<LwnRow>) -> (tokens: Vec<Token>)
    ensures
        token_views(tokens@) == rows_tokens(row_views(rows@)),
{
    let mut tokens: Vec<Token> = Vec::new();
    let ghost views = row_views(rows@);
    proof {
        assert(views.take(0) =~= Seq::<LwnRowView>::empty());
        assert(token_views(tokens@) =~= Seq::<TokenView>::empty());
    }
    for row in it: rows
        invariant
            it.seq() == rows@,
            views == row_views(rows@),
            token_views(tokens@) == rows_tokens(views.take(it.index() as int)),
    {
        let ghost idx = it.index() as int;
        let ghost before = tokens@;
        proof {
            assert(views.take(idx + 1).drop_last() =~= views.take(idx));
            assert(views.take(idx + 1).last() == row@);
        }
        let mut more = row_to_tokens(row);
        let ghost added = more@;
        tokens.append(&mut more);
        proof {
            assert(token_views(tokens@) =~= token_views(before) + token_views(added));
        }
    }
    proof {
        assert(views.take(rows@.len() as int) =~= views);
    }
    tokens
}

/// Reads the list of known advisory ids: the words of `text`.
pub fn known_ids(text: &str) -> (ids: Vec<String>)
    ensures
        texts(ids@) == split_words(text@),
{
    let chars = chars_of(text);
    let words = words_of(&chars);
    let mut ids: Vec<String> = Vec::new();
    let mut i: usize = 0;
    while i < words.len()
        invariant
            i <= words.len(),
            rows(words@) == split_words(text@),
            texts(ids@) == split_words(text@).take(i as int),
        decreases words.len() - i,
    {
        let ghost before = ids@;
        let id = string_of(&words[i], 0, words[i].len());
        proof {
            assert(rows(words@)[i as int] == words@[i as int]@);
            assert(id@ =~= words@[i as int]@);
        }
        ids.push(id);
        proof {
            assert(texts(ids@) =~= texts(before).push(id@));
            assert(split_words(text@).take(i + 1) =~= split_words(text@).take(i as int).push(id@));
        }
        i += 1;
    }
    proof {
        assert(split_words(text@).take(words.len() as int) =~= split_words(text@));
    }
    ids
}

/// Tests whether `id` is among the known ids.
pub fn is_known(known: &Vec<String>, id: &str) -> (r: bool)
    ensures
        r == texts(known@).contains(id@),
{
    let mut i: usize = 0;
    while i < known.len()
        invariant
            i <= known.len(),
            forall|j: int| 0 <= j < i ==> texts(known@)[j] != id@,
        decreases known.len() - i,
    {
        if str_same(known[i].as_str(), id) {
            proof {
                assert(texts(known@)[i as int] == id@);
            }
            return true;
        }
        i += 1;
    }
    false
}

/// Whether a token of a page is kept: every token but an item whose id is
/// known.
pub open spec fn is_news(t: TokenView, known: Seq<Seq<char>>) -> bool {
    match t {
        TokenView::Issue(i) => !known.contains(i.source.id),
        _ => true,
    }
}

/// The tokens of a page that are kept, in order.
pub open spec fn news(page: Seq<TokenView>, known: Seq<Seq<char>>) -> Seq<TokenView>
    decreases page.len(),
{
    if page.len() == 0 {
        Seq::empty()
    } else if is_news(page.last(), known) {
        news(page.drop_last(), known).push(page.last())
    } else {
        news(page.drop_last(), known)
    }
}

/// How many items of a page are kept: those whose id is not known.
pub open spec fn new_issues(page: Seq<TokenView>, known: Seq<Seq<char>>) -> nat
    decreases page.len(),
{
    if page.len() == 0 {
        0
    } else if page.last() is Issue && is_news(page.last(), known) {
        new_issues(page.drop_last(), known) + 1
    } else {
        new_issues(page.drop_last(), known)
    }
}

/// Counts the items of a page that are new: those whose id is not among
/// `known`.
pub fn count_new_issues(page: &Vec<Token>, known: &Vec<String>) -> (found: usize)
    ensures
        found == new_issues(token_views(page@), texts(known@)),
{
    let ghost views = token_views(page@);
    let mut found: usize = 0;
    let mut i: usize = 0;
    proof {
        assert(views.take(0) =~= Seq::<TokenView>::empty());
    }
    while i < page.len()
        invariant
            i <= page.len(),
            views == token_views(page@),
            found == new_issues(views.take(i as int), texts(known@)),
            found <= i,
        decreases page.len() - i,
    {
        proof {
            assert(views.take(i + 1).drop_last() =~= views.take(i as int));
            assert(views.take(i + 1).last() == page@[i as int]@);
        }
        match &page[i] {
            Token::Issue(issue) => {
                if !is_known(known, issue.source.id.as_str()) {
                    found += 1;
                }
            },
            _ => {},
        }
        i += 1;
    }
    proof {
        assert(views.take(page.len() as int) =~= views);
    }
    found
}

/// The last page that may be asked for without two pages in a row having
/// brought nothing new.
pub const PAGE_CEILING: usize = 10;

/// How many pages in a row must bring nothing new for the search to end.
pub const EMPTY_STREAK: usize = 2;

/// What to do next in the search for new advisories.
#[derive(Debug, PartialEq, Eq, Clone, Copy)]
pub enum Progress {
    /// Ask for the page with this number and hand it to `absorb`.
    Fetch(usize),
    /// The listing has caught up with what is known: stop, and `finish`.
    Finished,
    /// More pages than the ceiling allows were asked for, and still not two
    /// in a row without news: give up.
    TooManyPages,
}

/// The search for new advisories: the tokens gathered so far, the number of
/// the next page, and how many pages in a row have brought nothing new.
#[derive(Debug, PartialEq)]
pub struct Discovery {
    tokens: Vec<Token>,
    page: usize,
    empty_pages: usize,
}

/// A search as specifications see it.
pub struct DiscoveryView {
    pub tokens: Seq<TokenView>,
    pub page: nat,
    pub empty_pages: nat,
}

/// What to do next in the state `st`: stop if two pages in a row brought
/// nothing new; else give up if the next page is beyond the ceiling; else ask
/// for the next page.
pub open spec fn next_step(st: DiscoveryView) -> Progress {
    if st.empty_pages >= EMPTY_STREAK {
        Progress::Finished
    } else if st.page > PAGE_CEILING {
        Progress::TooManyPages
    } else {
        Progress::Fetch(st.page as usize)
    }
}

/// The state after a page, if the search was still on: the page's news join
/// the tokens, the page number goes up by one, and the run of empty pages
/// grows by one if the page had no new item, and ends if it had one. A search
/// that has stopped stays as it is.
pub open spec fn after_page(st: DiscoveryView, page: Seq<TokenView>, known: Seq<Seq<char>>)
    -> DiscoveryView {
    if next_step(st) is Fetch {
        DiscoveryView {
            tokens: st.tokens + news(page, known),
            page: st.page + 1,
            empty_pages: if new_issues(page, known) == 0 {
                st.empty_pages + 1
            } else {
                0
            },
        }
    } else {
        st
    }
}

impl View for Discovery {
    type V = DiscoveryView;

    closed spec fn view(&self) -> DiscoveryView {
        DiscoveryView {
            tokens: token_views(self.tokens@),
            page: self.page as nat,
            empty_pages: self.empty_pages as nat,
        }
    }
}

impl Discovery {
    /// Begins a search with the tokens of the checklist as it is, at page
    /// zero.
    pub fn new(tokens: Vec<Token>) -> (d: Discovery)
        ensures
            d@ == (DiscoveryView { tokens: token_views(tokens@), page: 0, empty_pages: 0 }),
    {
        Discovery { tokens, page: 0, empty_pages: 0 }
    }

    /// What to do next.
    pub fn status(&self) -> (p: Progress)
        ensures
            p == next_step(self@),
    {
        if self.empty_pages >= EMPTY_STREAK {
            Progress::Finished
        } else if self.page > PAGE_CEILING {
            Progress::TooManyPages
        } else {
            Progress::Fetch(self.page)
        }
    }

    /// The number of the page that is asked for next.
    pub fn page(&self) -> (page: usize)
        ensures
            page == self@.page,
    {
        self.page
    }

    /// How many pages in a row have brought nothing new.
    pub fn empty_pages(&self) -> (n: usize)
        ensures
            n == self@.empty_pages,
    {
        self.empty_pages
    }

    /// The tokens gathered so far: those of the checklist, then the news of
    /// each page taken in.
    pub fn tokens(&self) -> (tokens: &Vec<Token>)
        ensures
            token_views(tokens@) == self@.tokens,
    {
        &self.tokens
    }

    /// Takes in the tokens of the page that was asked for, and says what to
    /// do next.
    ///
    /// Items whose id is among `known` are left out; every other token of the
    /// page joins the tokens gathered so far. A page without a new item
    /// counts as empty. If the search has stopped already, nothing changes.
    pub fn absorb(&mut self, page: Vec<Token>, known: &Vec<String>) -> (p: Progress)
        ensures
            final(self)@ == after_page(old(self)@, token_views(page@), texts(known@)),
            p == next_step(final(self)@),
    {
        match self.status() {
            Progress::Fetch(_) => {},
            stopped => {
                return stopped;
            },
        }
        let ghost views = token_views(page@);
        let ghost ids = texts(known@);
        let found = count_new_issues(&page, known);
        proof {
            assert(views.take(0) =~= Seq::<TokenView>::empty());
            assert(old(self)@.tokens + Seq::<TokenView>::empty() =~= old(self)@.tokens);
        }
        for token in it: page
            invariant
                it.seq() == page@,
                views == token_views(page@),
                ids == texts(known@),
                self.page == old(self).page,
                self.empty_pages == old(self).empty_pages,
                self@.tokens == old(self)@.tokens + news(views.take(it.index() as int), ids),
        {
            let ghost idx = it.index() as int;
            let ghost before = self.tokens@;
            proof {
                assert(views.take(idx + 1).drop_last() =~= views.take(idx));
                assert(views.take(idx + 1).last() == token@);
            }
            let keep = match &token {
                Token::Issue(issue) => !is_known(known, issue.source.id.as_str()),
                _ => true,
            };
            if keep {
                self.tokens.push(token);
                proof {
                    assert(token_views(self.tokens@) =~= token_views(before).push(token@));
                    assert(self@.tokens =~= old(self)@.tokens + news(views.take(idx + 1), ids));
                }
            }
        }
        proof {
            assert(views.take(page@.len() as int) =~= views);
        }
        self.page += 1;
        if found == 0 {
            self.empty_pages += 1;
        } else {
            self.empty_pages = 0;
        }
        self.status()
    }

    /// The checklist with the news in it, as text: the tokens gathered are
    /// parsed, the small sections are gathered into one, and the document is
    /// written.
    pub fn finish(self) -> (text: String)
        ensures
            text@ == document_text(collapsed(parse_tokens(self@.tokens))),
    {
        match parse(self.tokens) {
            Ok(doc) => {
                let gathered = collapse_anemic(doc);
                crate::writer::write(&gathered)
            },
            Err(_) => String::new(),
        }
    }
}

/// Whether every item among the tokens `page` has an id that is known.
pub open spec fn all_known(page: Seq<TokenView>, known: Seq<Seq<char>>) -> bool {
    forall|i: int|
        0 <= i < page.len() ==> (#[trigger] page[i] matches TokenView::Issue(issue)
            ==> known.contains(issue.source.id))
}

/// A page all of whose items are known has no new item.
pub proof fn lemma_known_page_is_empty(page: Seq<TokenView>, known: Seq<Seq<char>>)
    requires
        all_known(page, known),
    ensures
        new_issues(page, known) == 0,
    decreases page.len(),
{
    if page.len() > 0 {
        let init = page.drop_last();
        assert forall|i: int| 0 <= i < init.len() implies (#[trigger] init[i] matches TokenView::Issue(
            issue,
        ) ==> known.contains(issue.source.id)) by {
            assert(init[i] == page[i]);
        }
        lemma_known_page_is_empty(init, known);
        assert(page.last() == page[page.len() - 1]);
    }
}

/// Two pages in a row on which every advisory is known end the search, and
/// no sooner: if no page in a row has been empty yet and the ceiling is not
/// in the way, the search goes on after the first such page, asking for the
/// next, and is finished after the second, asking for no third.
pub proof fn law_two_known_pages_finish(
    st: DiscoveryView,
    first: Seq<TokenView>,
    second: Seq<TokenView>,
    known: Seq<Seq<char>>,
)
    requires
        st.empty_pages == 0,
        st.page < PAGE_CEILING,
        all_known(first, known),
        all_known(second, known),
    ensures
        next_step(st) == Progress::Fetch(st.page as usize),
        next_step(after_page(st, first, known)) == Progress::Fetch((st.page + 1) as usize),
        next_step(after_page(after_page(st, first, known), second, known)) == Progress::Finished,
{
    lemma_known_page_is_empty(first, known);
    lemma_known_page_is_empty(second, known);
}

} // verus!
