use lwnvulns::discover::{
    count_new_issues, is_known, known_ids, page_url, row_from_cells, row_to_tokens,
    rows_from_table, split_packages, tokens_from_rows, Cells, Discovery, Link, LwnRow, Progress,
    RowError, EMPTY_STREAK, PAGE_CEILING, PAGE_SIZE,
};
use lwnvulns::tokenize::{tokenize, Header, Issue, SourceLink, Token};

fn names(packages: &str) -> Vec<String> {
    split_packages(packages.to_string())
}

fn row(id: &str, packages: &str) -> LwnRow {
    LwnRow {
        url: format!("/Vulnerabilities/{}/", id),
        id: id.to_string(),
        packages: packages.to_string(),
        description: format!("about {}", id),
    }
}

fn header(package: &str) -> Token {
    Token::Header(Header {
        package: package.to_string(),
        issue_count: 0,
        notes: None,
    })
}

fn item(id: &str, package: &str) -> Token {
    Token::Issue(Issue {
        complete: false,
        source: SourceLink {
            id: id.to_string(),
            url: format!("https://lwn.net/Vulnerabilities/{}/", id),
        },
        content: format!(
            "([search](http://search.nix.gsc.io/?q={p}&i=fosho&repos=nixos-nixpkgs), [files](https://github.com/NixOS/nixpkgs/search?utf8=%E2%9C%93&q={p}+in%3Apath&type=Code))  about {id}",
            p = package,
            id = id
        ),
    })
}

fn page(ids: &[&str]) -> Vec<Token> {
    tokens_from_rows(ids.iter().map(|id| row(id, "pkg")).collect())
}

#[test]
fn test_split_packages() {
    assert_eq!(names(""), Vec::<String>::new());
    assert_eq!(names("   \t\n"), Vec::<String>::new());
    assert_eq!(names("zlib"), vec!["zlib"]);
    assert_eq!(names("  zlib   openssl\tcurl\n"), vec!["zlib", "openssl", "curl"]);
    assert_eq!(names("zlib, openssl,curl"), vec!["zlib", "opensslcurl"]);
    assert_eq!(names("a,b,,c"), vec!["abc"]);
    // A word of commas alone is an empty name.
    assert_eq!(names("a , b"), vec!["a", "", "b"]);
    assert_eq!(names("a\u{a0}b\u{3000}c\u{2003}d"), vec!["a", "b", "c", "d"]);
}

#[test]
fn test_split_packages_uses_the_names_of_the_checklist() {
    assert_eq!(
        names("tiff libgc perl-DBD-MySQL httpd"),
        vec!["libtiff", "boehm-gc", "DBD-mysql", "apache-httpd"]
    );
    // The comma goes first.
    assert_eq!(names("tiff, ht,tpd"), vec!["libtiff", "apache-httpd"]);
    // Only the whole name counts, and as it is written.
    assert_eq!(
        names("libtiff Tiff tiff2 httpd-tools"),
        vec!["libtiff", "Tiff", "tiff2", "httpd-tools"]
    );
}

#[test]
fn test_row_to_tokens() {
    let tokens = row_to_tokens(LwnRow {
        url: "/Vulnerabilities/715431/".to_string(),
        id: "715431".to_string(),
        packages: "tiff, zlib".to_string(),
        description: "overflow".to_string(),
    });
    let expect = vec![
        Token::Header(Header {
            issue_count: 0,
            notes: None,
            package: "libtiff".to_string(),
        }),
        Token::Issue(Issue {
            complete: false,
            source: SourceLink {
                id: "715431".to_string(),
                url: "https://lwn.net/Vulnerabilities/715431/".to_string(),
            },
            content: "([search](http://search.nix.gsc.io/?q=libtiff&i=fosho&repos=nixos-nixpkgs), [files](https://github.com/NixOS/nixpkgs/search?utf8=%E2%9C%93&q=libtiff+in%3Apath&type=Code))  overflow".to_string(),
        }),
        Token::Header(Header {
            issue_count: 0,
            notes: None,
            package: "zlib".to_string(),
        }),
        Token::Issue(Issue {
            complete: false,
            source: SourceLink {
                id: "715431".to_string(),
                url: "https://lwn.net/Vulnerabilities/715431/".to_string(),
            },
            content: "([search](http://search.nix.gsc.io/?q=zlib&i=fosho&repos=nixos-nixpkgs), [files](https://github.com/NixOS/nixpkgs/search?utf8=%E2%9C%93&q=zlib+in%3Apath&type=Code))  overflow".to_string(),
        }),
    ];
    assert_eq!(tokens, expect);
}

#[test]
fn test_row_without_packages_gives_no_tokens() {
    assert_eq!(row_to_tokens(row("1", "  ")), vec![]);
}

#[test]
fn test_tokens_from_rows() {
    assert_eq!(tokens_from_rows(vec![]), vec![]);
    assert_eq!(
        tokens_from_rows(vec![row("1", "a b"), row("2", ""), row("3", "a")]),
        vec![
            header("a"),
            item("1", "a"),
            header("b"),
            item("1", "b"),
            header("a"),
            item("3", "a"),
        ]
    );
}

#[test]
fn test_item_of_a_row_reads_back_from_its_line() {
    let tokens = row_to_tokens(row("715431", "zlib"));
    let text = format!("{}\n{}\n", tokens[0].to_string(), tokens[1].to_string());
    assert_eq!(tokenize(text), tokens);
}

fn cells(link: Option<(Option<&str>, &str)>, packages: Option<&str>, description: Option<&str>) -> Cells {
    Cells {
        link: link.map(|(href, text)| Link {
            href: href.map(|h| h.to_string()),
            text: text.to_string(),
        }),
        packages: packages.map(|p| p.to_string()),
        description: description.map(|d| d.to_string()),
    }
}

#[test]
fn test_row_from_cells() {
    assert_eq!(
        row_from_cells(cells(Some((Some("/V/1/"), "1")), Some("zlib"), Some("d"))),
        Ok(Some(LwnRow {
            url: "/V/1/".to_string(),
            id: "1".to_string(),
            packages: "zlib".to_string(),
            description: "d".to_string(),
        }))
    );
    // A row without a link is no row of the listing, whatever else it holds.
    assert_eq!(row_from_cells(cells(None, None, None)), Ok(None));
    assert_eq!(row_from_cells(cells(None, Some("zlib"), Some("d"))), Ok(None));
}

#[test]
fn test_row_from_cells_errors() {
    assert_eq!(
        row_from_cells(cells(Some((Some("/V/1/"), "1")), None, Some("d"))),
        Err(RowError::MissingPackages)
    );
    assert_eq!(
        row_from_cells(cells(Some((Some("/V/1/"), "1")), Some("zlib"), None)),
        Err(RowError::MissingDescription)
    );
    assert_eq!(
        row_from_cells(cells(Some((None, "1")), Some("zlib"), Some("d"))),
        Err(RowError::MissingAddress)
    );
    // The first thing that is missing is the error.
    assert_eq!(
        row_from_cells(cells(Some((None, "1")), None, None)),
        Err(RowError::MissingPackages)
    );
    assert_eq!(
        row_from_cells(cells(Some((None, "1")), Some("zlib"), None)),
        Err(RowError::MissingDescription)
    );
}

#[test]
fn test_rows_from_table() {
    assert_eq!(rows_from_table(vec![]), Ok(vec![]));
    let table = vec![
        cells(None, None, None),
        cells(Some((Some("/V/1/"), "1")), Some("a"), Some("x")),
        cells(None, Some("heading"), None),
        cells(Some((Some("/V/2/"), "2")), Some("b"), Some("y")),
    ];
    assert_eq!(
        rows_from_table(table),
        Ok(vec![
            LwnRow {
                url: "/V/1/".to_string(),
                id: "1".to_string(),
                packages: "a".to_string(),
                description: "x".to_string(),
            },
            LwnRow {
                url: "/V/2/".to_string(),
                id: "2".to_string(),
                packages: "b".to_string(),
                description: "y".to_string(),
            },
        ])
    );
    let broken = vec![
        cells(Some((Some("/V/1/"), "1")), Some("a"), Some("x")),
        cells(Some((Some("/V/2/"), "2")), Some("b"), None),
        cells(Some((None, "3")), Some("c"), Some("z")),
    ];
    assert_eq!(rows_from_table(broken), Err(RowError::MissingDescription));
}

#[test]
fn test_page_url() {
    assert_eq!(PAGE_SIZE, 100);
    assert_eq!(page_url(0), "https://lwn.net/Vulnerabilities/?n=100&offset=0");
    assert_eq!(page_url(1), "https://lwn.net/Vulnerabilities/?n=100&offset=100");
    assert_eq!(page_url(10), "https://lwn.net/Vulnerabilities/?n=100&offset=1000");
    assert_eq!(
        page_url(usize::MAX),
        format!(
            "https://lwn.net/Vulnerabilities/?n=100&offset={}",
            usize::MAX as u128 * 100
        )
    );
}

#[test]
fn test_known_ids() {
    assert_eq!(known_ids(""), Vec::<String>::new());
    assert_eq!(known_ids("715431\n715432\n\n 715433\t x"), vec!["715431", "715432", "715433", "x"]);
    let known = known_ids("a b\nc");
    assert!(is_known(&known, "a"));
    assert!(is_known(&known, "c"));
    assert!(!is_known(&known, "d"));
    assert!(!is_known(&known, ""));
    assert!(!is_known(&known, "a b"));
    assert!(!is_known(&vec![], "a"));
}

#[test]
fn test_count_new_issues() {
    let known = known_ids("1 3");
    assert_eq!(count_new_issues(&vec![], &known), 0);
    assert_eq!(count_new_issues(&page(&["1", "3"]), &known), 0);
    assert_eq!(count_new_issues(&page(&["1", "2", "3", "4"]), &known), 2);
    // Every package of a new advisory counts.
    assert_eq!(
        count_new_issues(&tokens_from_rows(vec![row("9", "a b c")]), &known),
        3
    );
    // Headers and preamble never count.
    assert_eq!(
        count_new_issues(&vec![header("a"), Token::Preamble("p".to_string())], &known),
        0
    );
}

#[test]
fn test_two_known_pages_end_the_search_after_exactly_those_two() {
    let known = known_ids("1 2 3 4");
    let existing = tokenize("intro\n### pkg (1 issue)\n - [ ] [`#1`](u) c\n".to_string());
    let before = tokenize("intro\n### pkg (1 issue)\n - [ ] [`#1`](u) c\n".to_string());
    let mut search = Discovery::new(existing);
    assert_eq!(search.status(), Progress::Fetch(0));
    assert_eq!(search.absorb(page(&["1", "2"]), &known), Progress::Fetch(1));
    assert_eq!(search.empty_pages(), 1);
    assert_eq!(search.absorb(page(&["3", "4"]), &known), Progress::Finished);
    assert_eq!(search.status(), Progress::Finished);
    assert_eq!(search.page(), 2);
    assert_eq!(search.empty_pages(), EMPTY_STREAK);
    // No item was added; the headers of the pages were.
    let mut expect = before;
    for _ in 0..4 {
        expect.push(header("pkg"));
    }
    assert_eq!(search.tokens(), &expect);
    // A third page is not taken in.
    assert_eq!(search.absorb(page(&["new"]), &known), Progress::Finished);
    assert_eq!(search.page(), 2);
    assert_eq!(search.tokens(), &expect);
}

#[test]
fn test_an_empty_page_after_news_does_not_end_the_search() {
    let known = known_ids("1 2");
    let mut search = Discovery::new(vec![]);
    assert_eq!(search.absorb(page(&["1"]), &known), Progress::Fetch(1));
    assert_eq!(search.absorb(page(&["1", "7"]), &known), Progress::Fetch(2));
    assert_eq!(search.empty_pages(), 0);
    assert_eq!(search.absorb(page(&[]), &known), Progress::Fetch(3));
    assert_eq!(search.absorb(page(&["2"]), &known), Progress::Finished);
    assert_eq!(
        search.tokens(),
        &vec![
            header("pkg"),
            header("pkg"),
            header("pkg"),
            item("7", "pkg"),
            header("pkg"),
        ]
    );
}

#[test]
fn test_search_gives_up_beyond_the_ceiling() {
    assert_eq!(PAGE_CEILING, 10);
    let known = known_ids("old");
    let mut search = Discovery::new(vec![]);
    // Pages with and without news in turn never make two empty ones in a row.
    for number in 0..10 {
        let ids: &[&str] = if number % 2 == 0 { &["new"] } else { &["old"] };
        assert_eq!(search.status(), Progress::Fetch(number));
        assert_eq!(search.absorb(page(ids), &known), Progress::Fetch(number + 1));
    }
    assert_eq!(search.absorb(page(&["new"]), &known), Progress::TooManyPages);
    assert_eq!(search.page(), 11);
    let gathered = search.tokens().len();
    assert_eq!(search.absorb(page(&["new"]), &known), Progress::TooManyPages);
    assert_eq!(search.page(), 11);
    assert_eq!(search.tokens().len(), gathered);
}

#[test]
fn test_two_empty_pages_at_the_ceiling_still_finish() {
    let known = known_ids("old");
    let mut search = Discovery::new(vec![]);
    for _ in 0..9 {
        search.absorb(page(&["new"]), &known);
    }
    assert_eq!(search.absorb(page(&["old"]), &known), Progress::Fetch(10));
    assert_eq!(search.absorb(page(&["old"]), &known), Progress::Finished);
}

#[test]
fn test_finish_writes_the_checklist_with_the_news() {
    let known = known_ids("1");
    let existing = "intro
### zlib (2 issues) n
 - [x] [`#1`](https://lwn.net/1/) done
 - [ ] [`#0`](https://lwn.net/0/) open
";
    let mut search = Discovery::new(tokenize(existing.to_string()));
    search.absorb(
        tokens_from_rows(vec![row("1", "zlib"), row("2", "zlib, tiff")]),
        &known,
    );
    let text = search.finish();
    let expect = format!(
        "intro
### Assorted (1 issue)
{libtiff}

### zlib (3 issues) n
 - [x] [`#1`](https://lwn.net/1/) done
 - [ ] [`#0`](https://lwn.net/0/) open
{zlib}

",
        libtiff = item("2", "libtiff").to_string(),
        zlib = item("2", "zlib").to_string()
    );
    assert_eq!(text, expect);
}
