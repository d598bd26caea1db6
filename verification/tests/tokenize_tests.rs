use lwnvulns::tokenize::{
    parse_header, parse_issue, tokenize, Header, Issue, SourceLink, Token,
};

#[test]
fn test_tokenize() {
    let input = "this
is
garbage
### Here too! ( :) )
### This is a header (0 issues)
### This is a header too (1 issue) lol
garbage1
 - [ ] [`#123456`](http://foo...) not done
garbage2
 - [x] [`#7890`](http://bar...) done
garbage3
";
    let expect = vec![
        Token::Preamble("this".to_string()),
        Token::Preamble("is".to_string()),
        Token::Preamble("garbage".to_string()),
        Token::Preamble("### Here too! ( :) )".to_string()),
        Token::Header(Header {
            package: "This is a header".to_string(),
            issue_count: 0,
            notes: None,
        }),
        Token::Header(Header {
            package: "This is a header too".to_string(),
            issue_count: 1,
            notes: Some("lol".to_string()),
        }),
        Token::Issue(Issue {
            complete: false,
            source: SourceLink {
                url: "http://foo...".to_string(),
                id: "123456".to_string(),
            },
            content: "not done".to_string(),
        }),
        Token::Issue(Issue {
            complete: true,
            source: SourceLink {
                url: "http://bar...".to_string(),
                id: "7890".to_string(),
            },
            content: "done".to_string(),
        }),
    ];

    assert_eq!(tokenize(input.to_string()), expect);
}

fn header(package: &str, issue_count: i32, notes: Option<&str>) -> Token {
    Token::Header(Header {
        package: package.to_string(),
        issue_count,
        notes: notes.map(|n| n.to_string()),
    })
}

fn item(complete: bool, id: &str, url: &str, content: &str) -> Token {
    Token::Issue(Issue {
        complete,
        source: SourceLink {
            url: url.to_string(),
            id: id.to_string(),
        },
        content: content.to_string(),
    })
}

fn preamble(line: &str) -> Token {
    Token::Preamble(line.to_string())
}

#[test]
fn test_tokenize_empty_text_has_no_tokens() {
    assert_eq!(tokenize(String::new()), vec![]);
}

#[test]
fn test_tokenize_last_line_needs_no_line_feed() {
    assert_eq!(
        tokenize("one\ntwo".to_string()),
        vec![preamble("one"), preamble("two")]
    );
    assert_eq!(
        tokenize("one\ntwo\n".to_string()),
        vec![preamble("one"), preamble("two")]
    );
}

#[test]
fn test_tokenize_keeps_empty_preamble_lines() {
    assert_eq!(
        tokenize("one\n\ntwo\n".to_string()),
        vec![preamble("one"), preamble(""), preamble("two")]
    );
}

#[test]
fn test_tokenize_carriage_returns() {
    // A carriage return before a line feed belongs to the line ending.
    assert_eq!(
        tokenize("one\r\n### pkg (2 issues)\r\n".to_string()),
        vec![preamble("one"), header("pkg", 2, None)]
    );
    // Only one is taken, and none at the very end of the text.
    assert_eq!(
        tokenize("one\r\r\ntwo\r".to_string()),
        vec![preamble("one\r"), preamble("two\r")]
    );
}

#[test]
fn test_tokenize_header_closes_the_preamble_for_good() {
    let input = "intro\n### pkg (0 issues)\nnot preamble any more\n### other (3 issues) n\nstill not\n";
    assert_eq!(
        tokenize(input.to_string()),
        vec![
            preamble("intro"),
            header("pkg", 0, None),
            header("other", 3, Some("n")),
        ]
    );
}

#[test]
fn test_tokenize_item_before_any_header_is_preamble() {
    let input = " - [ ] [`#1`](http://a) early\n### pkg (1 issue)\n - [ ] [`#1`](http://a) late\n";
    assert_eq!(
        tokenize(input.to_string()),
        vec![
            preamble(" - [ ] [`#1`](http://a) early"),
            header("pkg", 1, None),
            item(false, "1", "http://a", "late"),
        ]
    );
}

#[test]
fn test_tokenize_drops_blank_and_stray_lines_after_header() {
    let input = "### pkg (1 issue)\n\nstray\n - [x] [`#9`](u) c\n\n";
    assert_eq!(
        tokenize(input.to_string()),
        vec![header("pkg", 1, None), item(true, "9", "u", "c")]
    );
}

#[test]
fn test_header_lines() {
    let read = |line: &str| parse_header(line.to_string());
    assert_eq!(read("### pkg (0 issues)"), Some(header("pkg", 0, None)));
    assert_eq!(read("### pkg (1 issue)"), Some(header("pkg", 1, None)));
    // Singular and plural are both read, whatever the count.
    assert_eq!(read("### pkg (1 issues)"), Some(header("pkg", 1, None)));
    assert_eq!(read("### pkg (5 issue)"), Some(header("pkg", 5, None)));
    assert_eq!(read("### pkg (007 issues)"), Some(header("pkg", 7, None)));
    assert_eq!(
        read("### pkg (2 issues) note text"),
        Some(header("pkg", 2, Some("note text")))
    );
    // What follows the one space belongs to the notes, spaces too.
    assert_eq!(
        read("### pkg (2 issues)  two"),
        Some(header("pkg", 2, Some(" two")))
    );
    // Empty notes are none.
    assert_eq!(read("### pkg (2 issues) "), Some(header("pkg", 2, None)));
    // The package may be empty, and may hold spaces and brackets.
    assert_eq!(read("###  (2 issues)"), Some(header("", 2, None)));
    assert_eq!(
        read("### a b(c) (2 issues)"),
        Some(header("a b(c)", 2, None))
    );
    // The package ends at the first ` (` of the line.
    assert_eq!(
        read("### a (1 issue) b (2 issues) c"),
        Some(header("a", 1, Some("b (2 issues) c")))
    );
    assert_eq!(
        read("### pkg (2147483647 issues)"),
        Some(header("pkg", 2147483647, None))
    );
}

#[test]
fn test_lines_that_are_no_headers() {
    let read = |line: &str| parse_header(line.to_string());
    assert_eq!(read(""), None);
    assert_eq!(read("###"), None);
    assert_eq!(read("### Here too! ( :) )"), None);
    assert_eq!(read("## pkg (1 issue)"), None);
    assert_eq!(read(" ### pkg (1 issue)"), None);
    assert_eq!(read("### pkg (1 issue"), None);
    assert_eq!(read("### pkg ( issues)"), None);
    assert_eq!(read("### pkg (-1 issues)"), None);
    assert_eq!(read("### pkg (+1 issues)"), None);
    assert_eq!(read("### pkg (1  issue)"), None);
    assert_eq!(read("### pkg (1 issuez)"), None);
    assert_eq!(read("### pkg(1 issue)"), None);
    // Notes stand after a space.
    assert_eq!(read("### pkg (1 issue)lol"), None);
    // Brackets in the package end it, and what follows is no count.
    assert_eq!(read("### a (b) (2 issues)"), None);
    // A count beyond the largest one is none.
    assert_eq!(read("### pkg (2147483648 issues)"), None);
    assert_eq!(read("### pkg (99999999999999999999999 issues)"), None);
    // Other digits than the ASCII ones are none.
    assert_eq!(read("### pkg (\u{663} issues)"), None);
}

#[test]
fn test_item_lines() {
    let read = |line: &str| parse_issue(line.to_string());
    assert_eq!(
        read(" - [ ] [`#42`](http://x) desc"),
        Some(item(false, "42", "http://x", "desc"))
    );
    assert_eq!(
        read("- [x] [`#42`](http://x) desc"),
        Some(item(true, "42", "http://x", "desc"))
    );
    // Id, url and content may be empty.
    assert_eq!(read("- [ ] [`#`]() "), Some(item(false, "", "", "")));
    // The url ends at the first closing bracket, and the content may hold more.
    assert_eq!(
        read(" - [ ] [`#1`](http://x) ([search](http://s), [files](http://f))  text"),
        Some(item(
            false,
            "1",
            "http://x",
            "([search](http://s), [files](http://f))  text"
        ))
    );
}

#[test]
fn test_lines_that_are_no_items() {
    let read = |line: &str| parse_issue(line.to_string());
    assert_eq!(read(""), None);
    assert_eq!(read("  - [ ] [`#42`](http://x) desc"), None);
    assert_eq!(read(" - [X] [`#42`](http://x) desc"), None);
    assert_eq!(read(" - [] [`#42`](http://x) desc"), None);
    assert_eq!(read(" - [ ] [`42`](http://x) desc"), None);
    assert_eq!(read(" - [ ] [`#42`] (http://x) desc"), None);
    assert_eq!(read(" - [ ] [`#42`](http://x)desc"), None);
    assert_eq!(read(" - [ ] [`#42`](http://x)"), None);
    assert_eq!(read(" - [ ] [`#42](http://x) desc"), None);
    // The id ends at the first backtick.
    assert_eq!(read(" - [ ] [`#4`2`](http://x) desc"), None);
    // The url ends at the first closing bracket.
    assert_eq!(read(" - [ ] [`#42`](http://x)) desc"), None);
}

#[test]
fn test_header_to_string() {
    let text = |package: &str, issue_count: i32, notes: Option<&str>| {
        Header {
            package: package.to_string(),
            issue_count,
            notes: notes.map(|n| n.to_string()),
        }
        .to_string()
    };
    assert_eq!(text("pkg", 0, None), "### pkg (0 issues)");
    assert_eq!(text("pkg", 1, None), "### pkg (1 issue)");
    assert_eq!(text("pkg", 2, None), "### pkg (2 issues)");
    assert_eq!(text("pkg", 1, Some("lol")), "### pkg (1 issue) lol");
    assert_eq!(text("pkg", 12, Some(" lol")), "### pkg (12 issues)  lol");
    assert_eq!(text("pkg", 3, Some("")), "### pkg (3 issues) ");
    assert_eq!(text("pkg", -1, None), "### pkg (-1 issues)");
    assert_eq!(
        text("pkg", i32::MIN, None),
        "### pkg (-2147483648 issues)"
    );
    assert_eq!(
        text("pkg", i32::MAX, None),
        "### pkg (2147483647 issues)"
    );
    assert_eq!(text("", 10, None), "###  (10 issues)");
}

#[test]
fn test_issue_to_string() {
    let open = Issue {
        complete: false,
        source: SourceLink {
            url: "http://x".to_string(),
            id: "42".to_string(),
        },
        content: "desc".to_string(),
    };
    assert_eq!(open.to_string(), " - [ ] [`#42`](http://x) desc");
    let closed = Issue {
        complete: true,
        source: SourceLink {
            url: "u".to_string(),
            id: "i".to_string(),
        },
        content: String::new(),
    };
    assert_eq!(closed.to_string(), " - [x] [`#i`](u) ");
}

#[test]
fn test_token_to_string() {
    assert_eq!(preamble("any line").to_string(), "any line");
    assert_eq!(
        header("pkg", 1, Some("n")).to_string(),
        "### pkg (1 issue) n"
    );
    assert_eq!(
        item(true, "7", "http://y", "c").to_string(),
        " - [x] [`#7`](http://y) c"
    );
}

#[test]
fn test_lines_read_back_as_the_tokens_they_were_written_from() {
    let h = header("some package", 17, Some("notes (with brackets)"));
    assert_eq!(parse_header(h.to_string()), Some(h));
    let i = item(true, "CVE-1", "https://lwn.net/1/", "a (b) `c`");
    assert_eq!(parse_issue(i.to_string()), Some(i));
}

#[test]
fn test_header_clone_is_equal() {
    let h = Header {
        package: "pkg".to_string(),
        issue_count: 3,
        notes: Some("n".to_string()),
    };
    assert_eq!(h.clone(), h);
}
