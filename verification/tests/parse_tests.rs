use lwnvulns::parse::{parse, Document, Report, Section};
use lwnvulns::tokenize::{Header, Issue, SourceLink, Token};

fn issue(complete: bool, content: &str, id: &str, url: &str) -> Issue {
    Issue {
        complete: complete,
        content: content.to_string(),
        source: SourceLink {
            id: id.to_string(),
            url: url.to_string(),
        },
    }
}

#[test]
fn test_parse() {
    let input = vec![
        Token::Preamble("this".to_string()),
        Token::Preamble("is".to_string()),
        Token::Preamble("garbage".to_string()),
        Token::Preamble("### Here too! ( :) )".to_string()),
        Token::Header(Header {
            package: "This is a header".to_string(),
            issue_count: 0,
            notes: None,
        }),
        Token::Header(Header {
            package: "This is a header too".to_string(),
            issue_count: 1,
            notes: Some(" lol".to_string()),
        }),
        Token::Issue(Issue {
            complete: false,
            content: "not done".to_string(),
            source: SourceLink {
                id: "1".to_string(),
                url: "http://1".to_string(),
            },
        }),
        Token::Issue(Issue {
            complete: true,
            content: "done".to_string(),
            source: SourceLink {
                id: "2".to_string(),
                url: "http://2".to_string(),
            },
        }),
    ];

    let mut expect = Document {
        preamble: vec![
            Token::Preamble("this".to_string()),
            Token::Preamble("is".to_string()),
            Token::Preamble("garbage".to_string()),
            Token::Preamble("### Here too! ( :) )".to_string()),
        ],
        report: Report::new(),
    };

    expect.report.insert(
        "This is a header".to_string(),
        Section {
            header: Header {
                package: "This is a header".to_string(),
                issue_count: 0,
                notes: None,
            },
            children: vec![],
        },
    );

    expect.report.insert(
        "This is a header too".to_string(),
        Section {
            header: Header {
                package: "This is a header too".to_string(),
                issue_count: 2,
                notes: Some(" lol".to_string()),
            },
            children: vec![
                Issue {
                    complete: false,
                    content: "not done".to_string(),
                    source: SourceLink {
                        id: "1".to_string(),
                        url: "http://1".to_string(),
                    },
                },
                Issue {
                    complete: true,
                    content: "done".to_string(),
                    source: SourceLink {
                        id: "2".to_string(),
                        url: "http://2".to_string(),
                    },
                },
            ],
        },
    );

    assert_eq!(parse(input), Ok(expect));
}

#[test]
fn test_parse_duplicated_headers() {
    let input = vec![
        Token::Header(Header {
            package: "PackageA".to_string(),
            issue_count: 1,
            notes: Some("lol".to_string()),
        }),
        Token::Issue(Issue {
            complete: false,
            content: "not done".to_string(),
            source: SourceLink {
                id: "3".to_string(),
                url: "http://3".to_string(),
            },
        }),
        Token::Header(Header {
            package: "PackageA".to_string(),
            issue_count: 1,
            notes: None,
        }),
        Token::Issue(Issue {
            complete: true,
            content: "done".to_string(),
            source: SourceLink {
                id: "4".to_string(),
                url: "http://4".to_string(),
            },
        }),
    ];

    let mut expect = Document {
        preamble: vec![],
        report: Report::new(),
    };
    expect.report.insert(
        "PackageA".to_string(),
        Section {
            header: Header {
                package: "PackageA".to_string(),
                issue_count: 2,
                notes: Some("lol".to_string()),
            },
            children: vec![
                Issue {
                    complete: false,
                    content: "not done".to_string(),
                    source: SourceLink {
                        id: "3".to_string(),
                        url: "http://3".to_string(),
                    },
                },
                Issue {
                    complete: true,
                    content: "done".to_string(),
                    source: SourceLink {
                        id: "4".to_string(),
                        url: "http://4".to_string(),
                    },
                },
            ],
        },
    );

    assert_eq!(parse(input), Ok(expect));
}

#[test]
fn test_count_issues() {
    let mut doc = Document {
        preamble: vec![],
        report: Report::new(),
    };
    doc.report.insert(
        "PackageA".to_string(),
        Section {
            header: Header {
                package: "PackageA".to_string(),
                issue_count: 2,
                notes: Some("lol".to_string()),
            },
            children: vec![
                Issue {
                    complete: false,
                    content: "not done".to_string(),
                    source: SourceLink {
                        id: "5".to_string(),
                        url: "http://5".to_string(),
                    },
                },
                Issue {
                    complete: true,
                    content: "done".to_string(),
                    source: SourceLink {
                        id: "6".to_string(),
                        url: "http://6".to_string(),
                    },
                },
            ],
        },
    );

    doc.report.insert(
        "PackageB".to_string(),
        Section {
            header: Header {
                package: "PackageB".to_string(),
                issue_count: 2,
                notes: Some("lol".to_string()),
            },
            children: vec![
                Issue {
                    complete: false,
                    content: "not done".to_string(),
                    source: SourceLink {
                        id: "7".to_string(),
                        url: "http://7".to_string(),
                    },
                },
                Issue {
                    complete: true,
                    content: "done".to_string(),
                    source: SourceLink {
                        id: "8".to_string(),
                        url: "http://8".to_string(),
                    },
                },
            ],
        },
    );

    assert_eq!(doc.count_issues(), 4)
}

fn header(package: &str, issue_count: i32, notes: Option<&str>) -> Header {
    Header {
        package: package.to_string(),
        issue_count,
        notes: notes.map(|n| n.to_string()),
    }
}

fn section(package: &str, notes: Option<&str>, children: Vec<Issue>) -> Section {
    Section {
        header: header(package, children.len() as i32, notes),
        children,
    }
}

#[test]
fn test_duplicate_header_lines_accumulate() {
    let text = "### foo (2 issues) note text
 - [ ] [`#1`](http://1) first
 - [x] [`#2`](http://2) second
### bar (1 issue)
 - [ ] [`#3`](http://3) third
### foo (1 issue)
 - [ ] [`#4`](http://4) fourth
";
    let doc = parse(lwnvulns::tokenize::tokenize(text.to_string())).unwrap();

    let mut expect = Document {
        preamble: vec![],
        report: Report::new(),
    };
    expect.report.insert(
        "foo".to_string(),
        section(
            "foo",
            Some("note text"),
            vec![
                issue(false, "first", "1", "http://1"),
                issue(true, "second", "2", "http://2"),
                issue(false, "fourth", "4", "http://4"),
            ],
        ),
    );
    expect.report.insert(
        "bar".to_string(),
        section("bar", None, vec![issue(false, "third", "3", "http://3")]),
    );
    assert_eq!(doc, expect);
    assert_eq!(doc.report.len(), 2);
    assert_eq!(doc.count_issues(), 4);
}

#[test]
fn test_parse_nothing() {
    let doc = parse(vec![]).unwrap();
    assert_eq!(
        doc,
        Document {
            preamble: vec![],
            report: Report::new()
        }
    );
    assert_eq!(doc.count_issues(), 0);
}

#[test]
fn test_parse_drops_item_without_section() {
    let input = vec![
        Token::Preamble("intro".to_string()),
        Token::Issue(issue(false, "orphan", "0", "http://0")),
        Token::Preamble("late".to_string()),
        Token::Header(header("pkg", 9, None)),
        Token::Issue(issue(true, "kept", "1", "http://1")),
    ];
    let mut expect = Document {
        preamble: vec![Token::Preamble("intro".to_string())],
        report: Report::new(),
    };
    expect.report.insert(
        "pkg".to_string(),
        section("pkg", None, vec![issue(true, "kept", "1", "http://1")]),
    );
    assert_eq!(parse(input), Ok(expect));
}

#[test]
fn test_parse_passes_over_preamble_after_header() {
    let input = vec![
        Token::Header(header("pkg", 0, None)),
        Token::Preamble("stray".to_string()),
        Token::Issue(issue(false, "kept", "1", "http://1")),
    ];
    let mut expect = Document {
        preamble: vec![],
        report: Report::new(),
    };
    expect.report.insert(
        "pkg".to_string(),
        section("pkg", None, vec![issue(false, "kept", "1", "http://1")]),
    );
    assert_eq!(parse(input), Ok(expect));
}

#[test]
fn test_parse_discards_the_count_of_the_header_line() {
    let input = vec![
        Token::Header(header("pkg", 40, Some("n"))),
        Token::Issue(issue(false, "a", "1", "http://1")),
    ];
    let doc = parse(input).unwrap();
    let found = doc.report.get("pkg").unwrap();
    assert_eq!(found.header.issue_count, 1);
    assert_eq!(found.children.len(), 1);
}

#[test]
fn test_count_issues_is_the_sum_of_the_children() {
    let mut doc = Document {
        preamble: vec![Token::Preamble("p".to_string())],
        report: Report::new(),
    };
    assert_eq!(doc.count_issues(), 0);
    // The counts that the headers hold do not matter.
    doc.report.insert(
        "a".to_string(),
        Section {
            header: header("a", 10, None),
            children: vec![issue(false, "x", "1", "u")],
        },
    );
    doc.report.insert(
        "b".to_string(),
        Section {
            header: header("b", -3, None),
            children: vec![],
        },
    );
    doc.report.insert(
        "c".to_string(),
        Section {
            header: header("c", 0, None),
            children: vec![
                issue(false, "x", "2", "u"),
                issue(true, "y", "3", "u"),
                issue(true, "z", "4", "u"),
            ],
        },
    );
    assert_eq!(doc.count_issues(), 4);
    let sum: usize = doc
        .report
        .entries()
        .iter()
        .map(|entry| entry.section.children.len())
        .sum();
    assert_eq!(doc.count_issues(), sum);
}

#[test]
fn test_report_keeps_names_in_order_whatever_the_order_of_insertion() {
    let mut forward = Report::new();
    let mut backward = Report::new();
    let names = ["B", "a", "A", "", "b", "Aa", "\u{e9}", "z"];
    for name in names.iter() {
        forward.insert(name.to_string(), section(name, None, vec![]));
    }
    for name in names.iter().rev() {
        backward.insert(name.to_string(), section(name, None, vec![]));
    }
    assert_eq!(forward, backward);
    let keys: Vec<&str> = forward
        .entries()
        .iter()
        .map(|entry| entry.key.as_str())
        .collect();
    assert_eq!(keys, vec!["", "A", "Aa", "B", "a", "b", "z", "\u{e9}"]);
    let mut sorted: Vec<String> = names.iter().map(|n| n.to_string()).collect();
    sorted.sort();
    assert_eq!(keys, sorted);
}

#[test]
fn test_report_insert_replaces() {
    let mut report = Report::new();
    report.insert(
        "pkg".to_string(),
        section("pkg", None, vec![issue(false, "old", "1", "u")]),
    );
    report.insert(
        "pkg".to_string(),
        section("pkg", Some("n"), vec![issue(true, "new", "2", "u")]),
    );
    assert_eq!(report.len(), 1);
    assert_eq!(
        report.get("pkg"),
        Some(&section(
            "pkg",
            Some("n"),
            vec![issue(true, "new", "2", "u")]
        ))
    );
    assert_eq!(report.get("other"), None);
}

#[test]
fn test_report_or_insert_keeps_what_is_there() {
    let mut report = Report::new();
    report.insert("m".to_string(), section("m", Some("first"), vec![]));
    let at = report.or_insert("m".to_string(), section("m", Some("second"), vec![]));
    assert_eq!(at, 0);
    assert_eq!(report.len(), 1);
    assert_eq!(report.get("m").unwrap().header.notes, Some("first".to_string()));
    let at = report.or_insert("a".to_string(), section("a", None, vec![]));
    assert_eq!(at, 0);
    let at = report.or_insert("z".to_string(), section("z", None, vec![]));
    assert_eq!(at, 2);
    assert_eq!(report.position("m"), (1, true));
    assert_eq!(report.position("n"), (2, false));
    assert_eq!(report.position("zz"), (3, false));
}

#[test]
fn test_report_push_issue_bumps_the_count() {
    let mut report = Report::new();
    report.insert("a".to_string(), section("a", None, vec![]));
    report.insert(
        "b".to_string(),
        Section {
            header: header("b", i32::MAX, None),
            children: vec![],
        },
    );
    report.push_issue(0, issue(false, "x", "1", "u"));
    report.push_issue(0, issue(true, "y", "2", "u"));
    report.push_issue(1, issue(true, "z", "3", "u"));
    let a = report.get("a").unwrap();
    assert_eq!(a.header.issue_count, 2);
    assert_eq!(
        a.children,
        vec![issue(false, "x", "1", "u"), issue(true, "y", "2", "u")]
    );
    // The count stays at the largest one.
    let b = report.get("b").unwrap();
    assert_eq!(b.header.issue_count, i32::MAX);
    assert_eq!(b.children.len(), 1);
    let entries = report.into_entries();
    assert_eq!(entries.len(), 2);
    assert_eq!(entries[0].key, "a");
}

#[test]
fn test_preamble_is_text() {
    let good = Document {
        preamble: vec![Token::Preamble("p".to_string())],
        report: Report::new(),
    };
    assert!(good.preamble_is_text());
    let bad = Document {
        preamble: vec![
            Token::Preamble("p".to_string()),
            Token::Header(header("h", 0, None)),
        ],
        report: Report::new(),
    };
    assert!(!bad.preamble_is_text());
}
