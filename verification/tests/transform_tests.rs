use lwnvulns::parse::{Document, Report, Section};
use lwnvulns::tokenize::{Header, Issue, SourceLink, Token};
use lwnvulns::transform::{collapse_anemic, partition_completed};

fn preamble() -> Vec<Token> {
    vec![
        Token::Preamble("this".to_string()),
        Token::Preamble("is".to_string()),
        Token::Preamble("garbage".to_string()),
        Token::Preamble("### Here too! ( :) )".to_string()),
    ]
}

#[test]
fn test_lwnvulns_partition() {
    let mut input = Document {
        preamble: vec![
            Token::Preamble("this".to_string()),
            Token::Preamble("is".to_string()),
            Token::Preamble("garbage".to_string()),
            Token::Preamble("### Here too! ( :) )".to_string()),
        ],
        report: Report::new(),
    };

    input.report.insert(
        "This is a header too".to_string(),
        Section {
            header: Header {
                package: "This is a header too".to_string(),
                issue_count: 2,
                notes: Some(" lol".to_string()),
            },
            children: vec![
                Issue {
                    complete: false,
                    content: "not done".to_string(),
                    source: SourceLink {
                        id: "not done".to_string(),
                        url: "http://not done".to_string(),
                    },
                },
                Issue {
                    complete: true,
                    content: "done".to_string(),
                    source: SourceLink {
                        id: "done".to_string(),
                        url: "http://done".to_string(),
                    },
                },
            ],
        },
    );

    let mut expect_todo = Document {
        preamble: vec![
            Token::Preamble("this".to_string()),
            Token::Preamble("is".to_string()),
            Token::Preamble("garbage".to_string()),
            Token::Preamble("### Here too! ( :) )".to_string()),
        ],
        report: Report::new(),
    };

    expect_todo.report.insert(
        "This is a header too".to_string(),
        Section {
            header: Header {
                package: "This is a header too".to_string(),
                issue_count: 1,
                notes: Some(" lol".to_string()),
            },
            children: vec![Issue {
                complete: false,
                content: "not done".to_string(),
                source: SourceLink {
                    id: "not done".to_string(),
                    url: "http://not done".to_string(),
                },
            }],
        },
    );

    let mut expect_done = Document {
        preamble: vec![],
        report: Report::new(),
    };

    expect_done.report.insert(
        "This is a header too".to_string(),
        Section {
            header: Header {
                package: "This is a header too".to_string(),
                issue_count: 1,
                notes: Some(" lol".to_string()),
            },
            children: vec![Issue {
                complete: true,
                content: "done".to_string(),
                source: SourceLink {
                    id: "done".to_string(),
                    url: "http://done".to_string(),
                },
            }],
        },
    );

    let (todo, done) = partition_completed(input);
    assert_eq!(todo, expect_todo);
    assert_eq!(done, expect_done);
}

#[test]
fn test_collapse_anemic() {
    let mut input = Document {
        preamble: vec![
            Token::Preamble("this".to_string()),
            Token::Preamble("is".to_string()),
            Token::Preamble("garbage".to_string()),
            Token::Preamble("### Here too! ( :) )".to_string()),
        ],
        report: Report::new(),
    };

    input.report.insert(
        "This is a header".to_string(),
        Section {
            header: Header {
                package: "This is a header".to_string(),
                issue_count: 1,
                notes: Some(" lol".to_string()),
            },
            children: vec![Issue {
                complete: false,
                content: "not done".to_string(),
                source: SourceLink {
                    id: "not done".to_string(),
                    url: "http://not done".to_string(),
                },
            }],
        },
    );

    input.report.insert(
        "This is a header too".to_string(),
        Section {
            header: Header {
                package: "This is a header too".to_string(),
                issue_count: 1,
                notes: Some(" lol".to_string()),
            },
            children: vec![Issue {
                complete: true,
                content: "done".to_string(),
                source: SourceLink {
                    id: "done".to_string(),
                    url: "http://done".to_string(),
                },
            }],
        },
    );

    let mut expect = Document {
        preamble: vec![
            Token::Preamble("this".to_string()),
            Token::Preamble("is".to_string()),
            Token::Preamble("garbage".to_string()),
            Token::Preamble("### Here too! ( :) )".to_string()),
        ],
        report: Report::new(),
    };

    expect.report.insert(
        "Assorted".to_string(),
        Section {
            header: Header {
                package: "Assorted".to_string(),
                issue_count: 2,
                notes: None,
            },
            children: vec![
                Issue {
                    complete: false,
                    content: "not done".to_string(),
                    source: SourceLink {
                        id: "not done".to_string(),
                        url: "http://not done".to_string(),
                    },
                },
                Issue {
                    complete: true,
                    content: "done".to_string(),
                    source: SourceLink {
                        id: "done".to_string(),
                        url: "http://done".to_string(),
                    },
                },
            ],
        },
    );

    let collapsed = collapse_anemic(input);
    assert_eq!(expect, collapsed);
}

fn issue(complete: bool, id: &str) -> Issue {
    Issue {
        complete,
        content: format!("content of {}", id),
        source: SourceLink {
            id: id.to_string(),
            url: format!("http://{}", id),
        },
    }
}

fn section(package: &str, issue_count: i32, notes: Option<&str>, children: Vec<Issue>) -> Section {
    Section {
        header: Header {
            package: package.to_string(),
            issue_count,
            notes: notes.map(|n| n.to_string()),
        },
        children,
    }
}

fn document(sections: Vec<Section>) -> Document {
    let mut doc = Document {
        preamble: preamble(),
        report: Report::new(),
    };
    for s in sections {
        doc.report.insert(s.header.package.clone(), s);
    }
    doc
}

#[test]
fn test_partition_is_a_disjoint_and_exhaustive_split() {
    let input = document(vec![
        section(
            "mixed",
            0,
            Some("n"),
            vec![
                issue(false, "1"),
                issue(true, "2"),
                issue(false, "3"),
                issue(true, "4"),
                issue(true, "5"),
            ],
        ),
        section("all done", 7, None, vec![issue(true, "6"), issue(true, "7")]),
        section("none done", 7, None, vec![issue(false, "8")]),
        section("empty", 7, None, vec![]),
    ]);
    let total = input.count_issues();
    assert_eq!(total, 8);

    let (todo, done) = partition_completed(input);

    assert_eq!(todo.preamble, preamble());
    assert_eq!(done.preamble, vec![]);

    let mut expect_todo = Report::new();
    expect_todo.insert(
        "mixed".to_string(),
        section("mixed", 2, Some("n"), vec![issue(false, "1"), issue(false, "3")]),
    );
    expect_todo.insert(
        "none done".to_string(),
        section("none done", 1, None, vec![issue(false, "8")]),
    );
    assert_eq!(todo.report, expect_todo);

    let mut expect_done = Report::new();
    expect_done.insert(
        "mixed".to_string(),
        section(
            "mixed",
            3,
            Some("n"),
            vec![issue(true, "2"), issue(true, "4"), issue(true, "5")],
        ),
    );
    expect_done.insert(
        "all done".to_string(),
        section("all done", 2, None, vec![issue(true, "6"), issue(true, "7")]),
    );
    assert_eq!(done.report, expect_done);

    assert_eq!(todo.count_issues() + done.count_issues(), total);
    // A section without items of one kind is not in that part.
    assert_eq!(todo.report.get("all done"), None);
    assert_eq!(done.report.get("none done"), None);
    assert_eq!(todo.report.get("empty"), None);
    assert_eq!(done.report.get("empty"), None);
}

#[test]
fn test_partition_keeps_the_name_a_section_is_kept_under() {
    let mut input = Document {
        preamble: vec![],
        report: Report::new(),
    };
    input.report.insert(
        "key".to_string(),
        section("other name", 0, None, vec![issue(true, "1"), issue(false, "2")]),
    );
    let (todo, done) = partition_completed(input);
    assert_eq!(
        todo.report.get("key"),
        Some(&section("other name", 1, None, vec![issue(false, "2")]))
    );
    assert_eq!(
        done.report.get("key"),
        Some(&section("other name", 1, None, vec![issue(true, "1")]))
    );
}

#[test]
fn test_partition_of_nothing() {
    let (todo, done) = partition_completed(document(vec![]));
    assert_eq!(todo, document(vec![]));
    assert_eq!(
        done,
        Document {
            preamble: vec![],
            report: Report::new()
        }
    );
}

#[test]
fn test_collapse_keeps_big_sections_and_gathers_the_rest_in_order_of_names() {
    let big = || {
        section(
            "big",
            5,
            Some("notes stay"),
            vec![issue(false, "b1"), issue(true, "b2"), issue(false, "b3")],
        )
    };
    let input = document(vec![
        section("zeta", 1, Some("lost notes"), vec![issue(true, "z")]),
        big(),
        section("alpha", 1, None, vec![issue(false, "a")]),
        section("hollow", 0, None, vec![]),
        section("mid", 1, None, vec![issue(false, "m")]),
    ]);
    let total = input.count_issues();

    let collapsed = collapse_anemic(input);

    let mut expect = Document {
        preamble: preamble(),
        report: Report::new(),
    };
    expect.report.insert("big".to_string(), big());
    expect.report.insert(
        "Assorted".to_string(),
        section(
            "Assorted",
            3,
            None,
            vec![issue(false, "a"), issue(false, "m"), issue(true, "z")],
        ),
    );
    assert_eq!(collapsed, expect);
    assert_eq!(collapsed.count_issues(), total);
}

#[test]
fn test_collapse_without_small_sections_has_no_assorted() {
    let two = || section("two", 2, None, vec![issue(false, "1"), issue(true, "2")]);
    let collapsed = collapse_anemic(document(vec![two()]));
    assert_eq!(collapsed, document(vec![two()]));
    assert_eq!(collapsed.report.get("Assorted"), None);
}

#[test]
fn test_collapse_of_empty_sections_leaves_an_empty_assorted() {
    let collapsed = collapse_anemic(document(vec![section("hollow", 0, None, vec![])]));
    assert_eq!(
        collapsed,
        document(vec![section("Assorted", 0, None, vec![])])
    );
}

#[test]
fn test_collapse_puts_big_sections_under_the_name_in_their_header() {
    let mut input = Document {
        preamble: vec![],
        report: Report::new(),
    };
    input.report.insert(
        "key".to_string(),
        section("name", 2, None, vec![issue(false, "1"), issue(false, "2")]),
    );
    let collapsed = collapse_anemic(input);
    assert_eq!(collapsed.report.get("key"), None);
    assert_eq!(
        collapsed.report.get("name"),
        Some(&section("name", 2, None, vec![issue(false, "1"), issue(false, "2")]))
    );
}

#[test]
fn test_collapse_joins_a_big_assorted_that_is_there_already() {
    // `Assorted` comes before `small` in the order of names, so it is kept
    // first, and the small section's item joins it.
    let input = document(vec![
        section(
            "Assorted",
            2,
            Some("kept"),
            vec![issue(false, "1"), issue(true, "2")],
        ),
        section("small", 1, None, vec![issue(false, "3")]),
    ]);
    let collapsed = collapse_anemic(input);
    assert_eq!(
        collapsed,
        document(vec![section(
            "Assorted",
            3,
            Some("kept"),
            vec![issue(false, "1"), issue(true, "2"), issue(false, "3")],
        )])
    );
}

#[test]
fn test_collapse_replaces_what_was_gathered_by_a_later_big_assorted() {
    // `Aardvark` comes before `Assorted`: its item is gathered first, and the
    // big section named `Assorted` then takes the place of what was gathered.
    let input = document(vec![
        section("Aardvark", 1, None, vec![issue(false, "lost")]),
        section(
            "Assorted",
            2,
            None,
            vec![issue(false, "1"), issue(true, "2")],
        ),
    ]);
    assert_eq!(input.count_issues(), 3);
    let collapsed = collapse_anemic(input);
    assert_eq!(
        collapsed,
        document(vec![section(
            "Assorted",
            2,
            None,
            vec![issue(false, "1"), issue(true, "2")],
        )])
    );
    assert_eq!(collapsed.count_issues(), 2);
}
