use lwnvulns::parse::{Document, Report, Section};
use lwnvulns::tokenize::{Header, Issue, SourceLink, Token};
use lwnvulns::writer;

#[test]
fn test_exports_back() {
    let mut input = Document {
        preamble: vec![
            Token::Preamble("this".to_string()),
            Token::Preamble("is".to_string()),
            Token::Preamble("preamble".to_string()),
            Token::Preamble("### Here too! ( :) )".to_string()),
        ],
        report: Report::new(),
    };
    input.report.insert(
        "B This is a header too".to_string(),
        Section {
            header: Header {
                package: "B This is a header too".to_string(),
                issue_count: 2,
                notes: Some("lol".to_string()),
            },
            children: vec![
                Issue {
                    complete: false,
                    content: "not done".to_string(),
                    source: SourceLink {
                        id: "not done".to_string(),
                        url: "http://not done".to_string(),
                    },
                },
                Issue {
                    complete: true,
                    content: "done".to_string(),
                    source: SourceLink {
                        id: "done".to_string(),
                        url: "http://done".to_string(),
                    },
                },
            ],
        },
    );

    input.report.insert(
        "A This is a header".to_string(),
        Section {
            header: Header {
                package: "A This is a header".to_string(),
                issue_count: 0,
                notes: None,
            },
            children: vec![],
        },
    );

    let expect = "this
is
preamble
### Here too! ( :) )
### A This is a header (0 issues)

### B This is a header too (2 issues) lol
 - [ ] [`#not done`](http://not done) not done
 - [x] [`#done`](http://done) done

";

    assert_eq!(writer::write(&input), expect);
}

fn issue(complete: bool, id: &str) -> Issue {
    Issue {
        complete,
        content: format!("content of {}", id),
        source: SourceLink {
            id: id.to_string(),
            url: format!("http://{}", id),
        },
    }
}

fn section(package: &str, issue_count: i32, notes: Option<&str>, children: Vec<Issue>) -> Section {
    Section {
        header: Header {
            package: package.to_string(),
            issue_count,
            notes: notes.map(|n| n.to_string()),
        },
        children,
    }
}

fn read(text: &str) -> Document {
    lwnvulns::parse::parse(lwnvulns::tokenize::tokenize(text.to_string())).unwrap()
}

#[test]
fn test_write_nothing() {
    let doc = Document {
        preamble: vec![],
        report: Report::new(),
    };
    assert_eq!(writer::write(&doc), "");
}

#[test]
fn test_write_counts_the_children_not_the_header() {
    let mut doc = Document {
        preamble: vec![],
        report: Report::new(),
    };
    doc.report.insert(
        "one".to_string(),
        section("one", 40, None, vec![issue(false, "a")]),
    );
    doc.report.insert(
        "two".to_string(),
        section("two", -7, Some("n"), vec![issue(false, "b"), issue(true, "c")]),
    );
    doc.report.insert("zero".to_string(), section("zero", 1, None, vec![]));
    let expect = "### one (1 issue)
 - [ ] [`#a`](http://a) content of a

### two (2 issues) n
 - [ ] [`#b`](http://b) content of b
 - [x] [`#c`](http://c) content of c

### zero (0 issues)

";
    assert_eq!(writer::write(&doc), expect);
}

#[test]
fn test_write_does_not_depend_on_the_order_of_insertion() {
    let sections = || {
        vec![
            section("m", 0, None, vec![issue(false, "1")]),
            section("b", 0, Some("n"), vec![]),
            section("z", 0, None, vec![issue(true, "2"), issue(true, "3")]),
            section("a", 0, None, vec![issue(false, "4")]),
        ]
    };
    let mut forward = Document {
        preamble: vec![Token::Preamble("p".to_string())],
        report: Report::new(),
    };
    for s in sections() {
        forward.report.insert(s.header.package.clone(), s);
    }
    let mut backward = Document {
        preamble: vec![Token::Preamble("p".to_string())],
        report: Report::new(),
    };
    for s in sections().into_iter().rev() {
        backward.report.insert(s.header.package.clone(), s);
    }
    let text = writer::write(&forward);
    assert_eq!(text, writer::write(&backward));
    let a = text.find("### a ").unwrap();
    let b = text.find("### b ").unwrap();
    let m = text.find("### m ").unwrap();
    let z = text.find("### z ").unwrap();
    assert!(a < b && b < m && m < z);
}

#[test]
fn test_written_section_with_blank_line_round_trips_byte_for_byte() {
    let text = "### pkg (1 issue)\n - [ ] [`#42`](http://x) desc\n\n";
    assert_eq!(writer::write(&read(text)), text);
}

#[test]
fn test_write_ends_each_section_with_a_blank_line() {
    let text = "### pkg (1 issue)\n - [ ] [`#42`](http://x) desc\n";
    let written = writer::write(&read(text));
    assert_eq!(written, format!("{}\n", text));
    assert_eq!(writer::write(&read(&written)), written);
}

#[test]
fn test_one_pass_reaches_the_fixed_form() {
    let text = "Title
=====

### Here too! ( :) )
 - [ ] [`#0`](http://0) an item before any section is preamble
### zlib (9 issues) notes (with brackets)
stray line
 - [x] [`#1`](https://lwn.net/1/) ([search](http://s/?q=zlib), [files](http://f))  overflow
- [ ] [`#2`](https://lwn.net/2/) 

### apache-httpd (0 issues)
### zlib (0 issues) other notes
 - [ ] [`#3`](https://lwn.net/3/) again
### Assorted (1 issue)
";
    let first = read(text);
    let written = writer::write(&first);
    let expect = "Title
=====

### Here too! ( :) )
 - [ ] [`#0`](http://0) an item before any section is preamble
### Assorted (0 issues)

### apache-httpd (0 issues)

### zlib (3 issues) notes (with brackets)
 - [x] [`#1`](https://lwn.net/1/) ([search](http://s/?q=zlib), [files](http://f))  overflow
 - [ ] [`#2`](https://lwn.net/2/) 
 - [ ] [`#3`](https://lwn.net/3/) again

";
    assert_eq!(written, expect);
    let second = read(&written);
    assert_eq!(second, first);
    assert_eq!(writer::write(&second), written);
}

#[test]
fn test_carriage_return_at_the_end_of_a_line_does_not_come_back() {
    let first = read("one\r\r\n");
    assert_eq!(first.preamble, vec![Token::Preamble("one\r".to_string())]);
    let second = read(&writer::write(&first));
    assert_eq!(second.preamble, vec![Token::Preamble("one".to_string())]);
}
