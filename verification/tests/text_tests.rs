use lwnvulns::text::{
    char_is_digit, char_is_space, chars_of, lines_of, push_decimal, str_less, str_same,
    string_without, words_of,
};

fn chars(s: &str) -> Vec<char> {
    s.chars().collect()
}

#[test]
fn test_chars_of() {
    assert_eq!(chars_of(""), Vec::<char>::new());
    assert_eq!(chars_of("a\u{e9}\u{1f600}"), vec!['a', '\u{e9}', '\u{1f600}']);
}

#[test]
fn test_str_less_is_the_order_of_strings() {
    let samples = [
        "", "a", "A", "b", "aa", "ab", "a ", "B", "Assorted", "Aardvark", "assorted", "z",
        "\u{e9}", "e\u{301}", "\u{1f600}", "\u{ffff}", "~", "0", "10", "9", " ", "a\u{0}",
    ];
    for a in samples.iter() {
        for b in samples.iter() {
            assert_eq!(str_less(a, b), a < b, "{:?} before {:?}", a, b);
            assert_eq!(str_same(a, b), a == b, "{:?} same as {:?}", a, b);
        }
    }
}

#[test]
fn test_push_decimal() {
    let text = |n: u128| {
        let mut s = "n=".to_string();
        push_decimal(&mut s, n);
        s
    };
    assert_eq!(text(0), "n=0");
    assert_eq!(text(7), "n=7");
    assert_eq!(text(10), "n=10");
    assert_eq!(text(1234567890), "n=1234567890");
    assert_eq!(text(u128::MAX), format!("n={}", u128::MAX));
}

#[test]
fn test_lines_of() {
    let lines = |s: &str| lines_of(&chars(s));
    assert_eq!(lines(""), Vec::<Vec<char>>::new());
    assert_eq!(lines("a\nb"), vec![chars("a"), chars("b")]);
    assert_eq!(lines("a\r\n\nb\r"), vec![chars("a"), chars(""), chars("b\r")]);
}

#[test]
fn test_words_of_splits_as_strings_split_at_white_space() {
    let texts = [
        "",
        " ",
        "a",
        " a ",
        "a b",
        "a  b\tc\nd\re\u{b}f\u{c}g",
        "a\u{85}b\u{a0}c\u{1680}d\u{2000}e\u{200a}f\u{2028}g\u{2029}h\u{202f}i\u{205f}j\u{3000}k",
        "a\u{200b}b\u{feff}c\u{180e}d",
        "\u{3000}\u{e9} \u{1f600}",
    ];
    for text in texts.iter() {
        let expect: Vec<Vec<char>> = text.split_whitespace().map(chars).collect();
        assert_eq!(words_of(&chars(text)), expect, "words of {:?}", text);
    }
}

#[test]
fn test_char_classes() {
    for code in 0u32..0x3100 {
        if let Some(c) = char::from_u32(code) {
            assert_eq!(char_is_space(c), c.is_whitespace(), "{:?}", c);
            assert_eq!(char_is_digit(c), c.is_ascii_digit(), "{:?}", c);
        }
    }
}

#[test]
fn test_string_without() {
    assert_eq!(string_without(&chars(""), ','), "");
    assert_eq!(string_without(&chars(",,"), ','), "");
    assert_eq!(string_without(&chars("a,b,,c"), ','), "abc");
    assert_eq!(string_without(&chars("abc"), ','), "abc");
}
