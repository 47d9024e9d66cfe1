use note_index::number::{parse_chars, to_decimal};
use note_index::order::{ascending_order, descending_order, text_before};
use note_index::text::{normalize, split_words, to_chars, trim, white_space};

fn owned(words: &[&str]) -> Vec<String> {
    words.iter().map(|w| w.to_string()).collect()
}

fn parse(s: &str) -> Option<usize> {
    parse_chars(&to_chars(s))
}

#[test]
fn normalize_trims_and_lowers() {
    assert_eq!(normalize("  Foo  "), "foo");
    assert_eq!(normalize("foo"), "foo");
    assert_eq!(normalize("\tRust Lang\n"), "rust lang");
}

#[test]
fn normalize_lowers_beyond_ascii() {
    assert_eq!(normalize(" ÀB "), "àb");
    assert_eq!(normalize("ΑΣ"), "ας");
}

#[test]
fn normalize_of_blank_is_empty() {
    assert_eq!(normalize(""), "");
    assert_eq!(normalize("   "), "");
    assert_eq!(normalize(" \t\r\n\u{3000}"), "");
}

#[test]
fn normalize_twice_is_normalize_once() {
    for raw in ["  Foo  ", "BAR", " a B c ", "", "   ", "İstanbul", "ΑΣ ", "\u{a0}Ünï\u{2003}"] {
        let once = normalize(raw);
        assert_eq!(normalize(&once), once, "for {:?}", raw);
    }
}

#[test]
fn white_space_agrees_with_the_standard_library() {
    let mut c = 0u32;
    while c <= 0x10ffff {
        if let Some(ch) = char::from_u32(c) {
            assert_eq!(white_space(ch), ch.is_whitespace(), "at {:x}", c);
        }
        c += 1;
    }
}

#[test]
fn white_space_on_named_characters() {
    assert!(white_space(' '));
    assert!(white_space('\n'));
    assert!(white_space('\u{a0}'));
    assert!(white_space('\u{3000}'));
    assert!(!white_space('a'));
    assert!(!white_space('\u{200b}'));
    assert!(!white_space('\u{180e}'));
}

#[test]
fn trim_agrees_with_the_standard_library() {
    for s in ["", " ", "a", " a", "a ", "  a b  ", "\t\nx\u{a0}", "\u{2003}é\u{2003}", " \u{200b} "] {
        assert_eq!(trim(s), s.trim(), "for {:?}", s);
    }
}

#[test]
fn to_chars_keeps_every_character() {
    assert_eq!(to_chars("aé越"), vec!['a', 'é', '越']);
    assert_eq!(to_chars(""), Vec::<char>::new());
}

#[test]
fn split_words_on_runs_of_white_space() {
    assert_eq!(split_words("a bb  ccc\td\n"), owned(&["a", "bb", "ccc", "d"]));
    assert_eq!(split_words("   "), Vec::<String>::new());
    assert_eq!(split_words(""), Vec::<String>::new());
    assert_eq!(split_words("one"), owned(&["one"]));
}

#[test]
fn split_words_agrees_with_the_standard_library() {
    for s in ["", " ", "a", " a  b ", "x\u{a0}y\u{3000}z", "tab\tnew\nline", "  é  越  "] {
        let expected: Vec<String> = s.split_whitespace().map(|w| w.to_string()).collect();
        assert_eq!(split_words(s), expected, "for {:?}", s);
    }
}

#[test]
fn decimal_of_numbers() {
    assert_eq!(to_decimal(0), "0");
    assert_eq!(to_decimal(7), "7");
    assert_eq!(to_decimal(10), "10");
    assert_eq!(to_decimal(20240101), "20240101");
    assert_eq!(to_decimal(usize::MAX), usize::MAX.to_string());
}

#[test]
fn parse_reads_digits() {
    assert_eq!(parse("0"), Some(0));
    assert_eq!(parse("20240101"), Some(20240101));
    assert_eq!(parse("007"), Some(7));
    assert_eq!(parse("+5"), Some(5));
    assert_eq!(parse(&usize::MAX.to_string()), Some(usize::MAX));
}

#[test]
fn parse_refuses_what_is_no_number() {
    assert_eq!(parse(""), None);
    assert_eq!(parse("+"), None);
    assert_eq!(parse("-1"), None);
    assert_eq!(parse("march"), None);
    assert_eq!(parse("12a"), None);
    assert_eq!(parse(" 12"), None);
    assert_eq!(parse("1_000"), None);
    assert_eq!(parse("++1"), None);
    assert_eq!(parse("٣"), None);
}

#[test]
fn parse_refuses_numbers_too_large() {
    let mut big = usize::MAX.to_string();
    big.push('0');
    assert_eq!(parse(&big), None);
    let last = big.len() - 2;
    let mut next = usize::MAX.to_string().into_bytes();
    next[last] += 1;
    let next = String::from_utf8(next).unwrap();
    assert_eq!(parse(&next), next.parse::<usize>().ok());
    assert_eq!(parse("99999999999999999999999999"), None);
}

#[test]
fn parse_agrees_with_the_standard_library() {
    for s in ["", "0", "+0", "-0", "42", "+42", "4 2", "42 ", "x", "18446744073709551615", "18446744073709551616", "00000000000000000000000001"] {
        assert_eq!(parse(s), s.parse::<usize>().ok(), "for {:?}", s);
    }
}

#[test]
fn text_before_is_the_order_of_strings() {
    let samples = ["", "a", "ab", "b", "07:30", "09:00", "12:15", "é", "z", "越", "\u{10000}", "\u{ffff}"];
    for a in samples {
        for b in samples {
            assert_eq!(text_before(&to_chars(a), &to_chars(b)), a < b, "for {:?} and {:?}", a, b);
        }
    }
}

#[test]
fn descending_order_is_stable() {
    assert_eq!(descending_order(&vec![3, 5, 1]), vec![1, 0, 2]);
    assert_eq!(descending_order(&vec![2, 7, 2, 7, 2]), vec![1, 3, 0, 2, 4]);
    assert_eq!(descending_order(&vec![]), Vec::<usize>::new());
}

#[test]
fn ascending_order_is_stable() {
    let keys: Vec<Vec<char>> = ["09:00", "07:30", "12:15", "07:30"].iter().map(|k| to_chars(k)).collect();
    assert_eq!(ascending_order(&keys), vec![1, 3, 0, 2]);
    assert_eq!(ascending_order(&Vec::new()), Vec::<usize>::new());
}
