use algorithmia::common::matching::{count_matches, is_match, mark_matches};
use algorithmia::common::numbers::{decimal_text, parse_number};
use algorithmia::common::text::{
    char_width, chars_of, copy_range, is_space, lines_of, reversed, same_text, split, split_once,
    string_of, trim,
};

fn chars(text: &str) -> Vec<char> {
    text.chars().collect()
}

fn texts(pieces: &[Vec<char>]) -> Vec<String> {
    pieces.iter().map(|piece| piece.iter().collect()).collect()
}

#[test]
fn white_space_is_what_the_standard_library_says() {
    for code in 0..=0x10ffff_u32 {
        if let Some(ch) = char::from_u32(code) {
            assert_eq!(is_space(ch), ch.is_whitespace(), "U+{code:04X}");
            assert_eq!(char_width(ch), ch.len_utf8(), "U+{code:04X}");
        }
    }
}

#[test]
fn strings_and_characters_convert_both_ways() {
    for text in ["", "a", "h\u{e9}llo \u{1f980}", "line\nline"] {
        assert_eq!(chars_of(text), chars(text));
        assert_eq!(string_of(&chars(text)), text);
        let turned: String = text.chars().rev().collect();
        assert_eq!(reversed(&chars(text)), chars(&turned));
    }
    assert_eq!(copy_range(&chars("abcdef"), 2, 4), chars("cd"));
    assert_eq!(copy_range(&chars("abcdef"), 3, 3), chars(""));
    assert!(same_text(&chars("abc"), &chars("abc")));
    assert!(!same_text(&chars("abc"), &chars("abd")));
    assert!(!same_text(&chars("abc"), &chars("ab")));
}

#[test]
fn split_gives_the_pieces_between_separators() {
    for text in ["", ",", "a", "a,b", ",a,,b,", "a,b,c", ",,"] {
        let expected: Vec<String> = text.split(',').map(|piece| piece.to_string()).collect();
        assert_eq!(texts(&split(&chars(text), ',')), expected, "{text:?}");
    }
}

#[test]
fn split_once_cuts_at_the_first_separator() {
    for text in ["", ":", "a:b", "a:b:c", "abc", ":a", "a:"] {
        let expected = text.split_once(':').map(|(head, tail)| (chars(head), chars(tail)));
        assert_eq!(split_once(&chars(text), ':'), expected, "{text:?}");
    }
}

#[test]
fn trim_removes_white_space_at_both_ends() {
    for text in ["", " ", "a", "  a b  ", "\t\u{a0}x\u{2003}\n", "x  ", "  x", " \n "] {
        assert_eq!(trim(&chars(text)), chars(text.trim()), "{text:?}");
    }
}

#[test]
fn lines_are_trimmed_and_blank_lines_dropped() {
    for text in ["", "a", "a\nb", " a \n\n b\n", "\n\n", "a\r\nb", "  \n x \n  "] {
        let expected: Vec<String> = text
            .split('\n')
            .map(|line| line.trim())
            .filter(|line| !line.is_empty())
            .map(|line| line.to_string())
            .collect();
        assert_eq!(texts(&lines_of(&chars(text))), expected, "{text:?}");
    }
}

#[test]
fn numbers_are_written_in_decimal() {
    for n in [0, 1, 9, 10, 11, 99, 100, 12345, 4294967296, u64::MAX] {
        assert_eq!(decimal_text(n), n.to_string());
    }
}

#[test]
fn numbers_are_read_as_the_standard_parser_reads_them() {
    let samples = [
        "", "0", "7", "+7", "-7", "+", "++7", "007", "12a", " 12", "12 ", "18446744073709551615",
        "18446744073709551616", "99999999999999999999", "+18446744073709551615", "1_000",
    ];
    for text in samples {
        assert_eq!(parse_number(&chars(text)), text.parse::<u64>().ok(), "{text:?}");
    }
}

#[test]
fn matches_are_counted_as_a_scan_finds_them() {
    let samples = [
        ("", ""), ("abc", ""), ("", "a"), ("aaaa", "aa"), ("aaaaa", "aa"), ("abababab", "aba"),
        ("THE FLAME SHIELDED THE HEART", "THE"), ("abc", "abcd"), ("abc", "abc"), ("xaxbx", "x"),
    ];
    for (text, word) in samples {
        assert_eq!(
            count_matches(&chars(text), &chars(word)),
            Some(text.match_indices(word).count()),
            "{text:?} {word:?}"
        );
    }
    assert!(is_match(&chars("hello"), &chars("ll"), 2));
    assert!(!is_match(&chars("hello"), &chars("ll"), 1));
    assert!(is_match(&chars("hello"), &chars(""), 5));
}

#[test]
fn matches_are_marked_where_a_scan_finds_them() {
    let text = chars("abababxx");
    let mut marks = vec![false; text.len()];
    mark_matches(&text, &chars("abab"), &mut marks, false);
    assert_eq!(marks, vec![true, true, true, true, false, false, false, false]);
    let turned = reversed(&text);
    let mut marks = vec![false; text.len()];
    mark_matches(&turned, &chars("baba"), &mut marks, true);
    assert_eq!(marks, vec![false, false, true, true, true, true, false, false]);
    let mut marks = vec![true, false, false];
    mark_matches(&chars("abc"), &chars(""), &mut marks, false);
    assert_eq!(marks, vec![true, false, false]);
    mark_matches(&chars("abc"), &chars("abcd"), &mut marks, false);
    assert_eq!(marks, vec![true, false, false]);
}
