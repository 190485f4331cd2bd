use codecrafters_git::bytes::{append_bytes, copy_range};
use codecrafters_git::numfmt::{decimal_bytes, octal_bytes, parse_usize};
use codecrafters_git::repo::{string_chars, Listing};
use codecrafters_git::text::{ascii_string, decimal_string, first_space, is_whitespace, line_at, words_in};

fn chars(s: &str) -> Vec<char> {
    s.chars().collect()
}

#[test]
fn whitespace_test_agrees_with_std_on_every_char() {
    for u in 0u32..=0x10ffff {
        if let Some(c) = char::from_u32(u) {
            assert_eq!(is_whitespace(c), c.is_whitespace(), "U+{:04X}", u);
        }
    }
}

#[test]
fn lines_split_as_str_lines_does() {
    let text = "one\r\ntwo\nthree\r";
    let t = chars(text);
    let mut got = Vec::new();
    let mut p = 0;
    while p < t.len() {
        let (e, next) = line_at(&t, p);
        got.push(t[p..e].iter().collect::<String>());
        p = next;
    }
    let expected: Vec<String> = text.lines().map(|l| l.to_string()).collect();
    assert_eq!(got, expected);
}

#[test]
fn lines_of_text_ending_in_newline() {
    let text = "a\n\nb\n";
    let t = chars(text);
    let mut got = Vec::new();
    let mut p = 0;
    while p < t.len() {
        let (e, next) = line_at(&t, p);
        got.push(t[p..e].iter().collect::<String>());
        p = next;
    }
    assert_eq!(got, vec!["a", "", "b"]);
}

#[test]
fn first_space_finds_split_once_point() {
    let t = chars("tree abc def");
    assert_eq!(first_space(&t, 0, t.len()), 4);
    let t = chars("nospace");
    assert_eq!(first_space(&t, 0, t.len()), 7);
}

#[test]
fn words_split_as_split_whitespace_does() {
    let text = "  100644 blob\u{a0}abc\tname with\u{3000}spaces  ";
    let t = chars(text);
    let spans = words_in(&t, 0, t.len());
    let got: Vec<String> = spans.iter().map(|(a, b)| t[*a..*b].iter().collect()).collect();
    let expected: Vec<String> = text.split_whitespace().map(|w| w.to_string()).collect();
    assert_eq!(got, expected);
    assert_eq!(got.len(), 6);
}

#[test]
fn listing_substrings_and_blob_test() {
    let l = Listing::new("100644 blob abc\tx".to_string());
    assert_eq!(l.len(), 17);
    assert_eq!(l.substring(7, 11), "blob");
    assert!(l.is_blob_at(7, 11));
    assert!(!l.is_blob_at(0, 4));
    assert!(!l.is_blob_at(7, 10));
}

#[test]
fn string_chars_of_unicode() {
    assert_eq!(string_chars("aé€😀"), vec!['a', 'é', '€', '😀']);
}

#[test]
fn decimal_and_ascii_strings() {
    assert_eq!(decimal_string(0), "0");
    assert_eq!(decimal_string(1234567890), "1234567890");
    assert_eq!(decimal_string(u64::MAX), u64::MAX.to_string());
    assert_eq!(ascii_string(b"abc".to_vec()), "abc");
}

#[test]
fn numbers_format_and_parse() {
    assert_eq!(decimal_bytes(305), b"305".to_vec());
    assert_eq!(octal_bytes(0o100644), b"100644".to_vec());
    assert_eq!(octal_bytes(0), b"0".to_vec());
    assert_eq!(parse_usize(b"42"), Some(42));
    assert_eq!(parse_usize(b"+7"), Some(7));
    assert_eq!(parse_usize(b""), None);
    assert_eq!(parse_usize(b"+"), None);
    assert_eq!(parse_usize(b"-1"), None);
    assert_eq!(parse_usize(b"18446744073709551615"), Some(18446744073709551615));
    assert_eq!(parse_usize(b"18446744073709551616"), None);
}

#[test]
fn byte_helpers() {
    let mut v = b"ab".to_vec();
    append_bytes(&mut v, b"cd");
    assert_eq!(v, b"abcd".to_vec());
    assert_eq!(copy_range(b"hello", 1, 4), b"ell".to_vec());
}
