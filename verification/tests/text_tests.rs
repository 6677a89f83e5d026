use flossfinder::order::sort_strings;
use flossfinder::text::{chars_of, lines_of, parse_u32_chars, trim_chars, words_of};

fn strings(v: Vec<Vec<char>>) -> Vec<String> {
    v.into_iter().map(|c| c.into_iter().collect()).collect()
}

#[test]
fn lines_split_like_str_lines() {
    let c = chars_of("a\r\nb\n\nc\r");
    assert_eq!(strings(lines_of(&c)), vec!["a", "b", "", "c\r"]);
    assert!(lines_of(&chars_of("")).is_empty());
    assert_eq!(strings(lines_of(&chars_of("x\n"))), vec!["x"]);
}

#[test]
fn words_split_like_split_whitespace() {
    let c = chars_of("  a  bc\td\u{3000}e ");
    assert_eq!(strings(words_of(&c)), vec!["a", "bc", "d", "e"]);
    assert!(words_of(&chars_of(" \n ")).is_empty());
}

#[test]
fn trim_removes_unicode_whitespace() {
    let t: String = trim_chars(&chars_of("\u{a0}\t x y \u{2003}\n")).into_iter().collect();
    assert_eq!(t, "x y");
}

#[test]
fn parse_u32_reads_like_from_str() {
    assert_eq!(parse_u32_chars(&chars_of("42")), Some(42));
    assert_eq!(parse_u32_chars(&chars_of("+42")), Some(42));
    assert_eq!(parse_u32_chars(&chars_of("+")), None);
    assert_eq!(parse_u32_chars(&chars_of("")), None);
    assert_eq!(parse_u32_chars(&chars_of("-1")), None);
    assert_eq!(parse_u32_chars(&chars_of("4294967296")), None);
    assert_eq!(parse_u32_chars(&chars_of("007")), Some(7));
}

#[test]
fn strings_sort_like_string_order() {
    let v = vec!["b".to_string(), "a".to_string(), "B".to_string(), "ab".to_string(), "a".to_string(), "é".to_string()];
    let mut expected = v.clone();
    expected.sort();
    assert_eq!(sort_strings(v), expected);
}
