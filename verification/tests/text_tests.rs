use word_finder::str_map::StrMap;
use word_finder::text_ops::{
    decimal_string, eq_ignore_ascii_case, parse_usize, split_lines, split_once, split_tokens, str_contains,
    str_lt, to_ascii_lowercase, trim, Delim,
};
use word_finder::word_index::WordIndex;

#[test]
fn trim_removes_unicode_whitespace_on_both_sides() {
    assert_eq!(trim("  \t hello world \n"), "hello world");
    assert_eq!(trim("\u{3000}x\u{3000}"), "x");
    assert_eq!(trim("   "), "");
    assert_eq!(trim(""), "");
}

#[test]
fn split_once_splits_at_first_occurrence() {
    assert_eq!(split_once("a=b=c", '='), Some(("a".to_string(), "b=c".to_string())));
    assert_eq!(split_once("=x", '='), Some(("".to_string(), "x".to_string())));
    assert_eq!(split_once("abc", '='), None);
}

#[test]
fn tokens_skip_empty_pieces() {
    assert_eq!(split_tokens("  GET   /x  HTTP/1.1 ", Delim::Whitespace), vec!["GET", "/x", "HTTP/1.1"]);
    assert_eq!(split_tokens("/a//b/", Delim::Char('/')), vec!["a", "b"]);
    assert!(split_tokens("", Delim::Whitespace).is_empty());
}

#[test]
fn lines_follow_str_lines() {
    assert_eq!(split_lines("a\r\nb\nc"), vec!["a", "b", "c"]);
    assert_eq!(split_lines("a\n\nb\n"), vec!["a", "", "b"]);
    assert!(split_lines("").is_empty());
    let expected: Vec<String> = "x\r\n\r\ny".lines().map(String::from).collect();
    assert_eq!(split_lines("x\r\n\r\ny"), expected);
}

#[test]
fn parse_usize_follows_std() {
    for s in ["0", "42", "+7", "007", "18446744073709551615", "", "+", "-1", "1a", " 1", "18446744073709551616"] {
        assert_eq!(parse_usize(s), s.parse::<usize>().ok(), "input {s:?}");
    }
}

#[test]
fn ascii_case_helpers() {
    assert_eq!(to_ascii_lowercase("GeT Ä"), "get Ä");
    assert!(eq_ignore_ascii_case("PoSt", "post"));
    assert!(!eq_ignore_ascii_case("post", "posts"));
    assert!(!eq_ignore_ascii_case("Ä", "ä"));
}

#[test]
fn decimal_text_of_numbers() {
    assert_eq!(decimal_string(0), "0");
    assert_eq!(decimal_string(405), "405");
    assert_eq!(decimal_string(u64::MAX), u64::MAX.to_string());
}

#[test]
fn lexicographic_order_of_strings() {
    assert!(str_lt("apple", "banana"));
    assert!(str_lt("app", "apple"));
    assert!(!str_lt("apple", "apple"));
    assert!(!str_lt("b", "a"));
    assert!(str_lt("Z", "a"));
}

#[test]
fn substring_search() {
    assert!(str_contains("text/html, application/json;q=0.9", "application/json"));
    assert!(str_contains("abc", ""));
    assert!(!str_contains("application/jso", "application/json"));
    assert!(str_contains("aaab", "aab"));
}

#[test]
fn string_map_insert_and_append() {
    let mut m = StrMap::new();
    m.insert("a".to_string(), "1".to_string());
    m.insert_or_append("a".to_string(), "2".to_string());
    m.insert_or_append("b".to_string(), "3".to_string());
    assert_eq!(m.get("a"), Some("1, 2"));
    assert_eq!(m.get("b"), Some("3"));
    assert_eq!(m.get("c"), None);
    m.insert("a".to_string(), "x".to_string());
    assert_eq!(m.get("a"), Some("x"));
    assert_eq!(m.len(), 2);
}

#[test]
fn word_index_insert_and_add_position() {
    let mut w = WordIndex::new();
    w.add_position("x".to_string(), 3);
    w.add_position("x".to_string(), 9);
    w.insert("y".to_string(), vec![1, 2]);
    assert_eq!(w.get("x"), Some(&vec![3, 9]));
    assert_eq!(w.get("y"), Some(&vec![1, 2]));
    w.insert("x".to_string(), vec![0]);
    assert_eq!(w.get("x"), Some(&vec![0]));
    assert_eq!(w.len(), 2);
    let d = w.duplicate();
    assert_eq!(d.get("y"), Some(&vec![1, 2]));
}
