use textutils::grep::{contains, find_matches};

#[test]
fn find_a_match() {
    let out = find_matches("lorem ipsum\ndolor sit amet", "lorem");
    assert_eq!(out, "lorem ipsum\n");
}

#[test]
fn find_no_match() {
    let out = find_matches("lorem ipsum\ndolor sit amet", "missing");
    assert_eq!(out, "");
}

#[test]
fn find_every_line_with_empty_pattern() {
    let out = find_matches("a\nb", "");
    assert_eq!(out, "a\nb\n");
}

#[test]
fn find_match_strips_carriage_return() {
    let out = find_matches("one two\r\nthree\r\n", "two");
    assert_eq!(out, "one two\n");
}

#[test]
fn contains_finds_inner_substring() {
    assert!(contains("hello world", "lo wo"));
    assert!(contains("hello", "hello"));
    assert!(contains("hello", ""));
    assert!(!contains("hello", "world"));
    assert!(!contains("hi", "high"));
}
