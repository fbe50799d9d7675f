use minigrep::lines::split_lines;
use minigrep::text::{contains_substring, contains_substring_fold, find_first, lower_char_x};

#[test]
fn find_first_reports_the_leftmost_occurrence() {
    assert_eq!(Some(1), find_first("abcabc", "bc"));
    assert_eq!(Some(0), find_first("abc", "abc"));
    assert_eq!(None, find_first("abc", "abcd"));
    assert_eq!(None, find_first("abc", "x"));
}

#[test]
fn empty_pattern_occurs_at_the_start() {
    assert_eq!(Some(0), find_first("abc", ""));
    assert_eq!(Some(0), find_first("", ""));
    assert!(contains_substring("", ""));
}

#[test]
fn containment_is_case_sensitive_by_default() {
    assert!(contains_substring("Car kawasaki", "kawasaki"));
    assert!(!contains_substring("Car kawasaki", "KAWASAKI"));
}

#[test]
fn folded_containment_ignores_ascii_case() {
    assert!(contains_substring_fold("Car KaWasaki", "kawASaki"));
    assert!(contains_substring_fold("abc", "ABC"));
    assert!(!contains_substring_fold("abc", "abd"));
}

#[test]
fn folding_maps_only_ascii_capitals() {
    assert_eq!('a', lower_char_x('A'));
    assert_eq!('z', lower_char_x('Z'));
    assert_eq!('m', lower_char_x('m'));
    assert_eq!('1', lower_char_x('1'));
    assert_eq!(' ', lower_char_x(' '));
}

#[test]
fn trailing_newline_adds_no_empty_line() {
    assert_eq!(vec!["a".to_string(), "b".to_string()], split_lines("a\nb\n"));
    assert_eq!(vec!["a".to_string(), "b".to_string()], split_lines("a\nb"));
}

#[test]
fn interior_newlines_keep_empty_lines() {
    assert_eq!(
        vec!["a".to_string(), "".to_string(), "b".to_string()],
        split_lines("a\n\nb")
    );
    assert_eq!(vec!["".to_string()], split_lines("\n"));
    assert_eq!(Vec::<String>::new(), split_lines(""));
}

#[test]
fn splitting_and_rejoining_restores_the_content() {
    let contents = "first line\n\nthird line\nlast";
    assert_eq!(contents, split_lines(contents).join("\n"));
}

#[test]
fn non_ascii_content_splits_on_character_boundaries() {
    let contents = "r\u{e9}sum\u{e9}\nna\u{ef}ve";
    assert_eq!(
        vec!["r\u{e9}sum\u{e9}".to_string(), "na\u{ef}ve".to_string()],
        split_lines(contents)
    );
    assert!(contains_substring("na\u{ef}ve", "a\u{ef}v"));
}
