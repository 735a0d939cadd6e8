use std::collections::HashSet;

use antiseptic::dictionary::{get_word_characters, get_word_set};

#[test]
fn word_set_has_one_word_per_non_empty_line() {
    let set = get_word_set("abc\r\nHello\n\nworld\n");
    let expected: HashSet<String> = ["abc", "Hello", "world"]
        .iter()
        .map(|w| w.to_string())
        .collect();
    assert_eq!(set, expected);
}

#[test]
fn word_set_keeps_a_last_line_without_newline() {
    let set = get_word_set("one\ntwo");
    assert_eq!(set.len(), 2);
    assert!(set.contains("two"));
    assert!(get_word_set("").is_empty());
    assert!(get_word_set("\n\r\n").is_empty());
}

#[test]
fn characters_include_uppercase_forms() {
    let set = get_word_characters("ab\nc'é\n");
    let expected: HashSet<char> = ['a', 'A', 'b', 'B', 'c', 'C', '\'', 'é', 'É']
        .into_iter()
        .collect();
    assert_eq!(set, expected);
    assert!(!set.contains(&'\n'));
}

#[test]
fn characters_of_multi_character_uppercase_and_crlf_lines() {
    let set = get_word_characters("straße\r\nok\r\n");
    let expected: HashSet<char> = [
        's', 'S', 't', 'T', 'r', 'R', 'a', 'A', 'ß', 'e', 'E', 'o', 'O', 'k', 'K',
    ]
    .into_iter()
    .collect();
    assert_eq!(set, expected);
    assert!(!set.contains(&'\r'));
    let inner = get_word_characters("a\rb");
    assert!(inner.contains(&'\r'));
}
