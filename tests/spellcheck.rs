use std::collections::HashSet;

use antiseptic::spellcheck::{
    check_contents, check_text, flag_sub_words, process_token, run_outcome, split_cased,
    split_token, sub_word_mistakes, token_mistakes, word_is_incorrect, CheckResult, ReadPosition,
};
use antiseptic::AntisepticError;

fn position() -> ReadPosition {
    ReadPosition {
        file: String::new(),
        line_no: 1,
        char_no: 1,
    }
}

fn word_set(words: &[&str]) -> HashSet<String> {
    words.iter().map(|w| w.to_string()).collect()
}

fn parts(token: &str) -> Vec<(String, usize)> {
    split_token(&token.chars().collect())
}

/// Checks `word_is_incorrect` returns false when word doesn't contain mistake.
#[test]
fn word_is_incorrect_false() {
    let read_position = position();
    let word = "antiseptic".to_owned();
    let mut words_allowed: HashSet<String> = HashSet::new();
    words_allowed.insert("antiseptic".to_owned());
    let incorrect = word_is_incorrect(&read_position, &word, &words_allowed);
    assert!(!incorrect);
}

/// Checks `word_is_incorrect` returns true when word contains mistake.
#[test]
fn word_is_incorrect_true() {
    let read_position = position();
    let word = "wrong".to_owned();
    let mut words_allowed: HashSet<String> = HashSet::new();
    words_allowed.insert("right".to_owned());
    let incorrect = word_is_incorrect(&read_position, &word, &words_allowed);
    assert!(incorrect);
}

/// Checks `process_token` returns false when token doesn't contain mistake.
#[test]
fn process_token_false() {
    let read_position = position();
    let token = "leftRight".to_owned();
    let mut words_allowed: HashSet<String> = HashSet::new();
    words_allowed.insert("left".to_owned());
    words_allowed.insert("right".to_owned());
    let incorrect = process_token(&read_position, &token, &words_allowed);
    assert!(!incorrect);
}

/// Checks `process_token` returns true when token contains mistake.
#[test]
fn process_token_true() {
    let read_position = position();
    let token = "leftRight".to_owned();
    let mut words_allowed: HashSet<String> = HashSet::new();
    words_allowed.insert("right".to_owned());
    let incorrect = process_token(&read_position, &token, &words_allowed);
    assert!(incorrect);
}

#[test]
fn uppercase_form_of_a_dictionary_word_is_accepted() {
    let words = word_set(&["antiseptic"]);
    for word in ["ANTISEPTIC", "Antiseptic", "antiSEPTIC"] {
        assert!(!word_is_incorrect(&position(), &word.to_string(), &words));
    }
}

#[test]
fn short_words_are_never_mistakes() {
    let empty = word_set(&[]);
    for word in ["", "a", "zq", "zzz", "ÄÖÜ"] {
        assert!(!word_is_incorrect(&position(), &word.to_string(), &empty));
    }
    assert!(word_is_incorrect(&position(), &"zzzz".to_string(), &empty));
}

#[test]
fn acronym_then_word_splits_before_the_last_capital() {
    assert_eq!(
        parts("ABCMethod"),
        vec![("ABC".to_string(), 0), ("Method".to_string(), 3)]
    );
    let words = word_set(&["abc", "method"]);
    let token = "ABCMethod".to_string();
    assert!(token_mistakes(&position(), &token, &words).is_empty());
    assert!(!process_token(&position(), &token, &words));
}

#[test]
fn camel_case_flags_the_missing_part_at_its_offset() {
    assert_eq!(
        parts("leftRight"),
        vec![("left".to_string(), 0), ("Right".to_string(), 4)]
    );
    let words = word_set(&["left"]);
    let found = token_mistakes(&position(), &"leftRight".to_string(), &words);
    assert_eq!(found.len(), 1);
    assert_eq!(found[0].word, "Right");
    assert_eq!(found[0].line_no, 1);
    assert_eq!(found[0].char_no, 5);
}

#[test]
fn single_lowercase_letter_is_its_own_unchecked_word() {
    assert_eq!(
        parts("aBig"),
        vec![("a".to_string(), 0), ("Big".to_string(), 1)]
    );
    let empty = word_set(&[]);
    let token: Vec<char> = "aBig".chars().collect();
    assert!(sub_word_mistakes(&token, 3, 7, &empty).is_empty());
}

#[test]
fn splitting_edge_cases() {
    assert_eq!(parts(""), vec![]);
    assert_eq!(parts("x"), vec![("x".to_string(), 0)]);
    assert_eq!(parts("ABC"), vec![("ABC".to_string(), 0)]);
    assert_eq!(
        parts("ABc"),
        vec![("A".to_string(), 0), ("Bc".to_string(), 1)]
    );
    assert_eq!(
        parts("parseHTTPRequest"),
        vec![
            ("parse".to_string(), 0),
            ("HTTP".to_string(), 5),
            ("Request".to_string(), 9)
        ]
    );
    assert_eq!(
        parts("HTTPRequestBody"),
        vec![
            ("HTTP".to_string(), 0),
            ("RequestBody".to_string(), 4)
        ]
    );
}

#[test]
fn mistakes_are_reported_at_their_own_column() {
    let words = word_set(&["left"]);
    let token: Vec<char> = "leftRightWrongs".chars().collect();
    let found = sub_word_mistakes(&token, 4, 10, &words);
    assert_eq!(found.len(), 2);
    assert_eq!(found[0].word, "Right");
    assert_eq!(found[0].char_no, 14);
    assert_eq!(found[1].word, "Wrongs");
    assert_eq!(found[1].char_no, 19);
    assert!(found.iter().all(|m| m.line_no == 4));
}

#[test]
fn position_of_a_word_on_the_second_line() {
    let characters: HashSet<char> = HashSet::new();
    let words = word_set(&["bad", "extra", "first", "line"]);
    // "Wrd" has three letters, so it is never flagged.
    let clean = check_contents(b"first line\n  badWrd extra", &characters, &words);
    assert!(matches!(clean, CheckResult::Clean));
    let result = check_contents(b"first line\n  badWords extra", &characters, &words);
    match result {
        CheckResult::SpellingMistake(found) => {
            assert_eq!(found.len(), 1);
            assert_eq!(found[0].word, "Words");
            assert_eq!(found[0].line_no, 2);
            assert_eq!(found[0].char_no, 6);
        }
        _ => panic!("expected a spelling mistake"),
    }
}

#[test]
fn token_at_end_of_text_is_checked() {
    let characters: HashSet<char> = HashSet::new();
    let words = word_set(&[]);
    let text: Vec<char> = "ok\nfoo wxyzq".chars().collect();
    let found = check_text(&text, &characters, &words);
    assert_eq!(found.len(), 1);
    assert_eq!(found[0].word, "wxyzq");
    assert_eq!(found[0].line_no, 2);
    assert_eq!(found[0].char_no, 5);
}

#[test]
fn dictionary_characters_join_tokens() {
    let words = word_set(&["don't", "stop", "here"]);
    let text: Vec<char> = "don't stop_here".chars().collect();
    let without = check_text(&text, &HashSet::new(), &words);
    assert!(without.is_empty());
    let with: HashSet<char> = ['\'', '_'].into_iter().collect();
    let found = check_text(&text, &with, &words);
    assert_eq!(found.len(), 1);
    assert_eq!(found[0].word, "stop_here");
    assert_eq!(found[0].char_no, 7);
}

#[test]
fn non_ascii_letters_count_in_columns_as_one() {
    let words = word_set(&["über"]);
    let text: Vec<char> = "é Über qqqqq".chars().collect();
    let found = check_text(&text, &HashSet::new(), &words);
    assert_eq!(found.len(), 1);
    assert_eq!(found[0].word, "qqqqq");
    assert_eq!(found[0].char_no, 8);
}

#[test]
fn invalid_utf8_is_a_warning_not_a_mistake() {
    let words = word_set(&[]);
    let characters: HashSet<char> = HashSet::new();
    let invalid = check_contents(&[b'a', 0xff, b'q', b'q', b'q', b'q', b'q'], &characters, &words);
    assert!(matches!(invalid, CheckResult::NotUtf8));
    let overlong = check_contents(&[0xc0, 0x80], &characters, &words);
    assert!(matches!(overlong, CheckResult::NotUtf8));
    let truncated = check_contents(&[b'a', 0xe2, 0x82], &characters, &words);
    assert!(matches!(truncated, CheckResult::NotUtf8));
    let mistake = check_contents(b"qqqqq", &characters, &words);
    assert!(matches!(mistake, CheckResult::SpellingMistake(_)));

    let later_mistake = vec![CheckResult::NotUtf8, mistake];
    assert_eq!(
        run_outcome(&later_mistake),
        Err(AntisepticError::SpellingMistakeFound)
    );
    let only_warnings = vec![CheckResult::NotUtf8, CheckResult::Clean, CheckResult::IoError];
    assert_eq!(run_outcome(&only_warnings), Ok(0));
    assert_eq!(run_outcome(&vec![]), Ok(0));
}

#[test]
fn error_codes_follow_declaration_order() {
    assert_eq!(AntisepticError::SpellingMistakeFound.code(), 1);
    assert_eq!(AntisepticError::WalkDirIterAborts.code(), 8);
    assert_eq!(AntisepticError::CheckedFileIsNotUTF8.code(), 11);
    assert_eq!(AntisepticError::IssueReadingFile.code(), 16);
}

#[test]
fn split_follows_the_given_casing() {
    let token: Vec<char> = "ABCMethod".chars().collect();
    let upper: Vec<bool> = token.iter().map(|c| c.is_uppercase()).collect();
    let lower: Vec<bool> = token.iter().map(|c| c.is_lowercase()).collect();
    assert_eq!(
        split_cased(&token, &upper, &lower),
        vec![("ABC".to_string(), 0), ("Method".to_string(), 3)]
    );
    // With every character taken as lowercase, the token is one word.
    let none = vec![false; token.len()];
    let all = vec![true; token.len()];
    assert_eq!(
        split_cased(&token, &none, &all),
        vec![("ABCMethod".to_string(), 0)]
    );
}

#[test]
fn flags_use_the_given_lowercase_forms() {
    let parts = vec![("left".to_string(), 0), ("Right".to_string(), 4)];
    let lowered = vec!["left".to_string(), "right".to_string()];
    let words = word_set(&["left"]);
    let found = flag_sub_words(&parts, &lowered, 2, 10, &words);
    assert_eq!(found.len(), 1);
    assert_eq!(found[0].word, "Right");
    assert_eq!(found[0].line_no, 2);
    assert_eq!(found[0].char_no, 14);
    let other = vec!["left".to_string(), "left".to_string()];
    assert!(flag_sub_words(&parts, &other, 2, 10, &words).is_empty());
}
