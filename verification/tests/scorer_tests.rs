use spelling_bee::scorer::{is_pangram, is_valid_word, score};

#[test]
fn is_valid_word_test() {
    assert!(is_valid_word("hello", "heloabc"));
    assert!(is_valid_word("world", "worldab"));

    assert!(!is_valid_word("hello", "helabcd"));
    assert!(!is_valid_word("world", "wrldabc"));
}

#[test]
fn is_pangram_test() {
    assert!(is_pangram("itinerants", "retains"));
    assert!(is_pangram("nastier", "retains"));
    assert!(is_pangram("stainer", "retains"));
    assert!(is_pangram("antistress", "retains"));

    assert!(!is_pangram("retints", "retains"));
    assert!(!is_pangram("insert", "retains"));
    assert!(!is_pangram("arena", "retains"));
    assert!(!is_pangram("eeriness", "retains"));
}

#[test]
fn valid_needs_center_letter_and_length() {
    // every letter of "hello" lies in the set, it contains the center 'h',
    // and it has five letters
    assert!(is_valid_word("hello", "heloabc"));
    // 'w', 'r', 'd' lie outside the set
    assert!(!is_valid_word("world", "heloabc"));
    // all letters in the set, but the center 'b' is missing from the word
    assert!(!is_valid_word("hello", "bheloac"));
    // three letters only
    assert!(!is_valid_word("heo", "heloabc"));
}

#[test]
fn score_formula() {
    // four-letter words are worth one point
    assert_eq!(score("abcd", "abcdefg"), 1);
    // longer words are worth one point per letter
    assert_eq!(score("hello", "heloabc"), 5);
    // a pangram earns its length plus a flat bonus of seven
    assert_eq!(score("itinerants", "retains"), 17);
    // a perfect pangram of length seven earns 7 + 7
    assert_eq!(score("nastier", "retains"), 14);
}
