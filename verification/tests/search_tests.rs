use spelling_bee::search::search_maxima;
use spelling_bee::tracker::RecordKind;

#[test]
fn search_visits_every_canonical_alphabet() {
    // with no words, no record ever breaks, and the enumeration count is
    // exactly 26 * C(25, 6)
    let dict: Vec<String> = Vec::new();
    let outcome = search_maxima(&dict);
    assert_eq!(outcome.alphabets_tried, 4_604_600);
    assert_eq!(outcome.events.len(), 0);
    assert_eq!(outcome.maxima.pangrams, 0);
    assert_eq!(outcome.maxima.perfect, 0);
    assert_eq!(outcome.maxima.words, 0);
    assert_eq!(outcome.maxima.score, 0);
    assert_eq!(outcome.maxima.ratio, 0);
}

#[test]
fn search_finds_the_only_alphabet_with_words() {
    // only alphabets containing all of {r,e,t,a,i,n,s} admit these words
    let dict: Vec<String> = vec!["retinas".to_string(), "nastier".to_string()];
    let outcome = search_maxima(&dict);
    assert_eq!(outcome.alphabets_tried, 4_604_600);
    assert_eq!(outcome.maxima.words, 2);
    assert_eq!(outcome.maxima.pangrams, 2);
    assert_eq!(outcome.maxima.perfect, 2);
    assert_eq!(outcome.maxima.score, 28);
    // no alphabet admits more than nine words, so the ratio record stays
    assert_eq!(outcome.maxima.ratio, 0);
    assert!(outcome.events.iter().all(|e| e.kind != RecordKind::Ratio));
    // the first record-breaking alphabet is the one with center 'a' and
    // tail {e,i,n,r,s,t} in ascending order
    let first = &outcome.events[0];
    assert_eq!(first.alphabet, vec!['a', 'e', 'i', 'n', 'r', 's', 't']);
}
