use spelling_bee::solver::{solve_single, SolutionSet};

fn dict(words: &[&str]) -> Vec<String> {
    words.iter().map(|w| w.to_string()).collect()
}

#[test]
fn four_letter_word_scores_one() {
    // center 'a', remaining letters {b, c, d, e, f, g}
    let d = dict(&["abcd"]);
    let sol = solve_single(&d, "abcdefg");
    assert_eq!(sol.words, vec!["abcd".to_string()]);
    assert_eq!(sol.word_count, 1);
    assert_eq!(sol.score, 1);
    assert_eq!(sol.pangrams, 0);
    assert_eq!(sol.perfect, 0);
    assert_eq!(sol.ratio, 0);
}

#[test]
fn empty_dictionary_degenerates() {
    let d: Vec<String> = Vec::new();
    let sol = solve_single(&d, "retains");
    assert_eq!(sol.words, Vec::<String>::new());
    assert_eq!(sol.word_count, 0);
    assert_eq!(sol.pangrams, 0);
    assert_eq!(sol.perfect, 0);
    assert_eq!(sol.score, 0);
    assert_eq!(sol.ratio, 0);
}

#[test]
fn counters_and_ratio() {
    let d = dict(&["retinas", "nastier", "rent", "world"]);
    let sol = solve_single(&d, "retains");
    // "world" is rejected; the two pangrams are perfect (length seven)
    assert_eq!(sol.words, vec!["retinas".to_string(), "nastier".to_string(), "rent".to_string()]);
    assert_eq!(sol.word_count, 3);
    assert_eq!(sol.pangrams, 2);
    assert_eq!(sol.perfect, 2);
    // 14 + 14 + 1
    assert_eq!(sol.score, 29);
    // 2 * 100 / 3, by integer division
    assert_eq!(sol.ratio, 66);
}

#[test]
fn solve_single_is_idempotent() {
    let d = dict(&["retinas", "nastier", "rent", "world", "hello"]);
    let first: SolutionSet = solve_single(&d, "retains");
    let second: SolutionSet = solve_single(&d, "retains");
    assert_eq!(first, second);
}
