//! Word-level rules: which words an alphabet admits, which words are
//! pangrams, and how many points a word is worth.

use vstd::prelude::*;
use vstd::string::StrSliceExecFns;

verus! {

/// A puzzle letter is a lowercase ASCII letter.
pub open spec fn is_lower(c: char) -> bool {
    'a' <= c && c <= 'z'
}

/// A well-formed alphabet: exactly seven distinct lowercase letters, the
/// center letter standing at position 0.
pub open spec fn wf_alphabet(t: Seq<char>) -> bool {
    &&& t.len() == 7
    &&& forall|i: int| 0 <= i < t.len() ==> is_lower(#[trigger] t[i])
    &&& forall|i: int, j: int| 0 <= i < j < t.len() ==> t[i] != t[j]
}

/// A word is usable iff it has at least four letters, contains the center
/// letter (position 0 of the alphabet), and draws every one of its
/// characters from the alphabet.
pub open spec fn spec_is_valid(w: Seq<char>, t: Seq<char>) -> bool {
    &&& w.len() >= 4
    &&& w.contains(t[0])
    &&& forall|i: int| 0 <= i < w.len() ==> t.contains(#[trigger] w[i])
}

/// A word is a pangram iff it uses every letter of the alphabet at least
/// once; its length plays no part here.
pub open spec fn spec_is_pangram(w: Seq<char>, t: Seq<char>) -> bool {
    forall|i: int| 0 <= i < t.len() ==> w.contains(#[trigger] t[i])
}

/// Point value of a usable word: one point for a four-letter word, otherwise
/// one point per letter, plus a flat bonus of seven for a pangram.
pub open spec fn spec_score(w: Seq<char>, t: Seq<char>) -> int {
    (if w.len() == 4 {
        1int
    } else {
        w.len() as int
    }) + (if spec_is_pangram(w, t) {
        7int
    } else {
        0int
    })
}

/// The set of characters occurring in a sequence.
pub open spec fn char_set(s: Seq<char>) -> Set<char> {
    s.to_set()
}

/// A word is usable exactly when its character set lies inside the
/// alphabet's, the center letter occurs in the word, and the word has at
/// least four letters.
pub proof fn lemma_is_valid_characterization(w: Seq<char>, t: Seq<char>)
    requires
        t.len() > 0,
    ensures
        spec_is_valid(w, t) <==> (char_set(w) <= char_set(t) && char_set(w).contains(t[0])
            && w.len() >= 4),
{
    if spec_is_valid(w, t) {
        assert forall|c: char| char_set(w).contains(c) implies char_set(t).contains(c) by {
            let i = choose|i: int| 0 <= i < w.len() && w[i] == c;
            assert(t.contains(w[i]));
        }
        assert(char_set(w).contains(t[0]));
    }
    if char_set(w) <= char_set(t) && char_set(w).contains(t[0]) && w.len() >= 4 {
        assert(w.contains(t[0]));
        assert forall|i: int| 0 <= i < w.len() implies t.contains(#[trigger] w[i]) by {
            assert(w.contains(w[i]));
            assert(char_set(w).contains(w[i]));
            assert(char_set(t).contains(w[i]));
        }
    }
}

/// A word is a pangram exactly when the alphabet's character set is a
/// subset of the word's.
pub proof fn lemma_is_pangram_characterization(w: Seq<char>, t: Seq<char>)
    ensures
        spec_is_pangram(w, t) <==> char_set(t) <= char_set(w),
{
    if spec_is_pangram(w, t) {
        assert forall|c: char| char_set(t).contains(c) implies char_set(w).contains(c) by {
            let i = choose|i: int| 0 <= i < t.len() && t[i] == c;
            assert(w.contains(t[i]));
        }
    }
    if char_set(t) <= char_set(w) {
        assert forall|i: int| 0 <= i < t.len() implies w.contains(#[trigger] t[i]) by {
            assert(t.contains(t[i]));
            assert(char_set(t).contains(t[i]));
            assert(char_set(w).contains(t[i]));
        }
    }
}

/// Whether the string holds the character anywhere.
fn str_contains_char(s: &str, c: char) -> (b: bool)
    ensures
        b == s@.contains(c),
{
    let n = s.unicode_len();
    for i in 0..n
        invariant
            n == s@.len(),
            forall|j: int| 0 <= j < i ==> s@[j] != c,
    {
        if s.get_char(i) == c {
            return true;
        }
    }
    false
}

/// Whether the letter vector holds the character anywhere.
pub(crate) fn chars_contain(s: &Vec<char>, c: char) -> (b: bool)
    ensures
        b == s@.contains(c),
{
    let n = s.len();
    for i in 0..n
        invariant
            n == s@.len(),
            forall|j: int| 0 <= j < i ==> s@[j] != c,
    {
        if s[i] == c {
            return true;
        }
    }
    false
}

/// The characters of a string, as a vector.
pub(crate) fn str_to_chars(s: &str) -> (v: Vec<char>)
    ensures
        v@ == s@,
{
    let n = s.unicode_len();
    let mut v: Vec<char> = Vec::new();
    for i in 0..n
        invariant
            n == s@.len(),
            v@ == s@.subrange(0, i as int),
    {
        v.push(s.get_char(i));
        assert(v@ =~= s@.subrange(0, i + 1 as int));
    }
    assert(v@ =~= s@);
    v
}

/// Word validity against an alphabet given as a letter vector.
pub fn valid_word_for(word: &str, alphabet: &Vec<char>) -> (r: bool)
    requires
        alphabet@.len() == 7,
    ensures
        r == spec_is_valid(word@, alphabet@),
{
    let n = word.unicode_len();
    if n < 4 {
        return false;
    }
    if !str_contains_char(word, alphabet[0]) {
        return false;
    }
    for i in 0..n
        invariant
            n == word@.len(),
            n >= 4,
            alphabet@.len() == 7,
            word@.contains(alphabet@[0]),
            forall|j: int| 0 <= j < i ==> alphabet@.contains(#[trigger] word@[j]),
    {
        if !chars_contain(alphabet, word.get_char(i)) {
            return false;
        }
    }
    true
}

/// Pangram status against an alphabet given as a letter vector.
pub fn pangram_for(word: &str, alphabet: &Vec<char>) -> (r: bool)
    ensures
        r == spec_is_pangram(word@, alphabet@),
{
    let n = alphabet.len();
    for i in 0..n
        invariant
            n == alphabet@.len(),
            forall|j: int| 0 <= j < i ==> word@.contains(#[trigger] alphabet@[j]),
    {
        if !str_contains_char(word, alphabet[i]) {
            return false;
        }
    }
    true
}

/// Point value of a word against an alphabet given as a letter vector.
pub fn score_for(word: &str, alphabet: &Vec<char>) -> (s: u64)
    requires
        word@.len() + 7 <= u64::MAX,
    ensures
        s == spec_score(word@, alphabet@),
{
    let n = word.unicode_len();
    let base: u64 = if n == 4 {
        1
    } else {
        n as u64
    };
    if pangram_for(word, alphabet) {
        base + 7
    } else {
        base
    }
}

/// Word validity: at least four letters, only alphabet letters, and the
/// center letter (position 0 of `target`) present.
pub fn is_valid_word(word: &str, target: &str) -> (r: bool)
    requires
        target@.len() == 7,
    ensures
        r == spec_is_valid(word@, target@),
{
    let alphabet = str_to_chars(target);
    valid_word_for(word, &alphabet)
}

/// Pangram status: the word uses every letter of `target` at least once.
pub fn is_pangram(word: &str, target: &str) -> (r: bool)
    ensures
        r == spec_is_pangram(word@, target@),
{
    let alphabet = str_to_chars(target);
    pangram_for(word, &alphabet)
}

/// Point value of a word against the alphabet `target`.
pub fn score(word: &str, target: &str) -> (s: u64)
    requires
        word@.len() + 7 <= u64::MAX,
    ensures
        s == spec_score(word@, target@),
{
    let alphabet = str_to_chars(target);
    score_for(word, &alphabet)
}

} // verus!
