//! Solving one alphabet against a whole dictionary: the admitted words in
//! dictionary order, together with the derived counters.

use vstd::prelude::*;
use crate::scorer::{
    spec_is_valid, spec_is_pangram, spec_score, valid_word_for, pangram_for, score_for,
    str_to_chars,
};
use vstd::string::StrSliceExecFns;

verus! {

/// The subsequence of dictionary words admitted by the alphabet, in
/// dictionary order.
pub open spec fn solution_words(dict: Seq<Seq<char>>, t: Seq<char>) -> Seq<Seq<char>>
    decreases dict.len(),
{
    if dict.len() == 0 {
        Seq::empty()
    } else {
        let rest = solution_words(dict.drop_last(), t);
        if spec_is_valid(dict.last(), t) {
            rest.push(dict.last())
        } else {
            rest
        }
    }
}

/// How many admitted words are pangrams.
pub open spec fn pangram_count(dict: Seq<Seq<char>>, t: Seq<char>) -> int
    decreases dict.len(),
{
    if dict.len() == 0 {
        0
    } else {
        pangram_count(dict.drop_last(), t) + if spec_is_valid(dict.last(), t)
            && spec_is_pangram(dict.last(), t) {
            1int
        } else {
            0int
        }
    }
}

/// How many admitted words are perfect pangrams: pangrams of length
/// exactly seven.
pub open spec fn perfect_count(dict: Seq<Seq<char>>, t: Seq<char>) -> int
    decreases dict.len(),
{
    if dict.len() == 0 {
        0
    } else {
        perfect_count(dict.drop_last(), t) + if spec_is_valid(dict.last(), t)
            && spec_is_pangram(dict.last(), t) && dict.last().len() == 7 {
            1int
        } else {
            0int
        }
    }
}

/// The summed point value of the admitted words.
pub open spec fn total_score(dict: Seq<Seq<char>>, t: Seq<char>) -> int
    decreases dict.len(),
{
    if dict.len() == 0 {
        0
    } else {
        total_score(dict.drop_last(), t) + if spec_is_valid(dict.last(), t) {
            spec_score(dict.last(), t)
        } else {
            0int
        }
    }
}

/// An upper bound on any alphabet's total score over this dictionary:
/// each word can contribute at most its length plus the pangram bonus.
/// The bound does not depend on the alphabet.
pub open spec fn score_budget(dict: Seq<Seq<char>>) -> int
    decreases dict.len(),
{
    if dict.len() == 0 {
        0
    } else {
        score_budget(dict.drop_last()) + dict.last().len() + 7
    }
}

/// Pangram count as an integer percentage of word count, zero for an
/// empty solution.
pub open spec fn spec_ratio(pangrams: int, words: int) -> int {
    if words == 0 {
        0
    } else {
        pangrams * 100 / words
    }
}

/// Everything `solve_single` returns for one alphabet: the admitted words
/// and the five derived counters.
#[derive(Debug, PartialEq, Eq)]
pub struct SolutionSet {
    pub words: Vec<String>,
    pub word_count: u64,
    pub pangrams: u64,
    pub perfect: u64,
    pub score: u64,
    pub ratio: u64,
}

/// The relation between a returned `SolutionSet` and the mathematical
/// model of the dictionary and the alphabet.
pub open spec fn solution_set_matches(r: SolutionSet, dict: Seq<Seq<char>>, t: Seq<char>) -> bool {
    &&& r.words.deep_view() == solution_words(dict, t)
    &&& r.word_count == solution_words(dict, t).len()
    &&& r.pangrams == pangram_count(dict, t)
    &&& r.perfect == perfect_count(dict, t)
    &&& r.score == total_score(dict, t)
    &&& r.ratio == spec_ratio(pangram_count(dict, t), solution_words(dict, t).len() as int)
}

/// Solving is a pure function of the dictionary and the alphabet: two
/// solution sets for the same inputs agree in every part.
pub proof fn lemma_solve_deterministic(
    r1: SolutionSet,
    r2: SolutionSet,
    dict: Seq<Seq<char>>,
    t: Seq<char>,
)
    requires
        solution_set_matches(r1, dict, t),
        solution_set_matches(r2, dict, t),
    ensures
        r1.words.deep_view() == r2.words.deep_view(),
        r1.word_count == r2.word_count,
        r1.pangrams == r2.pangrams,
        r1.perfect == r2.perfect,
        r1.score == r2.score,
        r1.ratio == r2.ratio,
{
}

/// Extending the dictionary by one word extends each counter by that
/// word's contribution.
proof fn lemma_model_step(dv: Seq<Seq<char>>, t: Seq<char>, i: int)
    requires
        0 <= i < dv.len(),
    ensures
        solution_words(dv.take(i + 1), t) == if spec_is_valid(dv[i], t) {
            solution_words(dv.take(i), t).push(dv[i])
        } else {
            solution_words(dv.take(i), t)
        },
        pangram_count(dv.take(i + 1), t) == pangram_count(dv.take(i), t) + if spec_is_valid(
            dv[i],
            t,
        ) && spec_is_pangram(dv[i], t) {
            1int
        } else {
            0int
        },
        perfect_count(dv.take(i + 1), t) == perfect_count(dv.take(i), t) + if spec_is_valid(
            dv[i],
            t,
        ) && spec_is_pangram(dv[i], t) && dv[i].len() == 7 {
            1int
        } else {
            0int
        },
        total_score(dv.take(i + 1), t) == total_score(dv.take(i), t) + if spec_is_valid(dv[i], t) {
            spec_score(dv[i], t)
        } else {
            0int
        },
        score_budget(dv.take(i + 1)) == score_budget(dv.take(i)) + dv[i].len() + 7,
{
    let pre = dv.take(i + 1);
    assert(pre.drop_last() =~= dv.take(i));
    assert(pre.last() == dv[i]);
}

/// The counters are mutually bounded: perfect pangrams are pangrams,
/// pangrams are admitted words, admitted words come from the dictionary,
/// and no score exceeds the budget.
pub proof fn lemma_model_bounds(dv: Seq<Seq<char>>, t: Seq<char>)
    ensures
        0 <= perfect_count(dv, t),
        perfect_count(dv, t) <= pangram_count(dv, t),
        pangram_count(dv, t) <= solution_words(dv, t).len(),
        solution_words(dv, t).len() <= dv.len(),
        0 <= total_score(dv, t),
        total_score(dv, t) <= score_budget(dv),
        7 * dv.len() <= score_budget(dv),
    decreases dv.len(),
{
    if dv.len() > 0 {
        lemma_model_bounds(dv.drop_last(), t);
    }
}

/// A prefix of the dictionary never has a larger budget than the whole.
proof fn lemma_budget_take_le(dv: Seq<Seq<char>>, i: int)
    requires
        0 <= i <= dv.len(),
    ensures
        score_budget(dv.take(i)) <= score_budget(dv),
    decreases dv.len() - i,
{
    if i == dv.len() {
        assert(dv.take(i) =~= dv);
    } else {
        assert(dv.take(i + 1).drop_last() =~= dv.take(i));
        assert(dv.take(i + 1).last() == dv[i]);
        lemma_budget_take_le(dv, i + 1);
    }
}

/// Solve one alphabet, given as a letter vector, against the dictionary.
pub fn solve_alpha(dict: &Vec<String>, alphabet: &Vec<char>) -> (r: SolutionSet)
    requires
        alphabet@.len() == 7,
        score_budget(dict.deep_view()) <= u64::MAX / 100,
    ensures
        solution_set_matches(r, dict.deep_view(), alphabet@),
{
    let ghost dv = dict.deep_view();
    let ghost t = alphabet@;
    proof {
        assert(dv.len() == dict@.len());
        assert(forall|j: int| 0 <= j < dv.len() ==> dv[j] == #[trigger] dict@[j]@);
    }
    let mut words: Vec<String> = Vec::new();
    let mut pangrams: u64 = 0;
    let mut perfect: u64 = 0;
    let mut score: u64 = 0;
    let n = dict.len();
    assert(solution_words(dv.take(0), t) =~= Seq::<Seq<char>>::empty());
    for i in 0..n
        invariant
            n == dict@.len(),
            dv == dict.deep_view(),
            dv.len() == dict@.len(),
            forall|j: int| 0 <= j < dv.len() ==> dv[j] == #[trigger] dict@[j]@,
            t == alphabet@,
            alphabet@.len() == 7,
            score_budget(dv) <= u64::MAX / 100,
            words.deep_view() == solution_words(dv.take(i as int), t),
            words@.len() == solution_words(dv.take(i as int), t).len(),
            pangrams == pangram_count(dv.take(i as int), t),
            perfect == perfect_count(dv.take(i as int), t),
            score == total_score(dv.take(i as int), t),
    {
        proof {
            lemma_model_step(dv, t, i as int);
            lemma_model_bounds(dv.take(i + 1 as int), t);
            lemma_budget_take_le(dv, i + 1 as int);
        }
        let w = &dict[i];
        assert(w@ == dv[i as int]);
        if valid_word_for(w.as_str(), alphabet) {
            words.push(w.clone());
            assert(words.deep_view() =~= solution_words(dv.take(i + 1 as int), t));
            let s = score_for(w.as_str(), alphabet);
            score = score + s;
            if pangram_for(w.as_str(), alphabet) {
                pangrams = pangrams + 1;
                if w.as_str().unicode_len() == 7 {
                    perfect = perfect + 1;
                }
            }
        }
    }
    proof {
        assert(dv.take(n as int) =~= dv);
        lemma_model_bounds(dv, t);
    }
    let word_count: u64 = words.len() as u64;
    let ratio: u64 = if word_count == 0 {
        0
    } else {
        pangrams * 100 / word_count
    };
    SolutionSet { words, word_count, pangrams, perfect, score, ratio }
}

/// Solve one alphabet, given as a string with the center letter first,
/// against the dictionary.
pub fn solve_single(dict: &Vec<String>, target: &str) -> (r: SolutionSet)
    requires
        target@.len() == 7,
        score_budget(dict.deep_view()) <= u64::MAX / 100,
    ensures
        solution_set_matches(r, dict.deep_view(), target@),
{
    let alphabet = str_to_chars(target);
    solve_alpha(dict, &alphabet)
}

} // verus!
