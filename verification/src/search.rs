//! Canonical enumeration of every seven-letter alphabet, and the exhaustive
//! search that tracks record-breaking alphabets.
//!
//! An alphabet is built letter by letter: position 0 (the center) ranges over
//! all 26 letters, and positions 1 through 6 are filled in strictly ascending
//! order with letters not already present. Among the 720 orderings of any six
//! non-center letters exactly one is ascending, so each unordered combination
//! appears exactly once.

use vstd::prelude::*;
use crate::scorer::{wf_alphabet, chars_contain};
use crate::solver::{
    solve_alpha, solution_words, pangram_count, perfect_count, total_score, score_budget,
    spec_ratio, lemma_model_bounds,
};
use crate::tracker::{
    Maxima, Stats, ReportEvent, ReportEventV, consider, consider_next, emitted_events,
    initial_maxima, event_views,
};

verus! {

/// Every completed alphabet reachable from the partial alphabet `t` by
/// appending letters with code points `c` and upward, each appended letter
/// being absent from the prefix and followed only by strictly larger ones.
/// The result lists the completions in the order the search visits them.
pub open spec fn alphabets_from(t: Seq<char>, c: int) -> Seq<Seq<char>>
    decreases 7 - t.len(), 123 - c,
{
    if t.len() < 1 || t.len() >= 7 || c < 97 || c >= 123 {
        Seq::empty()
    } else {
        let here = if !t.contains(c as char) {
            if t.len() == 6 {
                seq![t.push(c as char)]
            } else {
                alphabets_from(t.push(c as char), c + 1)
            }
        } else {
            Seq::<Seq<char>>::empty()
        };
        here + alphabets_from(t, c + 1)
    }
}

/// Every alphabet whose center letter has code point `c` or above, grouped
/// by center letter in ascending order.
pub open spec fn alphabets_by_center(c: int) -> Seq<Seq<char>>
    decreases 123 - c,
{
    if c < 97 || c >= 123 {
        Seq::empty()
    } else {
        alphabets_from(seq![c as char], 97) + alphabets_by_center(c + 1)
    }
}

/// Every alphabet a search run visits, in visiting order.
pub open spec fn all_alphabets() -> Seq<Seq<char>> {
    alphabets_by_center(97)
}

/// Binomial coefficients by Pascal's rule.
pub open spec fn binom(n: int, k: int) -> int
    decreases n,
{
    if k <= 0 {
        if k == 0 {
            1int
        } else {
            0int
        }
    } else if n <= 0 {
        0int
    } else {
        binom(n - 1, k - 1) + binom(n - 1, k)
    }
}

proof fn lemma_binom_nonneg(n: int, k: int)
    ensures
        binom(n, k) >= 0,
    decreases n, k,
{
    if k > 0 && n > 0 {
        lemma_binom_nonneg(n - 1, k - 1);
        lemma_binom_nonneg(n - 1, k);
    }
}

proof fn lemma_binom_one(n: int)
    ensures
        binom(n, 1) == if n >= 0 {
            n
        } else {
            0int
        },
    decreases n,
{
    if n > 0 {
        lemma_binom_one(n - 1);
        assert(binom(n - 1, 0) == 1);
    }
}

/// `binom` never shrinks when more letters are available.
proof fn lemma_binom_mono(n1: int, n2: int, k: int)
    requires
        n1 <= n2,
    ensures
        binom(n1, k) <= binom(n2, k),
    decreases n2 - n1,
{
    if n1 < n2 {
        lemma_binom_mono(n1, n2 - 1, k);
        if k > 0 && n2 > 0 {
            lemma_binom_nonneg(n2 - 1, k - 1);
            lemma_binom_nonneg(n2 - 1, k);
            lemma_binom_mono(n1, n2 - 1, k);
        }
    }
}

spec fn pow2(n: int) -> int
    decreases n,
{
    if n <= 0 {
        1int
    } else {
        2 * pow2(n - 1)
    }
}

proof fn lemma_pow2_pos(n: int)
    ensures
        pow2(n) >= 1,
    decreases n,
{
    if n > 0 {
        lemma_pow2_pos(n - 1);
    }
}

proof fn lemma_binom_le_pow2(n: int, k: int)
    ensures
        binom(n, k) <= pow2(n),
    decreases n,
{
    lemma_pow2_pos(n);
    if k > 0 && n > 0 {
        lemma_binom_le_pow2(n - 1, k - 1);
        lemma_binom_le_pow2(n - 1, k);
    }
}

/// How many completions a partial alphabet has: one per way of choosing its
/// remaining letters among those at or above `c`, the center letter being
/// excluded when it lies in that range.
proof fn lemma_count_from(t: Seq<char>, c: int)
    requires
        1 <= t.len() < 7,
        97 <= c <= 123,
        forall|i: int| 1 <= i < t.len() ==> 97 <= (#[trigger] t[i] as int) < c,
        97 <= t[0] as int <= 122,
    ensures
        alphabets_from(t, c).len() == binom(
            123 - c - if c <= t[0] as int {
                1int
            } else {
                0int
            },
            7 - t.len() as int,
        ),
    decreases 7 - t.len(), 123 - c,
{
    let k = 7 - t.len() as int;
    let adj: int = if c <= t[0] as int {
        1
    } else {
        0
    };
    if c == 123 {
        // nothing is left to choose from, and at least one letter is missing
    } else {
        let ch = c as char;
        lemma_count_from(t, c + 1);
        if t[0] == ch {
            assert(t.contains(ch));
        } else {
            assert(!t.contains(ch)) by {
                assert forall|i: int| 0 <= i < t.len() implies t[i] != ch by {
                    if i >= 1 {
                        assert((t[i] as int) < c);
                    }
                }
            }
            if t.len() == 6 {
                lemma_binom_one(123 - (c + 1) - (if c + 1 <= t[0] as int {
                    1int
                } else {
                    0int
                }));
                lemma_binom_one(123 - c - adj);
            } else {
                lemma_count_from(t.push(ch), c + 1);
                assert(t.push(ch)[0] == t[0]);
            }
        }
    }
}

/// Alphabets grouped by center: each of the remaining centers contributes
/// `binom(25, 6)` alphabets.
proof fn lemma_count_by_center(c: int)
    requires
        97 <= c <= 123,
    ensures
        alphabets_by_center(c).len() == (123 - c) * binom(25, 6),
    decreases 123 - c,
{
    let b = binom(25, 6);
    if c == 123 {
        assert((123 - c) * b == 0) by (nonlinear_arith)
            requires
                c == 123,
        ;
    } else {
        lemma_count_from(seq![c as char], 97);
        assert(seq![c as char][0] == c as char);
        lemma_count_by_center(c + 1);
        assert((123 - c) * b == b + (123 - (c + 1)) * b) by (nonlinear_arith);
    }
}

/// A canonical alphabet as the enumeration produces it: a well-formed
/// alphabet whose six non-center letters stand in strictly ascending order.
pub open spec fn canonical_alphabet(t: Seq<char>) -> bool {
    &&& wf_alphabet(t)
    &&& forall|i: int| 2 <= i < 7 ==> t[i - 1] < #[trigger] t[i]
}

/// No sequence appears twice.
pub open spec fn distinct_seqs(s: Seq<Seq<char>>) -> bool {
    forall|i: int, j: int| 0 <= i < j < s.len() ==> s[i] != s[j]
}

/// A partial alphabet as the search builds it: between one and six lowercase
/// letters, all distinct, the tail ascending, and every tail letter below
/// the next candidate `c`.
spec fn partial_ok(t: Seq<char>, c: int) -> bool {
    &&& 1 <= t.len() <= 6
    &&& 97 <= c <= 123
    &&& forall|i: int| 0 <= i < t.len() ==> 97 <= (#[trigger] t[i] as int) <= 122
    &&& forall|i: int| 1 <= i < t.len() ==> (#[trigger] t[i] as int) < c
    &&& forall|i: int, j: int| 0 <= i < j < t.len() ==> t[i] != t[j]
    &&& forall|i: int| 2 <= i < t.len() ==> t[i - 1] < #[trigger] t[i]
}

/// A completion extends the prefix, is canonical, and continues with a
/// letter at or above `c`.
spec fn extends_ok(e: Seq<char>, t: Seq<char>, c: int) -> bool {
    &&& canonical_alphabet(e)
    &&& e.len() == 7
    &&& e.take(t.len() as int) == t
    &&& t.len() < 7 ==> c <= (e[t.len() as int] as int)
}

/// Every completion of a partial alphabet is canonical and extends it, and
/// no completion appears twice.
proof fn lemma_from_shape(t: Seq<char>, c: int)
    requires
        partial_ok(t, c),
    ensures
        forall|idx: int|
            0 <= idx < alphabets_from(t, c).len() ==> extends_ok(
                #[trigger] alphabets_from(t, c)[idx],
                t,
                c,
            ),
        distinct_seqs(alphabets_from(t, c)),
    decreases 7 - t.len(), 123 - c,
{
    let s = alphabets_from(t, c);
    let len = t.len() as int;
    if c >= 123 {
    } else {
        let ch = c as char;
        let rest = alphabets_from(t, c + 1);
        lemma_from_shape(t, c + 1);
        if !t.contains(ch) {
            if t.len() == 6 {
                let e = t.push(ch);
                assert(e.take(6) =~= t);
                assert(canonical_alphabet(e)) by {
                    assert(forall|i: int| 0 <= i < 6 ==> e[i] == t[i]);
                    assert(e[6] == ch);
                    assert forall|i: int, j: int| 0 <= i < j < 7 implies e[i] != e[j] by {
                        if j == 6 && i >= 1 {
                            assert((t[i] as int) < c);
                        }
                    }
                }
                assert(s == seq![e] + rest);
                assert forall|i: int, j: int| 0 <= i < j < s.len() implies s[i] != s[j] by {
                    if i == 0 {
                        assert(extends_ok(rest[j - 1], t, c + 1));
                        assert((s[j][6] as int) >= c + 1);
                        assert((s[i][6] as int) == c);
                    } else {
                        assert(rest[i - 1] != rest[j - 1]);
                    }
                }
            } else {
                let t2 = t.push(ch);
                assert(t2[len] == ch);
                assert(forall|i: int| 0 <= i < len ==> t2[i] == t[i]);
                lemma_from_shape(t2, c + 1);
                let here = alphabets_from(t2, c + 1);
                assert(s == here + rest);
                assert forall|idx: int| 0 <= idx < s.len() implies extends_ok(s[idx], t, c) by {
                    if idx < here.len() {
                        let e = here[idx];
                        assert(extends_ok(e, t2, c + 1));
                        assert(e.take(len) =~= t) by {
                            assert(forall|i: int| 0 <= i < len + 1 ==> e[i] == t2[i]);
                        }
                        assert(e[len] == ch);
                    } else {
                        assert(extends_ok(rest[idx - here.len()], t, c + 1));
                    }
                }
                assert forall|i: int, j: int| 0 <= i < j < s.len() implies s[i] != s[j] by {
                    if j < here.len() {
                        assert(here[i] != here[j]);
                    } else if i >= here.len() {
                        assert(rest[i - here.len()] != rest[j - here.len()]);
                    } else {
                        let e1 = here[i];
                        let e2 = rest[j - here.len()];
                        assert(extends_ok(e1, t2, c + 1));
                        assert(extends_ok(e2, t, c + 1));
                        assert((e1[len] as int) == c);
                        assert((e2[len] as int) >= c + 1);
                    }
                }
            }
        } else {
            assert(s =~= rest);
        }
    }
}

/// Every alphabet grouped under the centers from `c` upward is canonical,
/// its center at or above `c`, and none appears twice.
proof fn lemma_by_center_shape(c: int)
    requires
        97 <= c <= 123,
    ensures
        forall|idx: int|
            0 <= idx < alphabets_by_center(c).len() ==> (canonical_alphabet(
                #[trigger] alphabets_by_center(c)[idx],
            ) && c <= (alphabets_by_center(c)[idx][0] as int)),
        distinct_seqs(alphabets_by_center(c)),
    decreases 123 - c,
{
    if c < 123 {
        let ch = c as char;
        let group = alphabets_from(seq![ch], 97);
        let rest = alphabets_by_center(c + 1);
        let s = alphabets_by_center(c);
        assert(s == group + rest);
        lemma_from_shape(seq![ch], 97);
        lemma_by_center_shape(c + 1);
        assert forall|idx: int|
            0 <= idx < s.len() implies (canonical_alphabet(s[idx]) && c <= (
        s[idx][0] as int)) by {
            if idx < group.len() {
                let e = group[idx];
                assert(extends_ok(e, seq![ch], 97));
                assert(e.take(1) == seq![ch]);
                assert(e.take(1)[0] == e[0]);
                assert(e[0] == ch);
            }
        }
        assert forall|i: int, j: int| 0 <= i < j < s.len() implies s[i] != s[j] by {
            if j < group.len() {
                assert(group[i] != group[j]);
            } else if i >= group.len() {
                assert(rest[i - group.len()] != rest[j - group.len()]);
            } else {
                let e1 = group[i];
                let e2 = rest[j - group.len()];
                assert(extends_ok(e1, seq![ch], 97));
                assert(e1.take(1) == seq![ch]);
                assert(e1.take(1)[0] == e1[0]);
                assert((e1[0] as int) == c);
                assert((e2[0] as int) >= c + 1);
            }
        }
    }
}

/// Every alphabet a search run visits has seven distinct lowercase letters,
/// the six non-center letters in strictly ascending order.
pub proof fn lemma_alphabets_canonical()
    ensures
        forall|i: int|
            0 <= i < all_alphabets().len() ==> canonical_alphabet(#[trigger] all_alphabets()[i]),
{
    lemma_by_center_shape(97);
}

/// No alphabet is visited twice in a search run.
pub proof fn lemma_alphabets_distinct()
    ensures
        distinct_seqs(all_alphabets()),
{
    lemma_by_center_shape(97);
}

/// The value of C(25, 6), settled by walking Pascal's triangle row by row.
proof fn lemma_binom_25_6()
    ensures
        binom(25, 6) == 177100,
{
    assert(binom(0, 0) == 1); assert(binom(0, 1) == 0); assert(binom(0, 2) == 0); assert(binom(0, 3) == 0); assert(binom(0, 4) == 0); assert(binom(0, 5) == 0); assert(binom(0, 6) == 0);
    assert(binom(1, 0) == 1); assert(binom(1, 1) == 1); assert(binom(1, 2) == 0); assert(binom(1, 3) == 0); assert(binom(1, 4) == 0); assert(binom(1, 5) == 0); assert(binom(1, 6) == 0);
    assert(binom(2, 0) == 1); assert(binom(2, 1) == 2); assert(binom(2, 2) == 1); assert(binom(2, 3) == 0); assert(binom(2, 4) == 0); assert(binom(2, 5) == 0); assert(binom(2, 6) == 0);
    assert(binom(3, 0) == 1); assert(binom(3, 1) == 3); assert(binom(3, 2) == 3); assert(binom(3, 3) == 1); assert(binom(3, 4) == 0); assert(binom(3, 5) == 0); assert(binom(3, 6) == 0);
    assert(binom(4, 0) == 1); assert(binom(4, 1) == 4); assert(binom(4, 2) == 6); assert(binom(4, 3) == 4); assert(binom(4, 4) == 1); assert(binom(4, 5) == 0); assert(binom(4, 6) == 0);
    assert(binom(5, 0) == 1); assert(binom(5, 1) == 5); assert(binom(5, 2) == 10); assert(binom(5, 3) == 10); assert(binom(5, 4) == 5); assert(binom(5, 5) == 1); assert(binom(5, 6) == 0);
    assert(binom(6, 0) == 1); assert(binom(6, 1) == 6); assert(binom(6, 2) == 15); assert(binom(6, 3) == 20); assert(binom(6, 4) == 15); assert(binom(6, 5) == 6); assert(binom(6, 6) == 1);
    assert(binom(7, 0) == 1); assert(binom(7, 1) == 7); assert(binom(7, 2) == 21); assert(binom(7, 3) == 35); assert(binom(7, 4) == 35); assert(binom(7, 5) == 21); assert(binom(7, 6) == 7);
    assert(binom(8, 0) == 1); assert(binom(8, 1) == 8); assert(binom(8, 2) == 28); assert(binom(8, 3) == 56); assert(binom(8, 4) == 70); assert(binom(8, 5) == 56); assert(binom(8, 6) == 28);
    assert(binom(9, 0) == 1); assert(binom(9, 1) == 9); assert(binom(9, 2) == 36); assert(binom(9, 3) == 84); assert(binom(9, 4) == 126); assert(binom(9, 5) == 126); assert(binom(9, 6) == 84);
    assert(binom(10, 0) == 1); assert(binom(10, 1) == 10); assert(binom(10, 2) == 45); assert(binom(10, 3) == 120); assert(binom(10, 4) == 210); assert(binom(10, 5) == 252); assert(binom(10, 6) == 210);
    assert(binom(11, 0) == 1); assert(binom(11, 1) == 11); assert(binom(11, 2) == 55); assert(binom(11, 3) == 165); assert(binom(11, 4) == 330); assert(binom(11, 5) == 462); assert(binom(11, 6) == 462);
    assert(binom(12, 0) == 1); assert(binom(12, 1) == 12); assert(binom(12, 2) == 66); assert(binom(12, 3) == 220); assert(binom(12, 4) == 495); assert(binom(12, 5) == 792); assert(binom(12, 6) == 924);
    assert(binom(13, 0) == 1); assert(binom(13, 1) == 13); assert(binom(13, 2) == 78); assert(binom(13, 3) == 286); assert(binom(13, 4) == 715); assert(binom(13, 5) == 1287); assert(binom(13, 6) == 1716);
    assert(binom(14, 0) == 1); assert(binom(14, 1) == 14); assert(binom(14, 2) == 91); assert(binom(14, 3) == 364); assert(binom(14, 4) == 1001); assert(binom(14, 5) == 2002); assert(binom(14, 6) == 3003);
    assert(binom(15, 0) == 1); assert(binom(15, 1) == 15); assert(binom(15, 2) == 105); assert(binom(15, 3) == 455); assert(binom(15, 4) == 1365); assert(binom(15, 5) == 3003); assert(binom(15, 6) == 5005);
    assert(binom(16, 0) == 1); assert(binom(16, 1) == 16); assert(binom(16, 2) == 120); assert(binom(16, 3) == 560); assert(binom(16, 4) == 1820); assert(binom(16, 5) == 4368); assert(binom(16, 6) == 8008);
    assert(binom(17, 0) == 1); assert(binom(17, 1) == 17); assert(binom(17, 2) == 136); assert(binom(17, 3) == 680); assert(binom(17, 4) == 2380); assert(binom(17, 5) == 6188); assert(binom(17, 6) == 12376);
    assert(binom(18, 0) == 1); assert(binom(18, 1) == 18); assert(binom(18, 2) == 153); assert(binom(18, 3) == 816); assert(binom(18, 4) == 3060); assert(binom(18, 5) == 8568); assert(binom(18, 6) == 18564);
    assert(binom(19, 0) == 1); assert(binom(19, 1) == 19); assert(binom(19, 2) == 171); assert(binom(19, 3) == 969); assert(binom(19, 4) == 3876); assert(binom(19, 5) == 11628); assert(binom(19, 6) == 27132);
    assert(binom(20, 0) == 1); assert(binom(20, 1) == 20); assert(binom(20, 2) == 190); assert(binom(20, 3) == 1140); assert(binom(20, 4) == 4845); assert(binom(20, 5) == 15504); assert(binom(20, 6) == 38760);
    assert(binom(21, 0) == 1); assert(binom(21, 1) == 21); assert(binom(21, 2) == 210); assert(binom(21, 3) == 1330); assert(binom(21, 4) == 5985); assert(binom(21, 5) == 20349); assert(binom(21, 6) == 54264);
    assert(binom(22, 0) == 1); assert(binom(22, 1) == 22); assert(binom(22, 2) == 231); assert(binom(22, 3) == 1540); assert(binom(22, 4) == 7315); assert(binom(22, 5) == 26334); assert(binom(22, 6) == 74613);
    assert(binom(23, 0) == 1); assert(binom(23, 1) == 23); assert(binom(23, 2) == 253); assert(binom(23, 3) == 1771); assert(binom(23, 4) == 8855); assert(binom(23, 5) == 33649); assert(binom(23, 6) == 100947);
    assert(binom(24, 0) == 1); assert(binom(24, 1) == 24); assert(binom(24, 2) == 276); assert(binom(24, 3) == 2024); assert(binom(24, 4) == 10626); assert(binom(24, 5) == 42504); assert(binom(24, 6) == 134596);
    assert(binom(25, 0) == 1); assert(binom(25, 1) == 25); assert(binom(25, 2) == 300); assert(binom(25, 3) == 2300); assert(binom(25, 4) == 12650); assert(binom(25, 5) == 53130); assert(binom(25, 6) == 177100);
}

/// A search run visits exactly 26 × C(25, 6) = 4,604,600 alphabets.
pub proof fn lemma_alphabet_count()
    ensures
        all_alphabets().len() == 4604600,
{
    lemma_count_by_center(97);
    lemma_binom_25_6();
}

/// The value of 2^26, settled step by step.
proof fn lemma_pow2_26()
    ensures
        pow2(26) == 67108864,
{
    assert(pow2(0) == 1);
    assert(pow2(1) == 2);
    assert(pow2(2) == 4);
    assert(pow2(3) == 8);
    assert(pow2(4) == 16);
    assert(pow2(5) == 32);
    assert(pow2(6) == 64);
    assert(pow2(7) == 128);
    assert(pow2(8) == 256);
    assert(pow2(9) == 512);
    assert(pow2(10) == 1024);
    assert(pow2(11) == 2048);
    assert(pow2(12) == 4096);
    assert(pow2(13) == 8192);
    assert(pow2(14) == 16384);
    assert(pow2(15) == 32768);
    assert(pow2(16) == 65536);
    assert(pow2(17) == 131072);
    assert(pow2(18) == 262144);
    assert(pow2(19) == 524288);
    assert(pow2(20) == 1048576);
    assert(pow2(21) == 2097152);
    assert(pow2(22) == 4194304);
    assert(pow2(23) == 8388608);
    assert(pow2(24) == 16777216);
    assert(pow2(25) == 33554432);
    assert(pow2(26) == 67108864);
}

/// The five statistics of one alphabet's solution set, as the model gives
/// them.
pub open spec fn stats_of(dict: Seq<Seq<char>>, a: Seq<char>) -> Stats {
    Stats {
        words: solution_words(dict, a).len() as u64,
        pangrams: pangram_count(dict, a) as u64,
        perfect: perfect_count(dict, a) as u64,
        score: total_score(dict, a) as u64,
        ratio: spec_ratio(pangram_count(dict, a), solution_words(dict, a).len() as int) as u64,
    }
}

/// The records after folding the record update over a sequence of
/// alphabets, first to last.
pub open spec fn fold_consider(dict: Seq<Seq<char>>, alphas: Seq<Seq<char>>, m: Maxima) -> Maxima
    decreases alphas.len(),
{
    if alphas.len() == 0 {
        m
    } else {
        fold_consider(dict, alphas.drop_first(), consider_next(m, stats_of(dict, alphas.first())))
    }
}

/// The report events emitted while folding over a sequence of alphabets.
pub open spec fn fold_events(dict: Seq<Seq<char>>, alphas: Seq<Seq<char>>, m: Maxima) -> Seq<
    ReportEventV,
>
    decreases alphas.len(),
{
    if alphas.len() == 0 {
        Seq::empty()
    } else {
        emitted_events(m, stats_of(dict, alphas.first()), alphas.first()) + fold_events(
            dict,
            alphas.drop_first(),
            consider_next(m, stats_of(dict, alphas.first())),
        )
    }
}

/// Folding over a concatenation folds over the parts in turn.
proof fn lemma_fold_concat(dict: Seq<Seq<char>>, s1: Seq<Seq<char>>, s2: Seq<Seq<char>>, m: Maxima)
    ensures
        fold_consider(dict, s1 + s2, m) == fold_consider(dict, s2, fold_consider(dict, s1, m)),
        fold_events(dict, s1 + s2, m) == fold_events(dict, s1, m) + fold_events(
            dict,
            s2,
            fold_consider(dict, s1, m),
        ),
    decreases s1.len(),
{
    if s1.len() == 0 {
        assert(s1 + s2 =~= s2);
        assert(fold_events(dict, s1, m) + fold_events(dict, s2, m) =~= fold_events(dict, s2, m));
    } else {
        let m2 = consider_next(m, stats_of(dict, s1.first()));
        assert((s1 + s2).first() == s1.first());
        assert((s1 + s2).drop_first() =~= s1.drop_first() + s2);
        lemma_fold_concat(dict, s1.drop_first(), s2, m2);
        assert(fold_events(dict, s1, m) + fold_events(dict, s2, fold_consider(dict, s1, m))
            =~= emitted_events(m, stats_of(dict, s1.first()), s1.first()) + (fold_events(
            dict,
            s1.drop_first(),
            m2,
        ) + fold_events(dict, s2, fold_consider(dict, s1.drop_first(), m2))));
    }
}

/// Folding over a single alphabet is one record update.
proof fn lemma_fold_singleton(dict: Seq<Seq<char>>, a: Seq<char>, m: Maxima)
    ensures
        fold_consider(dict, seq![a], m) == consider_next(m, stats_of(dict, a)),
        fold_events(dict, seq![a], m) == emitted_events(m, stats_of(dict, a), a),
{
    let s = seq![a];
    let m2 = consider_next(m, stats_of(dict, a));
    assert(s.len() == 1);
    assert(s.first() == a);
    assert(s.drop_first() =~= Seq::<Seq<char>>::empty());
    assert(fold_consider(dict, s.drop_first(), m2) == m2);
    assert(fold_events(dict, s.drop_first(), m2) =~= Seq::<ReportEventV>::empty());
    assert(fold_events(dict, s, m) =~= emitted_events(m, stats_of(dict, a), a));
}

/// A copy of a letter vector.
fn copy_chars(v: &Vec<char>) -> (r: Vec<char>)
    ensures
        r@ == v@,
{
    let mut r: Vec<char> = Vec::new();
    let n = v.len();
    for i in 0..n
        invariant
            n == v@.len(),
            r@ == v@.subrange(0, i as int),
    {
        r.push(v[i]);
        assert(r@ =~= v@.subrange(0, i + 1 as int));
    }
    assert(r@ =~= v@);
    r
}

/// One level of the backtracking search: try every letter from `from`
/// upward at the next open position of the partial alphabet `t`, solving
/// the dictionary at depth seven and recursing below it, and return how
/// many alphabets the level visited.
fn search_rec(
    dict: &Vec<String>,
    t: &Vec<char>,
    from: u8,
    max: &mut Maxima,
    events: &mut Vec<ReportEvent>,
) -> (count: u64)
    requires
        score_budget(dict.deep_view()) <= u64::MAX / 100,
        1 <= t@.len() <= 6,
        97 <= from as int <= 123,
        forall|i: int| 0 <= i < t@.len() ==> 97 <= (#[trigger] t@[i] as int) <= 122,
        forall|i: int| 1 <= i < t@.len() ==> (#[trigger] t@[i] as int) < from as int,
    ensures
        count == alphabets_from(t@, from as int).len(),
        *final(max) == fold_consider(dict.deep_view(), alphabets_from(t@, from as int), *old(max)),
        event_views(final(events)@) == event_views(old(events)@) + fold_events(
            dict.deep_view(),
            alphabets_from(t@, from as int),
            *old(max),
        ),
    decreases 7 - t@.len(), 123 - from as int,
{
    let ghost dv = dict.deep_view();
    let ghost m0 = *max;
    let ghost e0 = event_views(events@);
    let ghost total = alphabets_from(t@, from as int).len() as int;
    proof {
        lemma_count_from(t@, from as int);
        let n = 123 - from as int - if from as int <= t@[0] as int {
            1int
        } else {
            0int
        };
        lemma_binom_mono(n, 26, 7 - t@.len() as int);
        lemma_binom_le_pow2(26, 7 - t@.len() as int);
        lemma_pow2_26();
        assert(total <= 67108864);
    }
    let mut count: u64 = 0;
    let mut a: u8 = from;
    while a <= 122
        invariant
            dv == dict.deep_view(),
            score_budget(dv) <= u64::MAX / 100,
            1 <= t@.len() <= 6,
            97 <= from as int <= 123,
            forall|i: int| 0 <= i < t@.len() ==> 97 <= (#[trigger] t@[i] as int) <= 122,
            forall|i: int| 1 <= i < t@.len() ==> (#[trigger] t@[i] as int) < from as int,
            from as int <= a as int <= 123,
            total == alphabets_from(t@, from as int).len(),
            total <= 67108864,
            count == total - alphabets_from(t@, a as int).len(),
            fold_consider(dv, alphabets_from(t@, a as int), *max) == fold_consider(
                dv,
                alphabets_from(t@, from as int),
                m0,
            ),
            event_views(events@) + fold_events(dv, alphabets_from(t@, a as int), *max) == e0
                + fold_events(dv, alphabets_from(t@, from as int), m0),
        decreases 123 - a as int,
    {
        let ghost ra = alphabets_from(t@, a as int);
        let ghost rnext = alphabets_from(t@, a as int + 1);
        let ch = a as char;
        proof {
            assert(ch == ((a as int) as char));
        }
        if !chars_contain(t, ch) {
            let ghost here = if t@.len() == 6 {
                seq![t@.push(ch)]
            } else {
                alphabets_from(t@.push(ch), a as int + 1)
            };
            proof {
                assert(ra == here + rnext);
            }
            let ghost maxb = *max;
            let ghost evb = event_views(events@);
            let mut t2 = copy_chars(t);
            t2.push(ch);
            assert(t2@ == t@.push(ch));
            if t2.len() == 7 {
                let sol = solve_alpha(dict, &t2);
                let st = Stats {
                    words: sol.word_count,
                    pangrams: sol.pangrams,
                    perfect: sol.perfect,
                    score: sol.score,
                    ratio: sol.ratio,
                };
                proof {
                    lemma_model_bounds(dv, t2@);
                    assert(st == stats_of(dv, t2@));
                }
                consider(max, &st, &t2, events);
                proof {
                    lemma_fold_singleton(dv, t2@, maxb);
                    assert(here == seq![t2@]);
                    lemma_fold_concat(dv, here, rnext, maxb);
                    assert(event_views(events@) + fold_events(dv, rnext, *max) =~= evb
                        + fold_events(dv, ra, maxb));
                }
                count = count + 1;
            } else {
                let k = search_rec(dict, &t2, a + 1, max, events);
                proof {
                    lemma_fold_concat(dv, here, rnext, maxb);
                    assert(event_views(events@) + fold_events(dv, rnext, *max) =~= evb
                        + fold_events(dv, ra, maxb));
                }
                count = count + k;
            }
        } else {
            proof {
                assert(t@.contains((a as int) as char));
                assert(ra =~= rnext);
            }
        }
        a = a + 1;
    }
    proof {
        assert(alphabets_from(t@, a as int) =~= Seq::<Seq<char>>::empty());
        assert(fold_events(dv, alphabets_from(t@, a as int), *max) =~= Seq::<ReportEventV>::empty());
        assert(event_views(events@) =~= e0 + fold_events(dv, alphabets_from(t@, from as int), m0));
    }
    count
}

/// What an exhaustive search returns: the five records, every report event
/// in emission order, and the number of alphabets visited.
pub struct SearchOutcome {
    pub maxima: Maxima,
    pub events: Vec<ReportEvent>,
    pub alphabets_tried: u64,
}

/// Search every canonical alphabet, updating the running records from each
/// one's solution statistics and recording a report event for every record
/// broken. The search visits all 4,604,600 canonical alphabets.
pub fn search_maxima(dict: &Vec<String>) -> (r: SearchOutcome)
    requires
        score_budget(dict.deep_view()) <= u64::MAX / 100,
    ensures
        r.maxima == fold_consider(dict.deep_view(), all_alphabets(), initial_maxima()),
        event_views(r.events@) == fold_events(dict.deep_view(), all_alphabets(), initial_maxima()),
        r.alphabets_tried == all_alphabets().len(),
        r.alphabets_tried == 4604600,
{
    let ghost dv = dict.deep_view();
    proof {
        lemma_alphabet_count();
        assert(event_views(Seq::<ReportEvent>::empty()) =~= Seq::<ReportEventV>::empty());
    }
    let mut max: Maxima = Maxima::default();
    let mut events: Vec<ReportEvent> = Vec::new();
    let mut count: u64 = 0;
    let mut c: u8 = 97;
    while c <= 122
        invariant
            dv == dict.deep_view(),
            score_budget(dv) <= u64::MAX / 100,
            97 <= c as int <= 123,
            all_alphabets().len() == 4604600,
            count == all_alphabets().len() - alphabets_by_center(c as int).len(),
            fold_consider(dv, alphabets_by_center(c as int), max) == fold_consider(
                dv,
                all_alphabets(),
                initial_maxima(),
            ),
            event_views(events@) + fold_events(dv, alphabets_by_center(c as int), max)
                == fold_events(dv, all_alphabets(), initial_maxima()),
        decreases 123 - c as int,
    {
        let ghost rc = alphabets_by_center(c as int);
        let ghost rnext = alphabets_by_center(c as int + 1);
        let ghost group = alphabets_from(seq![(c as int) as char], 97);
        proof {
            assert(rc == group + rnext);
        }
        let ghost maxb = max;
        let ghost evb = event_views(events@);
        let ch = c as char;
        let mut t: Vec<char> = Vec::new();
        t.push(ch);
        proof {
            assert(t@ =~= seq![(c as int) as char]);
        }
        let k = search_rec(dict, &t, 97, &mut max, &mut events);
        proof {
            lemma_fold_concat(dv, group, rnext, maxb);
            assert(event_views(events@) + fold_events(dv, rnext, max) =~= evb + fold_events(
                dv,
                rc,
                maxb,
            ));
        }
        count = count + k;
        c = c + 1;
    }
    proof {
        assert(alphabets_by_center(c as int) =~= Seq::<Seq<char>>::empty());
        assert(fold_events(dv, alphabets_by_center(c as int), max) =~= Seq::<
            ReportEventV,
        >::empty());
        assert(event_views(events@) =~= fold_events(dv, all_alphabets(), initial_maxima()));
    }
    SearchOutcome { maxima: max, events, alphabets_tried: count }
}

} // verus!
