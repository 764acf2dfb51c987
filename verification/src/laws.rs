//! Laws that relate the feedback of a guess, the validity predicate and the filtering of
//! a pool.

use vstd::prelude::*;
use crate::word::{
    in_place, is_letter, is_word, lemma_letter_round_trip, lemma_mismatched_range,
    lemma_occurrences_range, letter_at, mismatched, occurrences, occurrences_below, Word,
};
use crate::feedback::{count_entry, feedback, status_at, CharacterStatus, Feedback};
use crate::constraint::{count_holds, lemma_filter_again, position_holds, satisfies, survivors};
use crate::pattern::{credited, declared, declared_entry, last_status};

verus! {

/// The copies of a letter in one word split into those that the other word holds at the
/// same position and those that it does not.
pub proof fn lemma_occurrences_split(a: Seq<char>, b: Seq<char>, c: char, n: int)
    requires
        0 <= n,
    ensures
        occurrences_below(a, c, n) == in_place(a, b, c, n) + mismatched(a, b, c, n),
        in_place(a, b, c, n) == in_place(b, a, c, n),
        0 <= in_place(a, b, c, n) <= n,
    decreases n,
{
    if n > 0 {
        lemma_occurrences_split(a, b, c, n - 1);
    }
}

/// Whether the feedback of `guess` against `solution` fixes the number of copies of `c`
/// below the number that `solution` holds.
///
/// This is so where the guess holds `c` in place, and out of place more often than the
/// solution does, which in turn holds it out of place at least once: the exact count
/// then leaves the copies in place out.
pub open spec fn undercounts(guess: Seq<char>, solution: Seq<char>, c: char) -> bool {
    &&& in_place(guess, solution, c, 5) > 0
    &&& 0 < mismatched(solution, guess, c, 5) < mismatched(guess, solution, c, 5)
}

/// A solution is consistent with the feedback that it gives to a guess, unless that
/// feedback undercounts a letter.
pub proof fn lemma_self_consistency(guess: Seq<char>, solution: Seq<char>)
    requires
        is_word(guess),
        is_word(solution),
        forall|c: char| is_letter(c) ==> !undercounts(guess, solution, c),
    ensures
        satisfies(solution, feedback(guess, solution)),
{
    let fb = feedback(guess, solution);
    lemma_letter_round_trip();
    assert forall|i: int| 0 <= i < 5 implies #[trigger] position_holds(solution, fb, i) by {
        let c = solution[i];
        assert(fb.statuses[i] == status_at(guess, solution, i));
        if guess[i] != c {
            lemma_mismatched_range(solution, guess, c, i + 1, 5);
            lemma_mismatched_range(solution, guess, c, i, i);
            lemma_mismatched_range(guess, solution, c, 5, 5);
            assert(fb.counts[letter_at(c)] == count_entry(guess, solution, c));
        }
    }
    assert forall|c: char| is_letter(c) implies #[trigger] count_holds(solution, fb, c) by {
        assert(fb.counts[letter_at(c)] == count_entry(guess, solution, c));
        lemma_occurrences_split(solution, guess, c, 5);
        lemma_mismatched_range(solution, guess, c, 5, 5);
        lemma_mismatched_range(guess, solution, c, 5, 5);
    }
}

/// Where the feedback of a guess undercounts a letter, the solution is not consistent
/// with it.
pub proof fn lemma_undercount_rejects_solution(guess: Seq<char>, solution: Seq<char>, c: char)
    requires
        is_word(guess),
        is_word(solution),
        is_letter(c),
        undercounts(guess, solution, c),
    ensures
        !satisfies(solution, feedback(guess, solution)),
{
    let fb = feedback(guess, solution);
    lemma_letter_round_trip();
    assert(fb.counts[letter_at(c)] == count_entry(guess, solution, c));
    lemma_occurrences_split(solution, guess, c, 5);
    lemma_mismatched_range(solution, guess, c, 5, 5);
    assert(!count_holds(solution, fb, c));
}

/// The feedback of a word played against itself is satisfied by that word and by no
/// other.
pub proof fn lemma_exact_answer(guess: Seq<char>, word: Seq<char>)
    requires
        is_word(guess),
        word.len() == 5,
    ensures
        satisfies(word, feedback(guess, guess)) <==> word == guess,
{
    let fb = feedback(guess, guess);
    lemma_letter_round_trip();
    if word == guess {
        assert forall|i: int| 0 <= i < 5 implies #[trigger] position_holds(word, fb, i) by {}
        assert forall|c: char| is_letter(c) implies #[trigger] count_holds(word, fb, c) by {
            assert(fb.counts[letter_at(c)] == count_entry(guess, guess, c));
            lemma_no_mismatch_with_itself(guess, c, 5);
        }
    }
    if satisfies(word, fb) {
        assert forall|i: int| 0 <= i < 5 implies word[i] == guess[i] by {
            assert(position_holds(word, fb, i));
        }
        assert(word =~= guess);
    }
}

/// A word holds no letter out of place against itself.
proof fn lemma_no_mismatch_with_itself(w: Seq<char>, c: char, n: int)
    requires
        0 <= n,
    ensures
        mismatched(w, w, c, n) == 0,
    decreases n,
{
    if n > 0 {
        lemma_no_mismatch_with_itself(w, c, n - 1);
    }
}

/// Filtering a pool by the feedback of a word of the pool played against itself leaves
/// that word and nothing else.
pub proof fn lemma_exact_answer_collapse(pool: Seq<Word>, guess: Word)
    requires
        is_word(guess@),
        pool.contains(guess),
    ensures
        survivors(pool, feedback(guess@, guess@)) == pool.filter(|w: Word| w == guess),
        survivors(pool, feedback(guess@, guess@)).to_set() == set![guess],
        survivors(pool, feedback(guess@, guess@)).len() >= 1,
{
    let fb = feedback(guess@, guess@);
    let keep = |w: Word| satisfies(w@, fb);
    let same = |w: Word| w == guess;
    assert forall|k: int| 0 <= k < pool.len() implies keep(#[trigger] pool[k]) == same(pool[k]) by {
        lemma_exact_answer(guess@, pool[k]@);
        if pool[k]@ == guess@ {
            assert(pool[k] =~= guess);
        }
    }
    lemma_filters_agree(pool, keep, same);
    let kept = pool.filter(keep);
    let i = choose|i: int| 0 <= i < pool.len() && pool[i] == guess;
    pool.lemma_filter_contains(keep, i);
    assert(kept.contains(guess));
    assert forall|w: Word| kept.to_set().contains(w) implies w == guess by {
        let j = choose|j: int| 0 <= j < kept.len() && kept[j] == w;
        pool.lemma_filter_pred(keep, j);
    }
    assert(kept.to_set() =~= set![guess]);
}

/// Filtering by one feedback and then by another leaves the words that are consistent
/// with both, whichever comes first.
pub proof fn lemma_filtering_composes(pool: Seq<Word>, a: Feedback, b: Feedback)
    ensures
        survivors(survivors(pool, a), b) == pool.filter(
            |w: Word| satisfies(w@, a) && satisfies(w@, b),
        ),
        survivors(survivors(pool, a), b) == survivors(survivors(pool, b), a),
{
    let by_a = |w: Word| satisfies(w@, a);
    let by_b = |w: Word| satisfies(w@, b);
    let by_both = |w: Word| satisfies(w@, a) && satisfies(w@, b);
    lemma_filter_again(pool, by_a, by_b, by_both);
    lemma_filter_again(pool, by_b, by_a, by_both);
}

/// Two predicates that agree on every entry of a pool keep the same entries of it.
proof fn lemma_filters_agree(pool: Seq<Word>, p: spec_fn(Word) -> bool, q: spec_fn(Word) -> bool)
    requires
        forall|k: int| 0 <= k < pool.len() ==> p(#[trigger] pool[k]) == q(pool[k]),
    ensures
        pool.filter(p) == pool.filter(q),
    decreases pool.len(),
{
    reveal(Seq::filter);
    if pool.len() > 0 {
        let rest = pool.drop_last();
        assert forall|k: int| 0 <= k < rest.len() implies p(#[trigger] rest[k]) == q(rest[k]) by {
            assert(rest[k] == pool[k]);
        }
        lemma_filters_agree(rest, p, q);
        assert(p(pool[pool.len() - 1]) == q(pool[pool.len() - 1]));
    }
}

/// Filtering by `a` and then by `b` is filtering by the conjunction of the two.
proof fn lemma_filter_twice(pool: Seq<Word>, a: Feedback, b: Feedback)
    ensures
        survivors(survivors(pool, a), b) == pool.filter(
            |w: Word| satisfies(w@, a) && satisfies(w@, b),
        ),
    decreases pool.len(),
{
    let by_a = |w: Word| satisfies(w@, a);
    let by_b = |w: Word| satisfies(w@, b);
    let by_both = |w: Word| satisfies(w@, a) && satisfies(w@, b);
    reveal(Seq::filter);
    if pool.len() > 0 {
        let rest = pool.drop_last();
        let last = pool.last();
        lemma_filter_twice(rest, a, b);
        assert(pool =~= rest.push(last));
        rest.lemma_filter_push(last, by_a);
        rest.lemma_filter_push(last, by_both);
        rest.filter(by_a).lemma_filter_push(last, by_b);
    }
}

/// Filtering never grows a pool, and leaves its size unchanged only where every word of
/// the pool is consistent with the feedback; the pool is then unchanged.
pub proof fn lemma_filtering_shrinks(pool: Seq<Word>, fb: Feedback)
    ensures
        survivors(pool, fb).len() <= pool.len(),
        survivors(pool, fb).len() == pool.len() <==> forall|k: int|
            0 <= k < pool.len() ==> satisfies(#[trigger] pool[k]@, fb),
        survivors(pool, fb).len() == pool.len() ==> survivors(pool, fb) == pool,
    decreases pool.len(),
{
    let keep = |w: Word| satisfies(w@, fb);
    reveal(Seq::filter);
    if pool.len() > 0 {
        let rest = pool.drop_last();
        let last = pool.last();
        lemma_filtering_shrinks(rest, fb);
        assert(pool =~= rest.push(last));
        rest.lemma_filter_push(last, keep);
        if survivors(pool, fb).len() == pool.len() {
            assert(keep(last));
            assert forall|k: int|
                0 <= k < pool.len() implies satisfies(#[trigger] pool[k]@, fb) by {
                if k < rest.len() {
                    assert(rest[k] == pool[k]);
                }
            }
        }
        if forall|k: int| 0 <= k < pool.len() ==> satisfies(#[trigger] pool[k]@, fb) {
            assert forall|k: int|
                0 <= k < rest.len() implies satisfies(#[trigger] rest[k]@, fb) by {
                assert(rest[k] == pool[k]);
            }
            assert(satisfies(pool[pool.len() - 1]@, fb));
        }
    }
}

/// Of the copies of a letter in a guess, exactly as many are coloured `CORRECT` or
/// `EXISTS` as the solution holds copies of that letter, or all of them where the
/// solution holds more.
pub proof fn lemma_credit_matches_solution(guess: Seq<char>, solution: Seq<char>, c: char)
    requires
        guess.len() == 5,
        solution.len() == 5,
    ensures
        credited(guess, feedback(guess, solution).statuses, c, 5) == if occurrences(guess, c)
            <= occurrences(solution, c) {
            occurrences(guess, c)
        } else {
            occurrences(solution, c)
        },
{
    lemma_credit_below(guess, solution, c, 5);
    lemma_occurrences_split(guess, solution, c, 5);
    lemma_occurrences_split(solution, guess, c, 5);
}

/// The copies credited below `n` are those in place and, of those out of place, as many
/// as the solution holds out of place.
proof fn lemma_credit_below(guess: Seq<char>, solution: Seq<char>, c: char, n: int)
    requires
        0 <= n <= 5,
        guess.len() == 5,
        solution.len() == 5,
    ensures
        credited(guess, feedback(guess, solution).statuses, c, n) == in_place(guess, solution, c, n)
            + if mismatched(guess, solution, c, n) <= mismatched(solution, guess, c, 5) {
            mismatched(guess, solution, c, n)
        } else {
            mismatched(solution, guess, c, 5)
        },
    decreases n,
{
    lemma_mismatched_range(solution, guess, c, 5, 5);
    lemma_mismatched_range(guess, solution, c, n, n);
    if n > 0 {
        lemma_credit_below(guess, solution, c, n - 1);
        assert(feedback(guess, solution).statuses[n - 1] == status_at(guess, solution, n - 1));
    }
}

/// Where the last copy of a letter below `n` has a colour, some position below `n` holds
/// the letter with that colour.
proof fn lemma_last_status_stands(
    letters: Seq<char>,
    statuses: Seq<CharacterStatus>,
    c: char,
    n: int,
) -> (k: int)
    requires
        last_status(letters, statuses, c, n) is Some,
    ensures
        0 <= k < n,
        letters[k] == c,
        last_status(letters, statuses, c, n) == Some(statuses[k]),
    decreases n,
{
    if letters[n - 1] == c {
        n - 1
    } else {
        lemma_last_status_stands(letters, statuses, c, n - 1)
    }
}

/// A solution is consistent with the colours that it gives to a guess when they are
/// reported back: feedback decoded from a pattern never rules the true answer out.
pub proof fn lemma_reported_colours_accept_solution(guess: Seq<char>, solution: Seq<char>)
    requires
        is_word(guess),
        is_word(solution),
    ensures
        satisfies(solution, declared(guess, feedback(guess, solution).statuses)),
{
    let statuses = feedback(guess, solution).statuses;
    let fb = declared(guess, statuses);
    lemma_letter_round_trip();
    assert forall|c: char| is_letter(c) implies #[trigger] count_holds(solution, fb, c) by {
        assert(fb.counts[letter_at(c)] == declared_entry(guess, statuses, c));
        lemma_credit_matches_solution(guess, solution, c);
        lemma_occurrences_range(guess, c, 5, 5);
        lemma_occurrences_range(solution, c, 5, 5);
        if last_status(guess, statuses, c, 5) == Some(CharacterStatus::INCORRECT) {
            let k = lemma_last_status_stands(guess, statuses, c, 5);
            assert(statuses[k] == status_at(guess, solution, k));
            lemma_mismatched_range(guess, solution, c, k + 1, 5);
            lemma_mismatched_range(guess, solution, c, k, k);
            lemma_occurrences_split(guess, solution, c, 5);
            lemma_occurrences_split(solution, guess, c, 5);
        }
    }
    assert forall|i: int| 0 <= i < 5 implies #[trigger] position_holds(solution, fb, i) by {
        let c = solution[i];
        assert(statuses[i] == status_at(guess, solution, i));
        assert(fb.letters[i] == guess[i]);
        assert(fb.statuses[i] == statuses[i]);
        if guess[i] != c {
            assert(fb.counts[letter_at(c)] == declared_entry(guess, statuses, c));
            if last_status(guess, statuses, c, 5) is Some {
                let k = lemma_last_status_stands(guess, statuses, c, 5);
                lemma_credit_matches_solution(guess, solution, c);
                lemma_occurrences_range(guess, c, k + 1, 5);
                lemma_occurrences_range(guess, c, k, k);
                lemma_occurrences_range(solution, c, i + 1, 5);
                lemma_occurrences_range(solution, c, i, i);
            }
        }
    }
}

} // verus!
