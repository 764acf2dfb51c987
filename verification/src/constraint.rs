//! The validity predicate: which words are consistent with a piece of feedback, and the
//! filtering of a candidate pool by it.

use vstd::prelude::*;
use crate::word::{
    all_words, is_letter, is_word, lemma_letter_round_trip, lemma_occurrences_range, letter_at,
    letter_index, letter_of, occurrences, occurrences_below, Word,
};
use crate::feedback::{CharacterStatus, Feedback, GuessResult, NEVER};

verus! {

/// What the colour at position `i` asks of `word`.
///
/// `CORRECT` asks for the guessed letter. Any other colour asks that the word's letter
/// there is not ruled out, and `EXISTS` also that it is not the guessed letter.
pub open spec fn position_holds(word: Seq<char>, fb: Feedback, i: int) -> bool {
    match fb.statuses[i] {
        CharacterStatus::CORRECT => word[i] == fb.letters[i],
        CharacterStatus::EXISTS => {
            word[i] != fb.letters[i] && fb.counts[letter_at(word[i])] != NEVER
        },
        CharacterStatus::INCORRECT => fb.counts[letter_at(word[i])] != NEVER,
    }
}

/// What the count entry of letter `c` asks of `word`.
///
/// A positive entry `n` asks for at least `n` copies of `c`, a negative entry `-n` for
/// exactly `n`; the entries 0 and [`NEVER`] ask nothing of the number of copies.
pub open spec fn count_holds(word: Seq<char>, fb: Feedback, c: char) -> bool {
    let entry = fb.counts[letter_at(c)];
    if entry == 0 || entry == NEVER {
        true
    } else if entry < 0 {
        occurrences(word, c) == -entry
    } else {
        occurrences(word, c) >= entry
    }
}

/// Whether `word` is consistent with the feedback `fb`.
pub open spec fn satisfies(word: Seq<char>, fb: Feedback) -> bool {
    &&& forall|i: int| 0 <= i < 5 ==> #[trigger] position_holds(word, fb, i)
    &&& forall|c: char| is_letter(c) ==> #[trigger] count_holds(word, fb, c)
}

/// The words of `pool` that are consistent with `fb`, in the order of `pool`.
pub open spec fn survivors(pool: Seq<Word>, fb: Feedback) -> Seq<Word> {
    pool.filter(|w: Word| satisfies(w@, fb))
}

/// Whether `word` is consistent with the feedback `states`.
pub fn word_is_valid(word: &Word, states: &GuessResult) -> (r: bool)
    requires
        is_word(word@),
        states@.well_formed(),
    ensures
        r == satisfies(word@, states@),
{
    let mut exists: [i8; 26] = [0; 26];
    let mut i: usize = 0;
    while i < 5
        invariant
            i <= 5,
            is_word(word@),
            states@.well_formed(),
            forall|k: int| 0 <= k < i ==> #[trigger] position_holds(word@, states@, k),
            forall|a: int|
                0 <= a < 26 ==> #[trigger] exists@[a] == occurrences_below(
                    word@,
                    letter_of(a),
                    i as int,
                ),
        decreases 5 - i,
    {
        proof {
            lemma_letter_round_trip();
            lemma_occurrences_range(word@, word@[i as int], i as int, 5);
        }
        let c = letter_index(word[i]);
        if states.char_states[i].status == CharacterStatus::CORRECT {
            if word[i] != states.char_states[i].character {
                assert(!position_holds(word@, states@, i as int));
                return false;
            }
        } else {
            if states.char_states[i].status == CharacterStatus::EXISTS && word[i]
                == states.char_states[i].character {
                assert(!position_holds(word@, states@, i as int));
                return false;
            }
            if states.exists[c] == NEVER {
                assert(!position_holds(word@, states@, i as int));
                return false;
            }
        }
        exists[c] += 1;
        i += 1;
    }
    let mut a: usize = 0;
    while a < 26
        invariant
            a <= 26,
            is_word(word@),
            states@.well_formed(),
            forall|b: int|
                0 <= b < 26 ==> #[trigger] exists@[b] == occurrences(word@, letter_of(b)),
            forall|b: int| 0 <= b < a ==> count_holds(word@, states@, #[trigger] letter_of(b)),
        decreases 26 - a,
    {
        proof {
            lemma_letter_round_trip();
        }
        let ge = exists[a];
        let re = states.exists[a];
        assert(re as int == states@.counts[a as int]);
        if re != NEVER && re != 0 {
            let is_capped = re < 0;
            let total = if is_capped {
                -re
            } else {
                re
            };
            if (is_capped && ge != total) || (!is_capped && ge < total) {
                assert(!count_holds(word@, states@, letter_of(a as int)));
                return false;
            }
        }
        a += 1;
    }
    proof {
        lemma_letter_round_trip();
        assert forall|c: char| is_letter(c) implies #[trigger] count_holds(word@, states@, c) by {
            assert(count_holds(word@, states@, letter_of(letter_at(c))));
        }
    }
    true
}

/// Keeps the words of `words` that are consistent with `states`, in their order.
pub fn get_valid_words(words: Vec<Word>, states: GuessResult) -> (r: Vec<Word>)
    requires
        all_words(words@),
        states@.well_formed(),
    ensures
        r@ == survivors(words@, states@),
        r@.len() <= words@.len(),
        all_words(r@),
{
    let ghost keep = |w: Word| satisfies(w@, states@);
    let mut kept: Vec<Word> = Vec::new();
    let mut k: usize = 0;
    proof {
        reveal(Seq::filter);
        assert(words@.take(0) =~= Seq::<Word>::empty());
    }
    while k < words.len()
        invariant
            k <= words.len(),
            all_words(words@),
            states@.well_formed(),
            keep == |w: Word| satisfies(w@, states@),
            kept@ == words@.take(k as int).filter(keep),
            kept@.len() <= k,
            all_words(kept@),
        decreases words.len() - k,
    {
        proof {
            assert(words@.take(k + 1) =~= words@.take(k as int).push(words@[k as int]));
            words@.take(k as int).lemma_filter_push(words@[k as int], keep);
        }
        if word_is_valid(&words[k], &states) {
            kept.push(words[k]);
        }
        k += 1;
    }
    assert(words@.take(words@.len() as int) =~= words@);
    kept
}

/// Counts the words of `words` that are consistent with `states`.
pub fn total_valid_words(words: &Vec<Word>, states: GuessResult) -> (r: usize)
    requires
        all_words(words@),
        states@.well_formed(),
    ensures
        r == survivors(words@, states@).len(),
        r <= words@.len(),
{
    let ghost keep = |w: Word| satisfies(w@, states@);
    let mut total: usize = 0;
    let mut k: usize = 0;
    proof {
        reveal(Seq::filter);
        assert(words@.take(0) =~= Seq::<Word>::empty());
    }
    while k < words.len()
        invariant
            k <= words.len(),
            all_words(words@),
            states@.well_formed(),
            keep == |w: Word| satisfies(w@, states@),
            total == words@.take(k as int).filter(keep).len(),
            total <= k,
        decreases words.len() - k,
    {
        proof {
            assert(words@.take(k + 1) =~= words@.take(k as int).push(words@[k as int]));
            words@.take(k as int).lemma_filter_push(words@[k as int], keep);
        }
        if word_is_valid(&words[k], &states) {
            total += 1;
        }
        k += 1;
    }
    assert(words@.take(words@.len() as int) =~= words@);
    total
}

/// Whether `word` is consistent with each of the first `n` entries of `history`.
pub open spec fn satisfies_all(word: Seq<char>, history: Seq<GuessResult>, n: int) -> bool {
    forall|h: int| 0 <= h < n ==> satisfies(word, #[trigger] history[h]@)
}

/// Keeps the words of `words` that are consistent with every piece of feedback in
/// `history`, by filtering with one after the other.
pub fn apply_history(words: Vec<Word>, history: &Vec<GuessResult>) -> (r: Vec<Word>)
    requires
        all_words(words@),
        forall|h: int| 0 <= h < history@.len() ==> (#[trigger] history@[h])@.well_formed(),
    ensures
        r@ == words@.filter(|w: Word| satisfies_all(w@, history@, history@.len() as int)),
        r@.len() <= words@.len(),
        all_words(r@),
{
    let ghost start = words@;
    let mut pool = words;
    let mut h: usize = 0;
    proof {
        lemma_filter_all(start, |w: Word| satisfies_all(w@, history@, 0));
    }
    while h < history.len()
        invariant
            h <= history@.len(),
            all_words(pool@),
            forall|j: int| 0 <= j < history@.len() ==> (#[trigger] history@[j])@.well_formed(),
            pool@ == start.filter(|w: Word| satisfies_all(w@, history@, h as int)),
            pool@.len() <= start.len(),
        decreases history@.len() - h,
    {
        proof {
            lemma_filter_again(
                start,
                |w: Word| satisfies_all(w@, history@, h as int),
                |w: Word| satisfies(w@, history@[h as int]@),
                |w: Word| satisfies_all(w@, history@, h + 1),
            );
        }
        pool = get_valid_words(pool, history[h]);
        h += 1;
    }
    pool
}

/// A predicate that holds of every entry keeps them all.
proof fn lemma_filter_all(pool: Seq<Word>, p: spec_fn(Word) -> bool)
    requires
        forall|k: int| 0 <= k < pool.len() ==> p(#[trigger] pool[k]),
    ensures
        pool.filter(p) == pool,
    decreases pool.len(),
{
    reveal(Seq::filter);
    if pool.len() > 0 {
        let rest = pool.drop_last();
        assert forall|k: int| 0 <= k < rest.len() implies p(#[trigger] rest[k]) by {
            assert(rest[k] == pool[k]);
        }
        lemma_filter_all(rest, p);
        assert(p(pool[pool.len() - 1]));
        assert(pool =~= rest.push(pool.last()));
    }
}

/// Filtering by `p` and then by `q` is filtering by a predicate that says both.
pub proof fn lemma_filter_again(
    pool: Seq<Word>,
    p: spec_fn(Word) -> bool,
    q: spec_fn(Word) -> bool,
    both: spec_fn(Word) -> bool,
)
    requires
        forall|k: int|
            0 <= k < pool.len() ==> both(#[trigger] pool[k]) == (p(pool[k]) && q(pool[k])),
    ensures
        pool.filter(p).filter(q) == pool.filter(both),
    decreases pool.len(),
{
    reveal(Seq::filter);
    if pool.len() > 0 {
        let rest = pool.drop_last();
        let last = pool.last();
        assert forall|k: int|
            0 <= k < rest.len() implies both(#[trigger] rest[k]) == (p(rest[k]) && q(
            rest[k],
        )) by {
            assert(rest[k] == pool[k]);
        }
        lemma_filter_again(rest, p, q, both);
        assert(both(pool[pool.len() - 1]) == (p(last) && q(last)));
        assert(pool =~= rest.push(last));
        rest.lemma_filter_push(last, p);
        rest.lemma_filter_push(last, both);
        rest.filter(p).lemma_filter_push(last, q);
    }
}

} // verus!
