//! The whole computation of one round: narrow the word lists by the history of the game,
//! score every guess that is still allowed, and rank the scores.

use vstd::prelude::*;
use crate::word::{all_words, Word};
use crate::feedback::{Feedback, GuessResult};
use crate::pattern::{declared, decode_error, gr, statuses_of, DecodeError};
use crate::constraint::{apply_history, satisfies_all};
use crate::scoring::{get_expected_value, total_below, trials_below, Expectation, MAX_POOL};
use crate::frequency::FrequencyTable;
use crate::ranking::{is_ranked, rank, ScoreRecord};

verus! {

/// A piece of the reported history that cannot be decoded.
#[derive(Copy, Clone, Debug, PartialEq, Eq, Structural)]
pub struct HistoryError {
    /// Which pair of arguments, counted from 0.
    pub pair: usize,
    /// What is wrong with it.
    pub error: DecodeError,
}

/// The error that pair number `i` of `args` is refused with, if it is refused.
pub open spec fn pair_error(args: Seq<String>, i: int) -> Option<DecodeError> {
    decode_error(args[2 * i]@, args[2 * i + 1]@)
}

/// The feedback that pair number `i` of `args` stands for.
pub open spec fn pair_feedback(args: Seq<String>, i: int) -> Feedback {
    declared(args[2 * i]@.take(5), statuses_of(args[2 * i + 1]@))
}

/// Whether the pairs of `args` below `n` can all be decoded.
pub open spec fn decodable_below(args: Seq<String>, n: int) -> bool {
    forall|i: int| 0 <= i < n ==> #[trigger] pair_error(args, i) is None
}

/// Decodes the history of a game from arguments that come in pairs, a guessed word and
/// the pattern it was answered with. An argument left over at the end is not read.
///
/// The first pair that cannot be decoded is reported, and nothing is decoded then.
pub fn decode_history(args: &Vec<String>) -> (r: Result<Vec<GuessResult>, HistoryError>)
    ensures
        match r {
            Ok(history) => {
                &&& history@.len() == args@.len() / 2
                &&& decodable_below(args@, history@.len() as int)
                &&& forall|i: int|
                    0 <= i < history@.len() ==> (#[trigger] history@[i])@ == pair_feedback(args@, i)
                        && history@[i]@.well_formed()
            },
            Err(e) => {
                &&& e.pair < args@.len() / 2
                &&& decodable_below(args@, e.pair as int)
                &&& pair_error(args@, e.pair as int) == Some(e.error)
            },
        },
{
    let word_count = args.len() / 2;
    let mut history: Vec<GuessResult> = Vec::new();
    let mut i: usize = 0;
    while i < word_count
        invariant
            i <= word_count,
            word_count == args@.len() / 2,
            2 * word_count <= args@.len() <= usize::MAX,
            history@.len() == i,
            decodable_below(args@, i as int),
            forall|k: int|
                0 <= k < i ==> (#[trigger] history@[k])@ == pair_feedback(args@, k)
                    && history@[k]@.well_formed(),
        decreases word_count - i,
    {
        match gr(args[i * 2].as_str(), args[i * 2 + 1].as_str()) {
            Ok(g) => {
                history.push(g);
            },
            Err(error) => {
                return Err(HistoryError { pair: i, error });
            },
        }
        i += 1;
    }
    Ok(history)
}

/// The score of `guess` against `pool`.
pub open spec fn expectation(pool: Seq<Word>, guess: Seq<char>) -> Expectation {
    Expectation {
        total: total_below(pool, guess, pool.len() as int) as u64,
        trials: trials_below(pool, guess, pool.len() as int) as u64,
    }
}

/// The words of `guesses`, each with its score against `pool`.
pub open spec fn scores(guesses: Seq<Word>, pool: Seq<Word>) -> Seq<ScoreRecord> {
    Seq::new(
        guesses.len(),
        |i: int| ScoreRecord { word: guesses[i], score: expectation(pool, guesses[i]@) },
    )
}

/// Scores every word of `guesses` against the candidate pool `pool`, in the order of
/// `guesses`.
pub fn score_all(guesses: &Vec<Word>, pool: &Vec<Word>) -> (r: Vec<ScoreRecord>)
    requires
        all_words(guesses@),
        all_words(pool@),
        pool@.len() <= MAX_POOL,
    ensures
        r@ == scores(guesses@, pool@),
{
    let mut records: Vec<ScoreRecord> = Vec::new();
    let mut i: usize = 0;
    while i < guesses.len()
        invariant
            i <= guesses@.len(),
            all_words(guesses@),
            all_words(pool@),
            pool@.len() <= MAX_POOL,
            records@.len() == i,
            forall|k: int| 0 <= k < i ==> #[trigger] records@[k] == scores(guesses@, pool@)[k],
        decreases guesses@.len() - i,
    {
        let score = get_expected_value(&guesses[i], pool);
        records.push(ScoreRecord { word: guesses[i], score });
        i += 1;
    }
    assert(records@ =~= scores(guesses@, pool@));
    records
}

/// The words of `words` that are consistent with the whole of `history`.
pub open spec fn narrowed(words: Seq<Word>, history: Seq<GuessResult>) -> Seq<Word> {
    words.filter(|w: Word| satisfies_all(w@, history, history.len() as int))
}

/// One round of advice.
///
/// Both word lists are narrowed to the words consistent with `history`. Every allowed
/// guess that is left is scored against the possible solutions that are left, and the
/// scored guesses are ranked, the best first.
pub fn guess_pass(
    allowed_words: Vec<Word>,
    possible_words: Vec<Word>,
    word_freqs: &FrequencyTable,
    history: &Vec<GuessResult>,
) -> (ranked: Vec<ScoreRecord>)
    requires
        all_words(allowed_words@),
        all_words(possible_words@),
        possible_words@.len() <= MAX_POOL,
        forall|h: int| 0 <= h < history@.len() ==> (#[trigger] history@[h])@.well_formed(),
    ensures
        is_ranked(
            ranked@,
            scores(narrowed(allowed_words@, history@), narrowed(possible_words@, history@)),
            narrowed(possible_words@, history@),
            word_freqs@,
        ),
{
    let allowed = apply_history(allowed_words, history);
    let possible = apply_history(possible_words, history);
    let scored = score_all(&allowed, &possible);
    rank(&scored, &possible, word_freqs)
}

} // verus!
