//! Feedback of a guess against a solution: a colour for each position and a count
//! constraint for each letter.

use vstd::prelude::*;
use crate::word::{
    lemma_letter_round_trip, lemma_mismatched_range, is_word, letter_index, letter_of, mismatched,
    Word,
};

verus! {

/// Colour of one guessed letter.
#[derive(Copy, Clone, Debug, PartialEq, Eq, Structural)]
pub enum CharacterStatus {
    /// The letter stands at this position of the solution.
    CORRECT,
    /// The letter is not credited to the solution at this position.
    INCORRECT,
    /// The letter occurs in the solution, at another position.
    EXISTS,
}

/// A guessed letter and its colour.
#[derive(Copy, Clone, Debug)]
pub struct CharacterState {
    pub character: char,
    pub status: CharacterStatus,
}

/// The outcome of one guess.
///
/// `exists` holds one entry per letter of the alphabet: `0` says nothing, a positive `n`
/// says that the letter occurs at least `n` times, a negative `-n` says that it occurs
/// exactly `n` times, and [`NEVER`] says that it occurs at no position that is not
/// `CORRECT`.
#[derive(Copy, Clone, Debug)]
pub struct GuessResult {
    pub char_states: [CharacterState; 5],
    pub exists: [i8; 26],
}

/// The count entry of a letter that the solution holds at no position but the `CORRECT` ones.
pub const NEVER: i8 = -6;

/// What a [`GuessResult`] says, as plain sequences.
#[verifier::ext_equal]
pub struct Feedback {
    /// The guessed letter at each of the five positions.
    pub letters: Seq<char>,
    /// The colour at each of the five positions.
    pub statuses: Seq<CharacterStatus>,
    /// The count entry of each of the 26 letters, by position in the alphabet.
    pub counts: Seq<int>,
}

impl View for GuessResult {
    type V = Feedback;

    open spec fn view(&self) -> Feedback {
        Feedback {
            letters: Seq::new(5, |i: int| self.char_states@[i].character),
            statuses: Seq::new(5, |i: int| self.char_states@[i].status),
            counts: Seq::new(26, |a: int| self.exists@[a] as int),
        }
    }
}

/// Two outcomes that say the same are the same value: a guess played twice against a
/// solution gives the same outcome both times.
pub proof fn lemma_view_determines_result(a: GuessResult, b: GuessResult)
    requires
        a@ == b@,
    ensures
        a == b,
{
    assert forall|i: int| 0 <= i < 5 implies a.char_states@[i] == b.char_states@[i] by {
        assert(a@.letters[i] == a.char_states@[i].character);
        assert(b@.letters[i] == b.char_states@[i].character);
        assert(a@.statuses[i] == a.char_states@[i].status);
        assert(b@.statuses[i] == b.char_states@[i].status);
    }
    assert forall|k: int| 0 <= k < 26 implies a.exists@[k] == b.exists@[k] by {
        assert(a@.counts[k] == a.exists@[k] as int);
        assert(b@.counts[k] == b.exists@[k] as int);
    }
    assert(a.char_states =~= b.char_states);
    assert(a.exists =~= b.exists);
}

impl Feedback {
    /// Five positions, 26 count entries, and each entry one that the rules can produce.
    pub open spec fn well_formed(self) -> bool {
        &&& self.letters.len() == 5
        &&& self.statuses.len() == 5
        &&& self.counts.len() == 26
        &&& forall|a: int| 0 <= a < 26 ==> NEVER <= #[trigger] self.counts[a] <= 5
    }
}

/// The colour of position `i` when `guess` is played against `solution`.
///
/// A letter in place is `CORRECT`. Of the other copies of a letter in the guess, from
/// the left, as many are `EXISTS` as the solution holds copies of it out of place.
pub open spec fn status_at(guess: Seq<char>, solution: Seq<char>, i: int) -> CharacterStatus {
    if guess[i] == solution[i] {
        CharacterStatus::CORRECT
    } else if mismatched(guess, solution, guess[i], i) < mismatched(solution, guess, guess[i], 5) {
        CharacterStatus::EXISTS
    } else {
        CharacterStatus::INCORRECT
    }
}

/// The count entry of letter `c` when `guess` is played against `solution`.
///
/// With `n` copies of `c` out of place in the guess and `u` out of place in the solution:
/// nothing where `n` is 0, [`NEVER`] where `u` is 0, at least `n` where all `n` found a
/// partner, exactly `u` where some did not.
pub open spec fn count_entry(guess: Seq<char>, solution: Seq<char>, c: char) -> int {
    let n = mismatched(guess, solution, c, 5);
    let u = mismatched(solution, guess, c, 5);
    if n == 0 {
        0
    } else if u == 0 {
        NEVER as int
    } else if n <= u {
        n
    } else {
        -u
    }
}

/// The feedback of `guess` played against the solution `solution`.
pub open spec fn feedback(guess: Seq<char>, solution: Seq<char>) -> Feedback {
    Feedback {
        letters: guess.take(5),
        statuses: Seq::new(5, |i: int| status_at(guess, solution, i)),
        counts: Seq::new(26, |a: int| count_entry(guess, solution, letter_of(a))),
    }
}

impl CharacterState {
    /// A letter that has not been credited yet.
    pub fn new(character: char) -> (r: CharacterState)
        ensures
            r.character == character,
            r.status == CharacterStatus::INCORRECT,
    {
        CharacterState { character, status: CharacterStatus::INCORRECT }
    }
}

/// The colour of position `k` once the first pass has treated the positions below `i`.
spec fn status_after_exact(
    guess: Seq<char>,
    solution: Seq<char>,
    k: int,
    i: int,
) -> CharacterStatus {
    if k < i && guess[k] == solution[k] {
        CharacterStatus::CORRECT
    } else {
        CharacterStatus::INCORRECT
    }
}

/// The colour of position `k` once the second pass has treated the positions below `i`.
spec fn status_after_assignment(
    guess: Seq<char>,
    solution: Seq<char>,
    k: int,
    i: int,
) -> CharacterStatus {
    if k < i {
        status_at(guess, solution, k)
    } else {
        status_after_exact(guess, solution, k, 5)
    }
}

/// Number of copies of `c` out of place in the solution that are still without a partner
/// once the second pass has treated the positions below `i`.
spec fn unclaimed(guess: Seq<char>, solution: Seq<char>, c: char, i: int) -> int {
    let p = mismatched(guess, solution, c, i);
    let u = mismatched(solution, guess, c, 5);
    if p <= u {
        u - p
    } else {
        0
    }
}

/// The count entry of `c` once the second pass has treated the positions below `i`.
spec fn entry_after_assignment(guess: Seq<char>, solution: Seq<char>, c: char, i: int) -> int {
    let p = mismatched(guess, solution, c, i);
    let u = mismatched(solution, guess, c, 5);
    if p == 0 || u == 0 {
        0
    } else if p <= u {
        p
    } else {
        -u
    }
}

/// The count entry of `c` once the third pass has treated the positions below `i`.
spec fn entry_after_absence(guess: Seq<char>, solution: Seq<char>, c: char, i: int) -> int {
    if mismatched(solution, guess, c, 5) == 0 && mismatched(guess, solution, c, i) > 0 {
        NEVER as int
    } else {
        entry_after_assignment(guess, solution, c, 5)
    }
}

/// Plays `guess` against the solution `solution`.
///
/// A first pass marks the letters in place and counts what the solution holds out of
/// place. A second pass, from the left, gives each of the other letters of the guess a
/// partner among those as long as one is left, and caps the count of a letter at the
/// first copy that finds none. A third pass rules out the letters that found no partner
/// at all.
pub fn get_states(guess: &Word, solution: &Word) -> (r: GuessResult)
    requires
        is_word(guess@),
        is_word(solution@),
    ensures
        r@ == feedback(guess@, solution@),
        r@.well_formed(),
{
    let ghost g = guess@;
    let ghost s = solution@;
    let mut exists: [i8; 26] = [0; 26];
    let mut known_exists: [i8; 26] = [0; 26];
    let mut char_states: [CharacterState; 5] = [
        CharacterState::new(guess[0]),
        CharacterState::new(guess[1]),
        CharacterState::new(guess[2]),
        CharacterState::new(guess[3]),
        CharacterState::new(guess[4]),
    ];
    let mut index: usize = 0;
    while index < 5
        invariant
            index <= 5,
            g == guess@ && is_word(g),
            s == solution@ && is_word(s),
            forall|a: int|
                0 <= a < 26 ==> #[trigger] exists@[a] == mismatched(
                    s,
                    g,
                    letter_of(a),
                    index as int,
                ),
            forall|k: int| 0 <= k < 5 ==> (#[trigger] char_states@[k]).character == g[k],
            forall|k: int|
                0 <= k < 5 ==> (#[trigger] char_states@[k]).status == status_after_exact(
                    g,
                    s,
                    k,
                    index as int,
                ),
        decreases 5 - index,
    {
        proof {
            lemma_letter_round_trip();
            lemma_mismatched_range(s, g, s[index as int], index as int, 5);
        }
        if guess[index] == solution[index] {
            char_states[index].status = CharacterStatus::CORRECT;
        } else {
            let c = letter_index(solution[index]);
            exists[c] += 1;
        }
        index += 1;
    }
    proof {
        assert forall|a: int| 0 <= a < 26 implies #[trigger] exists@[a] == unclaimed(
            g,
            s,
            letter_of(a),
            0,
        ) by {
            lemma_mismatched_range(s, g, letter_of(a), 5, 5);
        }
    }
    index = 0;
    while index < 5
        invariant
            index <= 5,
            g == guess@ && is_word(g),
            s == solution@ && is_word(s),
            forall|a: int|
                0 <= a < 26 ==> #[trigger] exists@[a] == unclaimed(
                    g,
                    s,
                    letter_of(a),
                    index as int,
                ),
            forall|a: int|
                0 <= a < 26 ==> #[trigger] known_exists@[a] == entry_after_assignment(
                    g,
                    s,
                    letter_of(a),
                    index as int,
                ),
            forall|k: int| 0 <= k < 5 ==> (#[trigger] char_states@[k]).character == g[k],
            forall|k: int|
                0 <= k < 5 ==> (#[trigger] char_states@[k]).status == status_after_assignment(
                    g,
                    s,
                    k,
                    index as int,
                ),
        decreases 5 - index,
    {
        proof {
            lemma_letter_round_trip();
            lemma_mismatched_range(g, s, g[index as int], index as int, 5);
            lemma_mismatched_range(s, g, g[index as int], 5, 5);
        }
        if char_states[index].status != CharacterStatus::CORRECT {
            let c = letter_index(guess[index]);
            if exists[c] > 0 {
                known_exists[c] += 1;
                exists[c] -= 1;
                char_states[index].status = CharacterStatus::EXISTS;
            } else if known_exists[c] > 0 {
                known_exists[c] = -known_exists[c];
            }
        }
        index += 1;
    }
    index = 0;
    while index < 5
        invariant
            index <= 5,
            g == guess@ && is_word(g),
            s == solution@ && is_word(s),
            forall|a: int|
                0 <= a < 26 ==> #[trigger] known_exists@[a] == entry_after_absence(
                    g,
                    s,
                    letter_of(a),
                    index as int,
                ),
            forall|k: int| 0 <= k < 5 ==> (#[trigger] char_states@[k]).character == g[k],
            forall|k: int| 0 <= k < 5 ==> (#[trigger] char_states@[k]).status == status_at(g, s, k),
        decreases 5 - index,
    {
        proof {
            lemma_letter_round_trip();
            lemma_mismatched_range(g, s, g[index as int], index as int, 5);
            lemma_mismatched_range(s, g, g[index as int], 5, 5);
        }
        let c = letter_index(guess[index]);
        if char_states[index].status == CharacterStatus::INCORRECT && known_exists[c] == 0 {
            known_exists[c] = NEVER;
        }
        index += 1;
    }
    let r = GuessResult { char_states, exists: known_exists };
    proof {
        assert forall|a: int| 0 <= a < 26 implies #[trigger] r@.counts[a] == count_entry(
            g,
            s,
            letter_of(a),
        ) && NEVER <= r@.counts[a] <= 5 by {
            lemma_mismatched_range(s, g, letter_of(a), 5, 5);
            lemma_mismatched_range(g, s, letter_of(a), 5, 5);
        }
        assert(r@ =~= feedback(g, s));
    }
    r
}

} // verus!
