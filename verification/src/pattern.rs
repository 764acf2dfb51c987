//! Feedback as a player reports it: a guessed word and a pattern of the symbols `B`,
//! `Y` and `G`, one per position.

use vstd::prelude::*;
use vstd::string::StrSliceExecFns;
use crate::word::{is_letter, lemma_letter_round_trip, letter_index, letter_of, to_chars};
use crate::feedback::{CharacterState, CharacterStatus, Feedback, GuessResult, NEVER};

verus! {

/// Why a reported guess cannot be decoded.
#[derive(Copy, Clone, Debug, PartialEq, Eq, Structural)]
pub enum DecodeError {
    /// The guessed word has fewer than five characters.
    WordTooShort,
    /// The pattern has fewer than five characters.
    PatternTooShort,
    /// The pattern holds a character other than `B`, `Y` and `G`, first at this position.
    UnknownSymbol(usize),
    /// The guessed word holds a character that is no lowercase letter, first at this position.
    NotALetter(usize),
}

/// The colour that a pattern symbol stands for: `B` absent, `Y` present, `G` correct.
pub open spec fn status_of_symbol(c: char) -> Option<CharacterStatus> {
    if c == 'B' {
        Some(CharacterStatus::INCORRECT)
    } else if c == 'Y' {
        Some(CharacterStatus::EXISTS)
    } else if c == 'G' {
        Some(CharacterStatus::CORRECT)
    } else {
        None
    }
}

/// The colours that the first five symbols of `colors` stand for.
pub open spec fn statuses_of(colors: Seq<char>) -> Seq<CharacterStatus> {
    Seq::new(5, |i: int| status_of_symbol(colors[i]).unwrap())
}

/// The first position below `n` whose symbol stands for no colour.
pub open spec fn first_unknown_symbol(colors: Seq<char>, n: int) -> Option<int>
    decreases n,
{
    if n <= 0 {
        None
    } else if first_unknown_symbol(colors, n - 1) is Some {
        first_unknown_symbol(colors, n - 1)
    } else if status_of_symbol(colors[n - 1]) is None {
        Some(n - 1)
    } else {
        None
    }
}

/// The first position below `n` at which `word` holds no lowercase letter.
pub open spec fn first_non_letter(word: Seq<char>, n: int) -> Option<int>
    decreases n,
{
    if n <= 0 {
        None
    } else if first_non_letter(word, n - 1) is Some {
        first_non_letter(word, n - 1)
    } else if !is_letter(word[n - 1]) {
        Some(n - 1)
    } else {
        None
    }
}

/// The error that a reported guess is refused with, if it is refused.
///
/// The lengths are looked at first, then the symbols of the pattern, then the letters of
/// the word.
pub open spec fn decode_error(word: Seq<char>, colors: Seq<char>) -> Option<DecodeError> {
    if word.len() < 5 {
        Some(DecodeError::WordTooShort)
    } else if colors.len() < 5 {
        Some(DecodeError::PatternTooShort)
    } else if first_unknown_symbol(colors, 5) is Some {
        Some(DecodeError::UnknownSymbol(first_unknown_symbol(colors, 5).unwrap() as usize))
    } else if first_non_letter(word, 5) is Some {
        Some(DecodeError::NotALetter(first_non_letter(word, 5).unwrap() as usize))
    } else {
        None
    }
}

/// Number of positions below `n` that hold `c` with a colour other than `INCORRECT`.
pub open spec fn credited(
    letters: Seq<char>,
    statuses: Seq<CharacterStatus>,
    c: char,
    n: int,
) -> int
    decreases n,
{
    if n <= 0 {
        0
    } else {
        credited(letters, statuses, c, n - 1) + if letters[n - 1] == c && statuses[n - 1]
            != CharacterStatus::INCORRECT {
            1int
        } else {
            0int
        }
    }
}

/// The colour of the last position below `n` that holds `c`.
pub open spec fn last_status(
    letters: Seq<char>,
    statuses: Seq<CharacterStatus>,
    c: char,
    n: int,
) -> Option<CharacterStatus>
    decreases n,
{
    if n <= 0 {
        None
    } else if letters[n - 1] == c {
        Some(statuses[n - 1])
    } else {
        last_status(letters, statuses, c, n - 1)
    }
}

/// The count entry that reported colours give letter `c`.
///
/// Nothing where the guess does not hold `c`; [`NEVER`] where no copy of it is credited;
/// else the number of credited copies, exact where the last copy is `INCORRECT` and a
/// lower bound where it is not.
pub open spec fn declared_entry(
    letters: Seq<char>,
    statuses: Seq<CharacterStatus>,
    c: char,
) -> int {
    entry_of(credited(letters, statuses, c, 5), last_status(letters, statuses, c, 5))
}

/// The count entry of a letter with `n` credited copies whose last copy has the colour
/// `last`.
pub open spec fn entry_of(n: int, last: Option<CharacterStatus>) -> int {
    match last {
        None => 0,
        Some(colour) => if n == 0 {
            NEVER as int
        } else if colour == CharacterStatus::INCORRECT {
            -n
        } else {
            n
        },
    }
}

/// The feedback that a guess with reported colours stands for.
pub open spec fn declared(letters: Seq<char>, statuses: Seq<CharacterStatus>) -> Feedback {
    Feedback {
        letters: letters.take(5),
        statuses: statuses.take(5),
        counts: Seq::new(26, |a: int| declared_entry(letters, statuses, letter_of(a))),
    }
}

/// A count of credited copies below `n` lies between 0 and `n`.
proof fn lemma_credited_range(letters: Seq<char>, statuses: Seq<CharacterStatus>, c: char, n: int)
    requires
        0 <= n,
    ensures
        0 <= credited(letters, statuses, c, n) <= n,
    decreases n,
{
    if n > 0 {
        lemma_credited_range(letters, statuses, c, n - 1);
    }
}

/// Builds the feedback of a guess from its letters and their reported colours.
pub fn create_guess_result(chars: [(char, CharacterStatus); 5]) -> (r: GuessResult)
    requires
        forall|i: int| 0 <= i < 5 ==> is_letter((#[trigger] chars@[i]).0),
    ensures
        r@ == declared(Seq::new(5, |i: int| chars@[i].0), Seq::new(5, |i: int| chars@[i].1)),
        r@.well_formed(),
{
    let ghost letters = Seq::new(5, |i: int| chars@[i].0);
    let ghost statuses = Seq::new(5, |i: int| chars@[i].1);
    let mut exists: [i8; 26] = [0; 26];
    let mut exists_formatted: [i8; 26] = [0; 26];
    let mut i: usize = 0;
    while i < 5
        invariant
            i <= 5,
            forall|k: int| 0 <= k < 5 ==> is_letter((#[trigger] chars@[k]).0),
            letters == Seq::new(5, |k: int| chars@[k].0),
            statuses == Seq::new(5, |k: int| chars@[k].1),
            forall|a: int|
                0 <= a < 26 ==> #[trigger] exists@[a] == credited(
                    letters,
                    statuses,
                    letter_of(a),
                    i as int,
                ),
        decreases 5 - i,
    {
        proof {
            lemma_letter_round_trip();
            lemma_credited_range(letters, statuses, letters[i as int], i as int);
        }
        let idx = letter_index(chars[i].0);
        if chars[i].1 != CharacterStatus::INCORRECT {
            exists[idx] += 1;
        }
        i += 1;
    }
    i = 0;
    while i < 5
        invariant
            i <= 5,
            forall|k: int| 0 <= k < 5 ==> is_letter((#[trigger] chars@[k]).0),
            letters == Seq::new(5, |k: int| chars@[k].0),
            statuses == Seq::new(5, |k: int| chars@[k].1),
            forall|a: int|
                0 <= a < 26 ==> #[trigger] exists@[a] == credited(
                    letters,
                    statuses,
                    letter_of(a),
                    5,
                ),
            forall|a: int|
                0 <= a < 26 ==> #[trigger] exists_formatted@[a] == entry_of(
                    credited(letters, statuses, letter_of(a), 5),
                    last_status(letters, statuses, letter_of(a), i as int),
                ),
        decreases 5 - i,
    {
        proof {
            lemma_letter_round_trip();
            lemma_credited_range(letters, statuses, letters[i as int], 5);
        }
        let idx = letter_index(chars[i].0);
        if exists[idx] == 0 {
            exists_formatted[idx] = NEVER;
        } else {
            if chars[i].1 == CharacterStatus::INCORRECT {
                exists_formatted[idx] = -exists[idx];
            } else {
                exists_formatted[idx] = exists[idx];
            }
        }
        i += 1;
    }
    let r = GuessResult {
        char_states: [
            CharacterState { character: chars[0].0, status: chars[0].1 },
            CharacterState { character: chars[1].0, status: chars[1].1 },
            CharacterState { character: chars[2].0, status: chars[2].1 },
            CharacterState { character: chars[3].0, status: chars[3].1 },
            CharacterState { character: chars[4].0, status: chars[4].1 },
        ],
        exists: exists_formatted,
    };
    proof {
        assert forall|a: int| 0 <= a < 26 implies -6 <= #[trigger] r@.counts[a] <= 5 by {
            lemma_credited_range(letters, statuses, letter_of(a), 5);
        }
        assert(r@ =~= declared(letters, statuses));
    }
    r
}

/// Decodes a reported guess: the first five characters of `word` are the guessed letters,
/// the first five characters of `colors` their colours.
pub fn gr(word: &str, colors: &str) -> (r: Result<GuessResult, DecodeError>)
    ensures
        match r {
            Ok(g) => decode_error(word@, colors@) is None && g@ == declared(
                word@.take(5),
                statuses_of(colors@),
            ) && g@.well_formed(),
            Err(e) => decode_error(word@, colors@) == Some(e),
        },
{
    if word.unicode_len() < 5 {
        return Err(DecodeError::WordTooShort);
    }
    if colors.unicode_len() < 5 {
        return Err(DecodeError::PatternTooShort);
    }
    let wchars = to_chars(word);
    let cchars = to_chars(colors);
    let mut states: [(char, CharacterStatus); 5] = [('a', CharacterStatus::INCORRECT); 5];
    let mut i: usize = 0;
    while i < 5
        invariant
            i <= 5,
            word@.len() >= 5,
            colors@.len() >= 5,
            wchars@ == word@.take(5),
            cchars@ == colors@.take(5),
            first_unknown_symbol(colors@, i as int) is None,
            forall|k: int| 0 <= k < i ==> (#[trigger] states@[k]).0 == word@[k],
            forall|k: int|
                0 <= k < i ==> status_of_symbol(colors@[k]) == Some((#[trigger] states@[k]).1),
        decreases 5 - i,
    {
        assert(cchars@[i as int] == colors@[i as int]);
        assert(wchars@[i as int] == word@[i as int]);
        let status = if cchars[i] == 'B' {
            CharacterStatus::INCORRECT
        } else if cchars[i] == 'Y' {
            CharacterStatus::EXISTS
        } else if cchars[i] == 'G' {
            CharacterStatus::CORRECT
        } else {
            proof {
                lemma_first_unknown_symbol(colors@, 5, i as int);
            }
            return Err(DecodeError::UnknownSymbol(i));
        };
        states[i] = (wchars[i], status);
        i += 1;
    }
    i = 0;
    while i < 5
        invariant
            i <= 5,
            word@.len() >= 5,
            colors@.len() >= 5,
            first_non_letter(word@, i as int) is None,
            first_unknown_symbol(colors@, 5) is None,
            forall|k: int| 0 <= k < 5 ==> (#[trigger] states@[k]).0 == word@[k],
            forall|k: int| 0 <= k < i ==> is_letter(word@[k]),
        decreases 5 - i,
    {
        let c = states[i].0;
        if !('a' <= c && c <= 'z') {
            proof {
                lemma_first_non_letter(word@, 5, i as int);
            }
            return Err(DecodeError::NotALetter(i));
        }
        i += 1;
    }
    let g = create_guess_result(states);
    proof {
        assert(Seq::new(5, |k: int| states@[k].0) =~= word@.take(5));
        assert(Seq::new(5, |k: int| states@[k].1) =~= statuses_of(colors@));
        assert(declared(word@.take(5), statuses_of(colors@)) =~= declared(
            Seq::new(5, |k: int| states@[k].0),
            Seq::new(5, |k: int| states@[k].1),
        ));
    }
    Ok(g)
}

/// Once a symbol is unknown at `i` and none before it, `i` stays the first such position.
proof fn lemma_first_unknown_symbol(colors: Seq<char>, n: int, i: int)
    requires
        0 <= i < n,
        first_unknown_symbol(colors, i) is None,
        status_of_symbol(colors[i]) is None,
    ensures
        first_unknown_symbol(colors, n) == Some(i),
    decreases n,
{
    if n > i + 1 {
        lemma_first_unknown_symbol(colors, n - 1, i);
    }
}

/// Once a character is no letter at `i` and all before it are, `i` stays the first such
/// position.
proof fn lemma_first_non_letter(word: Seq<char>, n: int, i: int)
    requires
        0 <= i < n,
        first_non_letter(word, i) is None,
        !is_letter(word[i]),
    ensures
        first_non_letter(word, n) == Some(i),
    decreases n,
{
    if n > i + 1 {
        lemma_first_non_letter(word, n - 1, i);
    }
}

} // verus!
