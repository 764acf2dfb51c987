//! Decision support for a puzzle in which a secret five-letter word is guessed: each
//! guess is answered with a colour per letter, and the library says which words are
//! still possible and which guess is expected to leave the fewest of them.
//!
//! - [`word`]: words, letters and the counting functions of the rules.
//! - [`feedback`]: the answer that a solution gives to a guess.
//! - [`constraint`]: which words an answer admits, and the filtering of a pool by it.
//! - [`pattern`]: answers as a player reports them.
//! - [`laws`]: what holds between the three.
//! - [`scoring`]: the expected number of candidates that a guess leaves.
//! - [`frequency`]: how common each word is.
//! - [`ranking`]: the ranked list of scored guesses.
//! - [`advisor`]: one whole round, from the history of a game to the ranked list.
//! - [`pool`]: the bookkeeping of a coordinator that hands the scoring out to workers.
//! - [`loading`]: the text formats of the word lists and of the frequency table.
//!
//! Scores are exact fractions. Every function is verified against its contract; what
//! is assumed of the standard library is said where it is assumed.

pub mod word;
pub mod feedback;
pub mod constraint;
pub mod pattern;
pub mod laws;
pub mod scoring;
pub mod frequency;
pub mod ranking;
pub mod advisor;
pub mod pool;
pub mod loading;
