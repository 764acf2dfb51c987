//! The score of a guess: how many candidates it is expected to leave.

use vstd::prelude::*;
use crate::word::{all_words, is_word, same_word, Word};
use crate::feedback::{feedback, get_states};
use crate::constraint::{survivors, total_valid_words};

verus! {

/// The score of a guess as an exact fraction: `total` candidates left over `trials`
/// simulated solutions. Its value is `total / trials`, and 0 where `trials` is 0.
#[derive(Copy, Clone, Debug, PartialEq, Eq, Structural)]
pub struct Expectation {
    /// Sum, over the simulated solutions, of the number of candidates left.
    pub total: u64,
    /// Number of simulated solutions.
    pub trials: u64,
}

impl Expectation {
    /// The numerator of the score's value.
    pub open spec fn numerator(self) -> int {
        if self.trials == 0 {
            0
        } else {
            self.total as int
        }
    }

    /// The denominator of the score's value, which is positive.
    pub open spec fn denominator(self) -> int {
        if self.trials == 0 {
            1
        } else {
            self.trials as int
        }
    }

    /// Whether the value of `self` is less than the value of `other`.
    pub open spec fn below(self, other: Expectation) -> bool {
        self.numerator() * other.denominator() < other.numerator() * self.denominator()
    }

    /// Whether the value of `self` is less than the value of `other`: whether `self` is
    /// the better score.
    pub fn is_below(&self, other: &Expectation) -> (r: bool)
        ensures
            r == self.below(*other),
    {
        let (sn, sd) = if self.trials == 0 {
            (0u64, 1u64)
        } else {
            (self.total, self.trials)
        };
        let (on, od) = if other.trials == 0 {
            (0u64, 1u64)
        } else {
            (other.total, other.trials)
        };
        proof {
            lemma_product_fits(sn, od);
            lemma_product_fits(on, sd);
        }
        (sn as u128) * (od as u128) < (on as u128) * (sd as u128)
    }
}

/// The product of two 64-bit numbers fits 128 bits.
proof fn lemma_product_fits(a: u64, b: u64)
    ensures
        a * b <= u128::MAX,
{
    assert(a * b <= 0xffff_ffff_ffff_ffff * 0xffff_ffff_ffff_ffff) by (nonlinear_arith)
        requires
            0 <= a <= 0xffff_ffff_ffff_ffff,
            0 <= b <= 0xffff_ffff_ffff_ffff,
    ;
}

/// No score is below itself, and of two scores at most one is below the other.
pub proof fn lemma_below_asymmetric(a: Expectation, b: Expectation)
    ensures
        !(a.below(b) && b.below(a)),
        !a.below(a),
{
}

/// A score that is below another is below every third score, or that one is below the
/// other: scores that are not below one another share a value.
pub proof fn lemma_below_cotransitive(a: Expectation, b: Expectation, c: Expectation)
    requires
        a.below(c),
    ensures
        a.below(b) || b.below(c),
{
    let (an, ad) = (a.numerator(), a.denominator());
    let (bn, bd) = (b.numerator(), b.denominator());
    let (cn, cd) = (c.numerator(), c.denominator());
    assert(an * bd < bn * ad || bn * cd < cn * bd) by (nonlinear_arith)
        requires
            an * cd < cn * ad,
            ad > 0,
            bd > 0,
            cd > 0,
            an >= 0,
            bn >= 0,
            cn >= 0,
    {
        if an * bd >= bn * ad && bn * cd >= cn * bd {
            assert((an * bd) * cd >= (bn * ad) * cd);
            assert((bn * cd) * ad >= (cn * bd) * ad);
            assert((an * cd) * bd >= (cn * ad) * bd);
            assert(an * cd >= cn * ad);
        }
    }
}

/// Number of words of `pool` that would be left if `solution` were the answer and `guess`
/// were played.
pub open spec fn remaining(pool: Seq<Word>, guess: Seq<char>, solution: Seq<char>) -> nat {
    survivors(pool, feedback(guess, solution)).len()
}

/// Number of the first `n` words of `pool` that differ from `guess`.
pub open spec fn trials_below(pool: Seq<Word>, guess: Seq<char>, n: int) -> int
    decreases n,
{
    if n <= 0 {
        0
    } else {
        trials_below(pool, guess, n - 1) + if pool[n - 1]@ != guess {
            1int
        } else {
            0int
        }
    }
}

/// Sum of [`remaining`] over those of the first `n` words of `pool`, taken as the
/// solution, that differ from `guess`.
pub open spec fn total_below(pool: Seq<Word>, guess: Seq<char>, n: int) -> int
    decreases n,
{
    if n <= 0 {
        0
    } else {
        total_below(pool, guess, n - 1) + if pool[n - 1]@ != guess {
            remaining(pool, guess, pool[n - 1]@) as int
        } else {
            0int
        }
    }
}

/// Largest pool for which the sum of a score fits its field.
pub const MAX_POOL: usize = 0xffff_ffff;

/// Scores `guess` against `words`: every word of the pool other than the guess is taken
/// as the solution in turn, and the candidates that its feedback would leave are counted.
pub fn get_expected_value(guess: &Word, words: &Vec<Word>) -> (r: Expectation)
    requires
        is_word(guess@),
        all_words(words@),
        words@.len() <= MAX_POOL,
    ensures
        r.trials == trials_below(words@, guess@, words@.len() as int),
        r.total == total_below(words@, guess@, words@.len() as int),
        r.trials <= words@.len(),
        r.total <= r.trials * words@.len(),
{
    let n = words.len();
    let mut total: u64 = 0;
    let mut trials: u64 = 0;
    let mut k: usize = 0;
    while k < n
        invariant
            k <= n,
            n == words@.len(),
            n <= MAX_POOL,
            is_word(guess@),
            all_words(words@),
            trials == trials_below(words@, guess@, k as int),
            total == total_below(words@, guess@, k as int),
            trials <= k,
            total <= trials * n,
        decreases n - k,
    {
        if !same_word(guess, &words[k]) {
            let result = get_states(guess, &words[k]);
            let value = total_valid_words(words, result);
            proof {
                assert(total + value <= (trials + 1) * n) by (nonlinear_arith)
                    requires
                        total <= trials * n,
                        value <= n,
                ;
                assert((trials + 1) * n <= 0xffff_ffff * 0xffff_ffff) by (nonlinear_arith)
                    requires
                        trials + 1 <= n,
                        n <= 0xffff_ffff,
                ;
            }
            trials += 1;
            total += value as u64;
        }
        k += 1;
    }
    Expectation { total, trials }
}

} // verus!
