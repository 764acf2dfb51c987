//! How often each word occurs in a corpus.

use vstd::prelude::*;
use std::collections::HashMap;
use crate::word::Word;

verus! {

/// The number that stands for a string of five characters in the table: its characters
/// as the digits of a number in base 2^21, the first one lowest.
pub open spec fn word_code(w: Seq<char>) -> int {
    w[0] as int + 0x20_0000 * (w[1] as int + 0x20_0000 * (w[2] as int + 0x20_0000 * (w[3] as int
        + 0x20_0000 * (w[4] as int))))
}

/// Two strings of five characters with the same code are the same string.
pub proof fn lemma_word_code_injective(v: Seq<char>, w: Seq<char>)
    requires
        v.len() == 5,
        w.len() == 5,
        word_code(v) == word_code(w),
    ensures
        v == w,
{
    let b = 0x20_0000int;
    lemma_char_range(v[0]);
    lemma_char_range(v[1]);
    lemma_char_range(v[2]);
    lemma_char_range(v[3]);
    lemma_char_range(w[0]);
    lemma_char_range(w[1]);
    lemma_char_range(w[2]);
    lemma_char_range(w[3]);
    let v3 = v[3] as int + b * (v[4] as int);
    let w3 = w[3] as int + b * (w[4] as int);
    let v2 = v[2] as int + b * v3;
    let w2 = w[2] as int + b * w3;
    let v1 = v[1] as int + b * v2;
    let w1 = w[1] as int + b * w2;
    assert(v[0] as int + b * v1 == w[0] as int + b * w1);
    lemma_digit(v[0] as int, v1, w[0] as int, w1);
    lemma_digit(v[1] as int, v2, w[1] as int, w2);
    lemma_digit(v[2] as int, v3, w[2] as int, w3);
    lemma_digit(v[3] as int, v[4] as int, w[3] as int, w[4] as int);
    assert(v =~= w);
}

/// The code of a string of five characters is a number below 2^105.
pub proof fn lemma_word_code_range(w: Seq<char>)
    requires
        w.len() == 5,
    ensures
        0 <= word_code(w) < 0x200_0000_0000_0000_0000_0000_0000,
{
    lemma_char_range(w[0]);
    lemma_char_range(w[1]);
    lemma_char_range(w[2]);
    lemma_char_range(w[3]);
    lemma_char_range(w[4]);
}

/// Every character is a number below 2^21.
proof fn lemma_char_range(c: char)
    ensures
        0 <= (c as int) < 0x20_0000,
{
}

/// A number in base 2^21 determines its lowest digit and the rest.
proof fn lemma_digit(d: int, r: int, e: int, s: int)
    requires
        0 <= d < 0x20_0000,
        0 <= e < 0x20_0000,
        d + 0x20_0000 * r == e + 0x20_0000 * s,
    ensures
        d == e,
        r == s,
{
}

/// The number of a character.
fn char_number(c: char) -> (r: u128)
    ensures
        r == c as int,
        r < 0x20_0000,
{
    c as u128
}

/// The code of `word`.
fn code_of(word: &Word) -> (r: u128)
    ensures
        r == word_code(word@),
{
    let c0 = char_number(word[0]);
    let c1 = char_number(word[1]);
    let c2 = char_number(word[2]);
    let c3 = char_number(word[3]);
    let c4 = char_number(word[4]);
    c0 + 0x20_0000 * (c1 + 0x20_0000 * (c2 + 0x20_0000 * (c3 + 0x20_0000 * c4)))
}

/// A table from words to their frequency in a corpus.
pub struct FrequencyTable {
    codes: HashMap<u128, i64>,
}

impl View for FrequencyTable {
    type V = Map<Seq<char>, i64>;

    /// The frequency of each string of five characters that the table holds.
    closed spec fn view(&self) -> Map<Seq<char>, i64> {
        Map::new(
            |w: Seq<char>| w.len() == 5 && self.codes@.contains_key(word_code(w) as u128),
            |w: Seq<char>| self.codes@[word_code(w) as u128],
        )
    }
}

/// The frequency that a table gives a word: the one it holds for it, and 0 for a word
/// that it does not hold.
pub open spec fn frequency_in(table: Map<Seq<char>, i64>, word: Seq<char>) -> i64 {
    if table.contains_key(word) {
        table[word]
    } else {
        0
    }
}

/// The table that rows of a word and a frequency make: a later row replaces an earlier one
/// with the same word.
pub open spec fn table_of(rows: Seq<(Word, i64)>) -> Map<Seq<char>, i64>
    decreases rows.len(),
{
    if rows.len() == 0 {
        Map::empty()
    } else {
        table_of(rows.drop_last()).insert(rows.last().0@, rows.last().1)
    }
}

impl FrequencyTable {
    /// A table that holds no word.
    pub fn new() -> (r: FrequencyTable)
        ensures
            r@ == Map::<Seq<char>, i64>::empty(),
    {
        let r = FrequencyTable { codes: HashMap::new() };
        assert(r@ =~= Map::<Seq<char>, i64>::empty());
        r
    }

    /// Records `frequency` for `word`, in place of what the table held for it.
    pub fn insert(&mut self, word: Word, frequency: i64)
        ensures
            final(self)@ == old(self)@.insert(word@, frequency),
    {
        broadcast use vstd::std_specs::hash::group_hash_axioms;

        let code = code_of(&word);
        self.codes.insert(code, frequency);
        proof {
            assert forall|w: Seq<char>|
                w.len() == 5 implies 0 <= #[trigger] word_code(w) <= u128::MAX
                && (word_code(w) == word_code(word@) ==> w == word@) by {
                lemma_word_code_range(w);
                if word_code(w) == word_code(word@) {
                    lemma_word_code_injective(w, word@);
                }
            }
            assert(self@ =~= old(self)@.insert(word@, frequency));
        }
    }

    /// The frequency of `word`: 0 where the table does not hold it.
    pub fn frequency(&self, word: &Word) -> (r: i64)
        ensures
            r == frequency_in(self@, word@),
    {
        broadcast use vstd::std_specs::hash::group_hash_axioms;

        let code = code_of(word);
        match self.codes.get(&code) {
            Some(f) => *f,
            None => 0,
        }
    }

    /// The table that `rows` make.
    pub fn from_rows(rows: &Vec<(Word, i64)>) -> (r: FrequencyTable)
        ensures
            r@ == table_of(rows@),
    {
        let mut table = FrequencyTable::new();
        let mut k: usize = 0;
        while k < rows.len()
            invariant
                k <= rows.len(),
                table@ == table_of(rows@.take(k as int)),
            decreases rows.len() - k,
        {
            proof {
                assert(rows@.take(k + 1).drop_last() =~= rows@.take(k as int));
            }
            table.insert(rows[k].0, rows[k].1);
            k += 1;
        }
        assert(rows@.take(rows@.len() as int) =~= rows@);
        table
    }
}

} // verus!
