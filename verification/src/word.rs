//! Words, letters, and the counting functions that the feedback rules are stated with.

use vstd::prelude::*;

verus! {

/// A word of the puzzle: five characters, lowercase letters wherever a rule reads them.
pub type Word = [char; 5];

/// Whether `c` is one of the lowercase letters `a` to `z`.
pub open spec fn is_letter(c: char) -> bool {
    'a' <= c <= 'z'
}

/// Position of a letter in the alphabet, `a` being 0.
pub open spec fn letter_at(c: char) -> int {
    c as int - 97
}

/// The letter at position `a` of the alphabet.
pub open spec fn letter_of(a: int) -> char {
    (a + 97) as char
}

/// Whether `w` is a word: exactly five lowercase letters.
pub open spec fn is_word(w: Seq<char>) -> bool {
    &&& w.len() == 5
    &&& forall|i: int| 0 <= i < 5 ==> is_letter(#[trigger] w[i])
}

/// Whether every entry of `pool` is a word.
pub open spec fn all_words(pool: Seq<Word>) -> bool {
    forall|k: int| 0 <= k < pool.len() ==> is_word(#[trigger] pool[k]@)
}

/// Number of positions below `n` at which `w` holds `c`.
pub open spec fn occurrences_below(w: Seq<char>, c: char, n: int) -> int
    decreases n,
{
    if n <= 0 {
        0
    } else {
        occurrences_below(w, c, n - 1) + if w[n - 1] == c {
            1int
        } else {
            0int
        }
    }
}

/// Number of times `c` occurs in the five-letter word `w`.
pub open spec fn occurrences(w: Seq<char>, c: char) -> int {
    occurrences_below(w, c, 5)
}

/// Number of positions below `n` at which `a` holds `c` and `b` does not.
pub open spec fn mismatched(a: Seq<char>, b: Seq<char>, c: char, n: int) -> int
    decreases n,
{
    if n <= 0 {
        0
    } else {
        mismatched(a, b, c, n - 1) + if a[n - 1] == c && b[n - 1] != c {
            1int
        } else {
            0int
        }
    }
}

/// Number of positions below `n` at which both `a` and `b` hold `c`.
pub open spec fn in_place(a: Seq<char>, b: Seq<char>, c: char, n: int) -> int
    decreases n,
{
    if n <= 0 {
        0
    } else {
        in_place(a, b, c, n - 1) + if a[n - 1] == c && b[n - 1] == c {
            1int
        } else {
            0int
        }
    }
}

/// A count over the positions below `n` lies between 0 and `n`, and grows with `n` by at
/// most one for each position.
pub proof fn lemma_mismatched_range(a: Seq<char>, b: Seq<char>, c: char, n: int, m: int)
    requires
        0 <= n <= m,
    ensures
        0 <= mismatched(a, b, c, n) <= n,
        mismatched(a, b, c, n) <= mismatched(a, b, c, m) <= mismatched(a, b, c, n) + (m - n),
    decreases m,
{
    if n < m {
        lemma_mismatched_range(a, b, c, n, m - 1);
    } else if n > 0 {
        lemma_mismatched_range(a, b, c, n - 1, n - 1);
    }
}

/// The number of copies of a letter below `n` lies between 0 and `n`, and grows with `n`
/// by at most one for each position.
pub proof fn lemma_occurrences_range(w: Seq<char>, c: char, n: int, m: int)
    requires
        0 <= n <= m,
    ensures
        0 <= occurrences_below(w, c, n) <= n,
        occurrences_below(w, c, n) <= occurrences_below(w, c, m),
        occurrences_below(w, c, m) <= occurrences_below(w, c, n) + (m - n),
    decreases m,
{
    if n < m {
        lemma_occurrences_range(w, c, n, m - 1);
    } else if n > 0 {
        lemma_occurrences_range(w, c, n - 1, n - 1);
    }
}

/// The alphabet positions and the letters correspond one to one.
pub proof fn lemma_letter_round_trip()
    ensures
        forall|a: int|
            0 <= a < 26 ==> is_letter(#[trigger] letter_of(a)) && letter_at(letter_of(a)) == a,
        forall|c: char|
            is_letter(c) ==> 0 <= #[trigger] letter_at(c) < 26 && letter_of(letter_at(c)) == c,
{
}

/// Position of the lowercase letter `c` in the alphabet.
pub fn letter_index(c: char) -> (r: usize)
    requires
        is_letter(c),
    ensures
        r == letter_at(c),
        r < 26,
{
    (c as usize) - 97
}

/// Whether `w` consists of lowercase letters only.
pub fn check_word(w: &Word) -> (r: bool)
    ensures
        r == is_word(w@),
{
    let mut i: usize = 0;
    while i < 5
        invariant
            i <= 5,
            forall|k: int| 0 <= k < i ==> is_letter(#[trigger] w@[k]),
        decreases 5 - i,
    {
        let c = w[i];
        if !('a' <= c && c <= 'z') {
            return false;
        }
        i += 1;
    }
    true
}

/// Whether every entry of `words` consists of lowercase letters only.
pub fn check_words(words: &Vec<Word>) -> (r: bool)
    ensures
        r == all_words(words@),
{
    let mut k: usize = 0;
    while k < words.len()
        invariant
            k <= words.len(),
            forall|j: int| 0 <= j < k ==> is_word(#[trigger] words@[j]@),
        decreases words.len() - k,
    {
        if !check_word(&words[k]) {
            return false;
        }
        k += 1;
    }
    true
}

/// Whether `a` and `b` are the same word.
pub fn same_word(a: &Word, b: &Word) -> (r: bool)
    ensures
        r == (a@ == b@),
{
    let mut i: usize = 0;
    while i < 5
        invariant
            i <= 5,
            forall|k: int| 0 <= k < i ==> a@[k] == b@[k],
        decreases 5 - i,
    {
        if a[i] != b[i] {
            return false;
        }
        i += 1;
    }
    assert(a@ =~= b@);
    true
}

/// Whether `pool` holds the word `w`.
pub open spec fn holds_word(pool: Seq<Word>, w: Seq<char>) -> bool {
    exists|k: int| 0 <= k < pool.len() && #[trigger] pool[k]@ == w
}

/// Whether `w` occurs in `words`.
pub fn contains_word(words: &Vec<Word>, w: &Word) -> (r: bool)
    ensures
        r == holds_word(words@, w@),
{
    let mut k: usize = 0;
    while k < words.len()
        invariant
            k <= words.len(),
            forall|j: int| 0 <= j < k ==> #[trigger] words@[j]@ != w@,
        decreases words.len() - k,
    {
        if same_word(&words[k], w) {
            return true;
        }
        k += 1;
    }
    false
}

/// The first five characters of `x`.
pub fn to_chars(x: &str) -> (r: Word)
    requires
        x@.len() >= 5,
    ensures
        r@ == x@.take(5),
{
    let mut it = x.chars();
    let c0 = it.next().unwrap();
    let c1 = it.next().unwrap();
    let c2 = it.next().unwrap();
    let c3 = it.next().unwrap();
    let c4 = it.next().unwrap();
    let r = [c0, c1, c2, c3, c4];
    assert(r@ =~= x@.take(5));
    r
}

/// Assumed of `String::push` in the standard library, and not proved here: it appends
/// the character to the end of the string and leaves the characters before it as they
/// were.
pub assume_specification[ String::push ](s: &mut String, c: char)
    ensures
        final(s)@ == old(s)@.push(c),
;

/// The string made of the five characters of `chars`.
pub fn to_string(chars: Word) -> (r: String)
    ensures
        r@ == chars@,
{
    let mut r = String::new();
    let mut i: usize = 0;
    while i < 5
        invariant
            i <= 5,
            r@ == chars@.take(i as int),
        decreases 5 - i,
    {
        r.push(chars[i]);
        assert(chars@.take(i + 1) =~= chars@.take(i as int).push(chars@[i as int]));
        i += 1;
    }
    assert(chars@.take(5) =~= chars@);
    r
}

} // verus!
