//! The ranked list of scored guesses.

use vstd::prelude::*;
use crate::word::{contains_word, holds_word, Word};
use crate::scoring::{lemma_below_asymmetric, lemma_below_cotransitive, Expectation};
use crate::frequency::{frequency_in, FrequencyTable};

verus! {

/// A guess and its score.
#[derive(Copy, Clone, Debug)]
pub struct ScoreRecord {
    pub word: Word,
    pub score: Expectation,
}

/// What a guess is ranked by.
pub struct Standing {
    /// The score of the guess.
    pub score: Expectation,
    /// Whether the guess is itself a possible solution.
    pub possible: bool,
    /// The frequency of the guess in the corpus.
    pub frequency: int,
}

/// Whether a guess with standing `a` is preferred to one with standing `b`: by the lower
/// score; on equal scores, the one that is a possible solution; among those, by the
/// higher frequency.
pub open spec fn preferred(a: Standing, b: Standing) -> bool {
    ||| a.score.below(b.score)
    ||| !b.score.below(a.score) && a.possible && !b.possible
    ||| !b.score.below(a.score) && a.possible == b.possible && a.frequency > b.frequency
}

/// The standing of `record` among the possible solutions `possible` and the frequencies
/// `table`.
pub open spec fn standing(
    record: ScoreRecord,
    possible: Seq<Word>,
    table: Map<Seq<char>, i64>,
) -> Standing {
    Standing {
        score: record.score,
        possible: holds_word(possible, record.word@),
        frequency: frequency_in(table, record.word@) as int,
    }
}

/// Whether entry `x` of `keys` goes before entry `y` in the ranked list: the preferred
/// one first, and of two that are not preferred to one another the one that came first.
pub open spec fn goes_before(keys: Seq<Standing>, x: int, y: int) -> bool {
    preferred(keys[x], keys[y]) || (!preferred(keys[y], keys[x]) && x < y)
}

/// Whether `order` lists positions of `keys` in ranked order: every position that it
/// lists goes before all those that it lists later.
pub open spec fn is_ranking(order: Seq<int>, keys: Seq<Standing>) -> bool {
    &&& forall|i: int| 0 <= i < order.len() ==> 0 <= #[trigger] order[i] < keys.len()
    &&& forall|i: int, j: int|
        0 <= i < j < order.len() ==> goes_before(keys, #[trigger] order[i], #[trigger] order[j])
}

/// No standing is preferred to itself, and of two at most one is preferred to the other.
pub proof fn lemma_preferred_asymmetric(a: Standing, b: Standing)
    ensures
        !(preferred(a, b) && preferred(b, a)),
        !preferred(a, a),
{
    lemma_below_asymmetric(a.score, b.score);
    lemma_below_asymmetric(a.score, a.score);
}

/// A standing that is preferred to another is preferred to every third one, or that one
/// is preferred to the other.
pub proof fn lemma_preferred_cotransitive(a: Standing, b: Standing, c: Standing)
    requires
        preferred(a, c),
    ensures
        preferred(a, b) || preferred(b, c),
{
    lemma_below_asymmetric(a.score, b.score);
    lemma_below_asymmetric(b.score, c.score);
    lemma_below_asymmetric(a.score, c.score);
    if a.score.below(c.score) {
        lemma_below_cotransitive(a.score, b.score, c.score);
    }
    if b.score.below(a.score) {
        lemma_below_cotransitive(b.score, c.score, a.score);
    }
    if c.score.below(b.score) {
        lemma_below_cotransitive(c.score, a.score, b.score);
    }
}

/// Of two different entries, one goes before the other, and never both.
pub proof fn lemma_goes_before_total(keys: Seq<Standing>, x: int, y: int)
    ensures
        x != y ==> (goes_before(keys, x, y) <==> !goes_before(keys, y, x)),
        !goes_before(keys, x, x),
{
    lemma_preferred_asymmetric(keys[x], keys[y]);
    lemma_preferred_asymmetric(keys[x], keys[x]);
}

/// A ranking of all entries lists every entry exactly once.
pub proof fn lemma_ranking_lists_each_once(order: Seq<int>, keys: Seq<Standing>)
    requires
        is_ranking(order, keys),
        order.len() == keys.len(),
    ensures
        order.no_duplicates(),
        forall|x: int| 0 <= x < keys.len() ==> order.contains(x),
{
    let n = keys.len() as int;
    assert forall|i: int, j: int|
        0 <= i < order.len() && 0 <= j < order.len() && i != j implies order[i]
        != order[j] by {
        lemma_goes_before_total(keys, order[i], order[i]);
        if i < j {
            assert(goes_before(keys, order[i], order[j]));
        } else {
            assert(goes_before(keys, order[j], order[i]));
        }
    }
    order.unique_seq_to_set();
    vstd::set_lib::lemma_int_range(0, n);
    let all = vstd::set_lib::set_int_range(0, n);
    assert(order.to_set().subset_of(all)) by {
        assert forall|x: int| order.to_set().contains(x) implies all.contains(x) by {
            let i = choose|i: int| 0 <= i < order.len() && order[i] == x;
            assert(0 <= order[i] < n);
        }
    }
    vstd::seq_lib::seq_to_set_is_finite(order);
    vstd::set_lib::lemma_subset_equality(order.to_set(), all);
    assert forall|x: int| 0 <= x < n implies order.contains(x) by {
        assert(all.contains(x));
        assert(order.to_set().contains(x));
    }
}

/// Two rankings of the same entries agree on the positions below `n`.
proof fn lemma_rankings_agree(a: Seq<int>, b: Seq<int>, keys: Seq<Standing>, n: int)
    requires
        is_ranking(a, keys),
        is_ranking(b, keys),
        a.len() == keys.len(),
        b.len() == keys.len(),
        0 <= n <= keys.len(),
    ensures
        forall|i: int| 0 <= i < n ==> a[i] == b[i],
    decreases n,
{
    if n > 0 {
        lemma_rankings_agree(a, b, keys, n - 1);
        let i = n - 1;
        let x = a[i];
        let y = b[i];
        if x != y {
            lemma_ranking_lists_each_once(a, keys);
            lemma_ranking_lists_each_once(b, keys);
            assert(0 <= x < keys.len());
            assert(0 <= y < keys.len());
            assert(a.contains(y));
            assert(b.contains(x));
            let ja = choose|j: int| 0 <= j < a.len() && a[j] == y;
            let jb = choose|j: int| 0 <= j < b.len() && b[j] == x;
            if ja < i {
                assert(b[ja] == a[ja]);
                assert(b[ja] == b[i]);
            }
            if jb < i {
                assert(a[jb] == b[jb]);
                assert(a[jb] == a[i]);
            }
            assert(goes_before(keys, a[i], a[ja]));
            assert(goes_before(keys, b[i], b[jb]));
            lemma_goes_before_total(keys, x, y);
        }
    }
}

/// There is one ranking of given entries and no other.
pub proof fn lemma_ranking_is_unique(a: Seq<int>, b: Seq<int>, keys: Seq<Standing>)
    requires
        is_ranking(a, keys),
        is_ranking(b, keys),
        a.len() == keys.len(),
        b.len() == keys.len(),
    ensures
        a == b,
{
    lemma_rankings_agree(a, b, keys, keys.len() as int);
    assert(a =~= b);
}

/// A scored guess together with what it is ranked by.
struct Entry {
    record: ScoreRecord,
    possible: bool,
    frequency: i64,
}

impl Entry {
    spec fn standing(self) -> Standing {
        Standing {
            score: self.record.score,
            possible: self.possible,
            frequency: self.frequency as int,
        }
    }

    /// Whether `self` is preferred to `other`.
    fn is_preferred(&self, other: &Entry) -> (r: bool)
        ensures
            r == preferred(self.standing(), other.standing()),
    {
        if self.record.score.is_below(&other.record.score) {
            true
        } else if other.record.score.is_below(&self.record.score) {
            false
        } else if self.possible != other.possible {
            self.possible
        } else {
            self.frequency > other.frequency
        }
    }
}

/// The standings of `records`, in their order.
pub open spec fn standings(
    records: Seq<ScoreRecord>,
    possible: Seq<Word>,
    table: Map<Seq<char>, i64>,
) -> Seq<Standing> {
    Seq::new(records.len(), |k: int| standing(records[k], possible, table))
}

/// Whether `ranked` holds the records of `records` in ranked order.
pub open spec fn is_ranked(
    ranked: Seq<ScoreRecord>,
    records: Seq<ScoreRecord>,
    possible: Seq<Word>,
    table: Map<Seq<char>, i64>,
) -> bool {
    exists|order: Seq<int>|
        {
            &&& order.len() == records.len()
            &&& ranked.len() == records.len()
            &&& #[trigger] is_ranking(order, standings(records, possible, table))
            &&& forall|i: int| 0 <= i < ranked.len() ==> ranked[i] == records[order[i]]
        }
}

/// Given records have one ranked order and no other.
pub proof fn lemma_ranked_is_unique(
    first: Seq<ScoreRecord>,
    second: Seq<ScoreRecord>,
    records: Seq<ScoreRecord>,
    possible: Seq<Word>,
    table: Map<Seq<char>, i64>,
)
    requires
        is_ranked(first, records, possible, table),
        is_ranked(second, records, possible, table),
    ensures
        first == second,
{
    let keys = standings(records, possible, table);
    let a = choose|order: Seq<int>|
        {
            &&& order.len() == records.len()
            &&& first.len() == records.len()
            &&& #[trigger] is_ranking(order, keys)
            &&& forall|i: int| 0 <= i < first.len() ==> first[i] == records[order[i]]
        };
    let b = choose|order: Seq<int>|
        {
            &&& order.len() == records.len()
            &&& second.len() == records.len()
            &&& #[trigger] is_ranking(order, keys)
            &&& forall|i: int| 0 <= i < second.len() ==> second[i] == records[order[i]]
        };
    lemma_ranking_is_unique(a, b, keys);
    assert(first =~= second);
}

/// Ranks the scored guesses, the best first: by the lower score; on equal scores a guess
/// that is a possible solution first; among those, by the higher frequency. Guesses that
/// none of this tells apart keep the order in which they came.
pub fn rank(
    records: &Vec<ScoreRecord>,
    possible_words: &Vec<Word>,
    frequencies: &FrequencyTable,
) -> (ranked: Vec<ScoreRecord>)
    ensures
        ranked@.len() == records@.len(),
        is_ranked(ranked@, records@, possible_words@, frequencies@),
{
    let ghost keys = standings(records@, possible_words@, frequencies@);
    let ghost mut order: Seq<int> = Seq::empty();
    let mut sorted: Vec<Entry> = Vec::new();
    let mut k: usize = 0;
    while k < records.len()
        invariant
            k <= records.len(),
            keys == standings(records@, possible_words@, frequencies@),
            sorted@.len() == k,
            order.len() == k,
            forall|i: int| 0 <= i < k ==> 0 <= #[trigger] order[i] < k,
            forall|i: int| 0 <= i < k ==> (#[trigger] sorted@[i]).record == records@[order[i]],
            forall|i: int| 0 <= i < k ==> (#[trigger] sorted@[i]).standing() == keys[order[i]],
            forall|i: int, j: int|
                0 <= i < j < k ==> goes_before(keys, #[trigger] order[i], #[trigger] order[j]),
        decreases records.len() - k,
    {
        let record = records[k];
        let entry = Entry {
            record,
            possible: contains_word(possible_words, &record.word),
            frequency: frequencies.frequency(&record.word),
        };
        assert(entry.standing() == keys[k as int]);
        let mut p: usize = 0;
        while p < sorted.len() && !entry.is_preferred(&sorted[p])
            invariant
                p <= sorted@.len(),
                forall|i: int|
                    0 <= i < p ==> !preferred(entry.standing(), (#[trigger] sorted@[i]).standing()),
            decreases sorted@.len() - p,
        {
            p += 1;
        }
        let ghost before = order;
        proof {
            assert forall|j: int|
                p <= j < k implies preferred(keys[k as int], keys[#[trigger] before[j]]) by {
                assert(sorted@[p as int].standing() == keys[before[p as int]]);
                assert(sorted@[j].standing() == keys[before[j]]);
                if j > p {
                    assert(goes_before(keys, before[p as int], before[j]));
                    lemma_preferred_asymmetric(keys[before[p as int]], keys[before[j]]);
                    lemma_preferred_cotransitive(
                        keys[k as int],
                        keys[before[j]],
                        keys[before[p as int]],
                    );
                }
            }
            assert forall|i: int|
                0 <= i < p implies !preferred(keys[k as int], keys[#[trigger] before[i]]) by {
                assert(sorted@[i].standing() == keys[before[i]]);
            }
            order = before.insert(p as int, k as int);
        }
        sorted.insert(p, entry);
        proof {
            assert forall|i: int, j: int| 0 <= i < j < k + 1 implies goes_before(
                keys,
                #[trigger] order[i],
                #[trigger] order[j],
            ) by {
                if i == p {
                    assert(order[j] == before[j - 1]);
                } else if j == p {
                    assert(order[i] == before[i]);
                } else {
                    let bi = if i < p { i } else { i - 1 };
                    let bj = if j < p { j } else { j - 1 };
                    assert(order[i] == before[bi]);
                    assert(order[j] == before[bj]);
                    assert(goes_before(keys, before[bi], before[bj]));
                }
            }
        }
        k += 1;
    }
    let mut ranked: Vec<ScoreRecord> = Vec::new();
    let mut i: usize = 0;
    while i < sorted.len()
        invariant
            i <= sorted@.len(),
            sorted@.len() == records@.len(),
            order.len() == records@.len(),
            ranked@.len() == i,
            forall|j: int|
                0 <= j < sorted@.len() ==> (#[trigger] sorted@[j]).record == records@[order[j]],
            forall|j: int| 0 <= j < i ==> #[trigger] ranked@[j] == records@[order[j]],
        decreases sorted@.len() - i,
    {
        ranked.push(sorted[i].record);
        i += 1;
    }
    proof {
        assert(is_ranking(order, keys));
    }
    ranked
}

} // verus!
