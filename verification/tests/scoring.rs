use wordle::advisor::score_all;
use wordle::scoring::{get_expected_value, Expectation};
use wordle::word::{to_chars, Word};

fn pool_of(words: &[&str]) -> Vec<Word> {
    words.iter().map(|w| to_chars(w)).collect()
}

fn score(guess: &str, pool: &[&str]) -> Expectation {
    get_expected_value(&to_chars(guess), &pool_of(pool))
}

fn value(e: Expectation) -> f64 {
    if e.trials == 0 {
        0.0
    } else {
        e.total as f64 / e.trials as f64
    }
}

const CANDIDATES: [&str; 5] = ["crane", "crate", "trace", "cater", "react"];

const SOLUTIONS: [&str; 120] = [
    "about", "other", "which", "their", "there", "first", "would", "these", "click", "price",
    "state", "email", "world", "music", "after", "video", "where", "books", "links", "years",
    "order", "items", "group", "under", "games", "could", "great", "hotel", "store", "terms",
    "right", "local", "those", "using", "phone", "forum", "based", "black", "check", "index",
    "being", "women", "today", "south", "pages", "found", "house", "photo", "power", "while",
    "three", "total", "place", "think", "north", "posts", "media", "water", "since", "guide",
    "board", "white", "small", "times", "sites", "level", "hours", "image", "title", "shall",
    "class", "still", "money", "every", "visit", "tools", "reply", "value", "press", "learn",
    "print", "stock", "point", "sales", "large", "table", "start", "model", "human", "movie",
    "march", "yahoo", "going", "study", "staff", "again", "april", "never", "users", "topic",
    "below", "party", "login", "legal", "above", "quote", "story", "rates", "young", "field",
    "paper", "girls", "night", "texas", "poker", "issue", "range", "court", "audio", "light",
];

#[test]
fn score_sums_the_candidates_left_for_every_other_solution() {
    assert_eq!(score("crane", &CANDIDATES), Expectation { total: 4, trials: 4 });
    assert_eq!(score("cater", &CANDIDATES), Expectation { total: 6, trials: 4 });
    assert_eq!(score("slate", &CANDIDATES), Expectation { total: 5, trials: 5 });
    assert_eq!(score("zesty", &CANDIDATES), Expectation { total: 7, trials: 5 });
    assert_eq!(score("eerie", &CANDIDATES), Expectation { total: 15, trials: 5 });
    assert_eq!(score("condo", &CANDIDATES), Expectation { total: 9, trials: 5 });
}

#[test]
fn score_of_a_guess_without_other_solutions_is_empty() {
    assert_eq!(score("crane", &["crane"]), Expectation { total: 0, trials: 0 });
    assert_eq!(score("crane", &[]), Expectation { total: 0, trials: 0 });
    assert_eq!(value(score("crane", &[])), 0.0);
}

#[test]
fn copies_of_the_guess_in_the_pool_are_no_trials() {
    assert_eq!(score("crane", &["crane", "crane", "react"]), Expectation { total: 1, trials: 1 });
}

#[test]
fn guess_that_tells_nothing_leaves_the_whole_pool() {
    let e = score("zzzzz", &SOLUTIONS);
    assert_eq!(e, Expectation { total: 14400, trials: 120 });
    assert_eq!(value(e), 120.0);
}

#[test]
fn lower_value_is_below() {
    let a = Expectation { total: 4, trials: 4 };
    let b = Expectation { total: 6, trials: 4 };
    let c = Expectation { total: 5, trials: 5 };
    assert!(a.is_below(&b));
    assert!(!b.is_below(&a));
    assert!(!a.is_below(&c));
    assert!(!c.is_below(&a));
    assert!(!a.is_below(&a));
    assert!(Expectation { total: 7, trials: 5 }.is_below(&Expectation { total: 6, trials: 4 }));
}

#[test]
fn empty_score_has_value_zero() {
    let none = Expectation { total: 0, trials: 0 };
    let odd = Expectation { total: 9, trials: 0 };
    let one = Expectation { total: 1, trials: 1 };
    assert!(none.is_below(&one));
    assert!(odd.is_below(&one));
    assert!(!one.is_below(&none));
    assert!(!none.is_below(&odd));
    assert!(!none.is_below(&Expectation { total: 0, trials: 3 }));
}

#[test]
fn comparison_is_exact_on_large_scores() {
    let a = Expectation { total: u64::MAX - 1, trials: u64::MAX };
    let b = Expectation { total: u64::MAX, trials: u64::MAX };
    let c = Expectation { total: u64::MAX - 2, trials: u64::MAX - 1 };
    assert!(a.is_below(&b));
    assert!(!b.is_below(&a));
    assert!(c.is_below(&a));
    assert!(!a.is_below(&c));
}

#[test]
fn score_all_scores_each_guess_in_order() {
    let guesses = pool_of(&["cater", "crane", "slate"]);
    let records = score_all(&guesses, &pool_of(&CANDIDATES));
    assert_eq!(records.len(), 3);
    assert_eq!(records[0].word, to_chars("cater"));
    assert_eq!(records[0].score, Expectation { total: 6, trials: 4 });
    assert_eq!(records[1].word, to_chars("crane"));
    assert_eq!(records[1].score, Expectation { total: 4, trials: 4 });
    assert_eq!(records[2].word, to_chars("slate"));
    assert_eq!(records[2].score, Expectation { total: 5, trials: 5 });
}

#[test]
fn common_letters_open_better_than_rare_repeated_ones() {
    let crane = score("crane", &SOLUTIONS);
    assert_eq!(crane, Expectation { total: 634, trials: 120 });
    for (rare, total) in [("qajaq", 6825), ("xylyl", 6376), ("jazzy", 6128), ("fuzzy", 7644)] {
        let other = score(rare, &SOLUTIONS);
        assert_eq!(other, Expectation { total, trials: 120 });
        assert!(crane.is_below(&other));
        assert!(value(crane) < value(other));
    }
}
