use wordle::frequency::FrequencyTable;
use wordle::ranking::{rank, ScoreRecord};
use wordle::scoring::Expectation;
use wordle::word::{to_chars, to_string, Word};

fn pool_of(words: &[&str]) -> Vec<Word> {
    words.iter().map(|w| to_chars(w)).collect()
}

fn record(word: &str, total: u64, trials: u64) -> ScoreRecord {
    ScoreRecord { word: to_chars(word), score: Expectation { total, trials } }
}

fn table_of(rows: &[(&str, i64)]) -> FrequencyTable {
    let mut table = FrequencyTable::new();
    for (w, f) in rows {
        table.insert(to_chars(w), *f);
    }
    table
}

fn ranked(records: &[ScoreRecord], possible: &[&str], rows: &[(&str, i64)]) -> Vec<String> {
    rank(&records.to_vec(), &pool_of(possible), &table_of(rows))
        .iter()
        .map(|r| to_string(r.word))
        .collect()
}

#[test]
fn lower_score_comes_first() {
    let records = [record("cater", 6, 4), record("crane", 4, 4), record("zesty", 7, 5)];
    assert_eq!(ranked(&records, &[], &[]), vec!["crane", "zesty", "cater"]);
}

#[test]
fn possible_solution_wins_a_tie() {
    let records = [record("slate", 5, 5), record("crane", 4, 4), record("react", 1, 1)];
    assert_eq!(ranked(&records, &["crane"], &[]), vec!["crane", "slate", "react"]);
    assert_eq!(ranked(&records, &["react", "crane"], &[]), vec!["crane", "react", "slate"]);
}

#[test]
fn higher_frequency_wins_a_remaining_tie() {
    let records = [record("slate", 5, 5), record("crane", 4, 4), record("react", 1, 1)];
    let rows = [("slate", 10), ("crane", 30), ("react", 20)];
    assert_eq!(ranked(&records, &[], &rows), vec!["crane", "react", "slate"]);
    assert_eq!(ranked(&records, &["slate"], &rows), vec!["slate", "crane", "react"]);
}

#[test]
fn word_without_frequency_counts_as_zero() {
    let records = [record("slate", 2, 2), record("crane", 2, 2), record("react", 2, 2)];
    assert_eq!(ranked(&records, &[], &[("react", 1)]), vec!["react", "slate", "crane"]);
    assert_eq!(ranked(&records, &[], &[("slate", -1)]), vec!["crane", "react", "slate"]);
}

#[test]
fn tie_break_applies_on_equal_scores_only() {
    let records = [record("slate", 3, 2), record("crane", 7, 5)];
    let rows = [("slate", 1000)];
    assert_eq!(ranked(&records, &["slate"], &rows), vec!["crane", "slate"]);
}

#[test]
fn full_ties_keep_their_order() {
    let records = [
        record("trace", 1, 1),
        record("crate", 3, 3),
        record("react", 2, 2),
        record("cater", 1, 1),
    ];
    assert_eq!(ranked(&records, &[], &[]), vec!["trace", "crate", "react", "cater"]);
    let possible = ["trace", "crate", "react", "cater"];
    assert_eq!(ranked(&records, &possible, &[]), vec!["trace", "crate", "react", "cater"]);
}

#[test]
fn ranking_keeps_every_record() {
    let records = [
        record("trace", 9, 4),
        record("crate", 2, 4),
        record("trace", 9, 4),
        record("cater", 0, 0),
        record("react", 5, 4),
    ];
    let out = rank(&records.to_vec(), &vec![], &FrequencyTable::new());
    let words: Vec<String> = out.iter().map(|r| to_string(r.word)).collect();
    assert_eq!(words, vec!["cater", "crate", "react", "trace", "trace"]);
    assert_eq!(out[0].score, Expectation { total: 0, trials: 0 });
    assert_eq!(out[1].score, Expectation { total: 2, trials: 4 });
    assert_eq!(out[4].score, Expectation { total: 9, trials: 4 });
}

#[test]
fn ranking_nothing_gives_nothing() {
    assert_eq!(ranked(&[], &["crane"], &[("crane", 1)]), Vec::<String>::new());
}
