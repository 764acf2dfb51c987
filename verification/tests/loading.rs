use wordle::loading::{parse_frequencies, parse_words, ParseError};
use wordle::word::{to_chars, to_string, Word};

fn spelled(words: &[Word]) -> Vec<String> {
    words.iter().map(|w| to_string(*w)).collect()
}

fn rows(text: &str) -> Vec<(String, i64)> {
    parse_frequencies(text).unwrap().iter().map(|(w, f)| (to_string(*w), *f)).collect()
}

fn row(word: &str, frequency: i64) -> (String, i64) {
    (word.to_string(), frequency)
}

#[test]
fn word_list_holds_one_word_per_line() {
    assert_eq!(spelled(&parse_words("crane\nreact\ntrace\n")), vec!["crane", "react", "trace"]);
    assert_eq!(spelled(&parse_words("crane\nreact")), vec!["crane", "react"]);
    assert_eq!(spelled(&parse_words("crane")), vec!["crane"]);
}

#[test]
fn lines_of_another_length_are_passed_over() {
    let text = "crane\n\ncran\ncranes\n react\nreact \ntrace\n\n";
    assert_eq!(spelled(&parse_words(text)), vec!["crane", "trace"]);
    assert_eq!(spelled(&parse_words("")), Vec::<String>::new());
    assert_eq!(spelled(&parse_words("\n\n\n")), Vec::<String>::new());
    assert_eq!(spelled(&parse_words("crane\r\nreact\r\n")), Vec::<String>::new());
}

#[test]
fn length_is_counted_in_characters() {
    assert_eq!(parse_words("naïve\nnaïv\n"), vec![to_chars("naïve")]);
    assert_eq!(spelled(&parse_words("CRANE\n12345\na b c\n")), vec!["CRANE", "12345", "a b c"]);
}

#[test]
fn table_holds_a_word_and_a_number_per_row() {
    assert_eq!(rows("crane,12\nreact,7\n"), vec![row("crane", 12), row("react", 7)]);
    assert_eq!(rows("crane,12"), vec![row("crane", 12)]);
    assert_eq!(rows(""), vec![]);
}

#[test]
fn rows_with_a_word_of_another_length_are_dropped() {
    assert_eq!(
        rows("the,23135851162\ncrane,12\nabouts,5\n,9\nreact,7"),
        vec![row("crane", 12), row("react", 7)]
    );
}

#[test]
fn lines_without_a_comma_are_passed_over() {
    assert_eq!(rows("word count\ncrane,12\n\nreact\nreact;7\n"), vec![row("crane", 12)]);
}

#[test]
fn what_follows_a_second_comma_is_not_read() {
    assert_eq!(
        rows("crane,12,noun\nreact,7,\ntrace,3,4,5"),
        vec![row("crane", 12), row("react", 7), row("trace", 3)]
    );
}

#[test]
fn numbers_may_carry_a_sign_and_leading_zeros() {
    assert_eq!(
        rows("crane,+12\nreact,-7\ntrace,007\ncater,-0\ncrate,0"),
        vec![row("crane", 12), row("react", -7), row("trace", 7), row("cater", 0), row("crate", 0)]
    );
}

#[test]
fn numbers_reach_the_ends_of_64_bits() {
    assert_eq!(
        rows("crane,9223372036854775807\nreact,-9223372036854775808\ntrace,00000000000000000009"),
        vec![row("crane", i64::MAX), row("react", i64::MIN), row("trace", 9)]
    );
    assert_eq!(parse_frequencies("crane,9223372036854775808"), Err(ParseError { line: 0 }));
    assert_eq!(parse_frequencies("crane,-9223372036854775809"), Err(ParseError { line: 0 }));
    assert_eq!(
        parse_frequencies("crane,99999999999999999999999999999999999999999"),
        Err(ParseError { line: 0 })
    );
}

#[test]
fn malformed_number_is_reported_with_its_line() {
    assert_eq!(parse_frequencies("crane,12\nreact,seven\ntrace,3"), Err(ParseError { line: 1 }));
    assert_eq!(parse_frequencies("crane,"), Err(ParseError { line: 0 }));
    assert_eq!(parse_frequencies("crane,12\n\n\nreact,+"), Err(ParseError { line: 3 }));
    assert_eq!(parse_frequencies("crane,-"), Err(ParseError { line: 0 }));
    assert_eq!(parse_frequencies("crane, 12"), Err(ParseError { line: 0 }));
    assert_eq!(parse_frequencies("crane,12 "), Err(ParseError { line: 0 }));
    assert_eq!(parse_frequencies("crane,1_2"), Err(ParseError { line: 0 }));
    assert_eq!(parse_frequencies("crane,1.5"), Err(ParseError { line: 0 }));
    assert_eq!(parse_frequencies("crane,--1"), Err(ParseError { line: 0 }));
    assert_eq!(parse_frequencies("crane,12\r\n"), Err(ParseError { line: 0 }));
    assert_eq!(parse_frequencies("crane,١٢"), Err(ParseError { line: 0 }));
}

#[test]
fn malformed_number_counts_whatever_the_word() {
    assert_eq!(parse_frequencies("word,count\ncrane,12"), Err(ParseError { line: 0 }));
    assert_eq!(parse_frequencies("crane,12\n,\n"), Err(ParseError { line: 1 }));
}

#[test]
fn first_malformed_line_is_the_one_reported() {
    assert_eq!(parse_frequencies("a,b\nc,d\ncrane,1"), Err(ParseError { line: 0 }));
    assert_eq!(parse_frequencies("crane,1\nno comma\nc,d\ne,f"), Err(ParseError { line: 2 }));
}

#[test]
fn std_reads_the_same_numbers() {
    let fields = [
        "0", "7", "+7", "-7", "007", "-0", "+0", "", "+", "-", "++1", "+-1", " 1", "1 ", "1a", "a1",
        "9223372036854775807", "9223372036854775808", "-9223372036854775808",
        "-9223372036854775809", "18446744073709551616", "1e3", "0x10", "١",
    ];
    for field in fields {
        let text = format!("crane,{}", field);
        let ours = parse_frequencies(&text).ok().map(|r| r[0].1);
        assert_eq!(ours, field.parse::<i64>().ok());
    }
}
