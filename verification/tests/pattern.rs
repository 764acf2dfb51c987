use wordle::feedback::{CharacterStatus, GuessResult, NEVER};
use wordle::pattern::{create_guess_result, gr, DecodeError};
use wordle::word::letter_index;

const G: CharacterStatus = CharacterStatus::CORRECT;
const Y: CharacterStatus = CharacterStatus::EXISTS;
const B: CharacterStatus = CharacterStatus::INCORRECT;

fn statuses(r: &GuessResult) -> [CharacterStatus; 5] {
    [
        r.char_states[0].status,
        r.char_states[1].status,
        r.char_states[2].status,
        r.char_states[3].status,
        r.char_states[4].status,
    ]
}

fn letters(r: &GuessResult) -> String {
    r.char_states.iter().map(|s| s.character).collect()
}

fn counts(entries: &[(char, i8)]) -> [i8; 26] {
    let mut all = [0i8; 26];
    for (c, n) in entries {
        all[letter_index(*c)] = *n;
    }
    all
}

#[test]
fn symbols_stand_for_colours() {
    let r = gr("crane", "BYGBY").unwrap();
    assert_eq!(letters(&r), "crane");
    assert_eq!(statuses(&r), [B, Y, G, B, Y]);
    assert_eq!(r.exists, counts(&[('c', NEVER), ('r', 1), ('a', 1), ('n', NEVER), ('e', 1)]));
}

#[test]
fn all_absent_rules_every_letter_out() {
    let r = gr("slate", "BBBBB").unwrap();
    assert_eq!(statuses(&r), [B, B, B, B, B]);
    assert_eq!(
        r.exists,
        counts(&[('s', NEVER), ('l', NEVER), ('a', NEVER), ('t', NEVER), ('e', NEVER)])
    );
}

#[test]
fn last_copy_absent_makes_the_count_exact() {
    let r = gr("eerie", "GYBBB").unwrap();
    assert_eq!(r.exists, counts(&[('e', -2), ('r', NEVER), ('i', NEVER)]));
}

#[test]
fn last_copy_credited_makes_the_count_a_lower_bound() {
    let r = gr("eerie", "BYBBG").unwrap();
    assert_eq!(r.exists, counts(&[('e', 2), ('r', NEVER), ('i', NEVER)]));
}

#[test]
fn create_guess_result_keeps_letters_and_colours() {
    let r = create_guess_result([('s', Y), ('p', B), ('e', Y), ('e', Y), ('d', B)]);
    assert_eq!(letters(&r), "speed");
    assert_eq!(statuses(&r), [Y, B, Y, Y, B]);
    assert_eq!(r.exists, counts(&[('s', 1), ('p', NEVER), ('e', 2), ('d', NEVER)]));
}

#[test]
fn only_the_first_five_characters_are_read() {
    let long = gr("cranes", "BYGBYB").unwrap();
    let short = gr("crane", "BYGBY").unwrap();
    assert_eq!(letters(&long), letters(&short));
    assert_eq!(statuses(&long), statuses(&short));
    assert_eq!(long.exists, short.exists);
    assert!(gr("craneX", "BYGBY?").is_ok());
}

#[test]
fn short_word_is_refused() {
    assert_eq!(gr("cran", "BBBBB").unwrap_err(), DecodeError::WordTooShort);
    assert_eq!(gr("", "").unwrap_err(), DecodeError::WordTooShort);
    assert_eq!(gr("cran", "BBB").unwrap_err(), DecodeError::WordTooShort);
}

#[test]
fn short_pattern_is_refused() {
    assert_eq!(gr("crane", "BBBB").unwrap_err(), DecodeError::PatternTooShort);
    assert_eq!(gr("crane", "").unwrap_err(), DecodeError::PatternTooShort);
    assert_eq!(gr("CRANE", "BB").unwrap_err(), DecodeError::PatternTooShort);
}

#[test]
fn unknown_symbol_is_refused_at_its_first_position() {
    assert_eq!(gr("crane", "BBXBB").unwrap_err(), DecodeError::UnknownSymbol(2));
    assert_eq!(gr("crane", "bBBBB").unwrap_err(), DecodeError::UnknownSymbol(0));
    assert_eq!(gr("crane", "BYG?!").unwrap_err(), DecodeError::UnknownSymbol(3));
    assert_eq!(gr("crane", "BYGBg").unwrap_err(), DecodeError::UnknownSymbol(4));
    assert_eq!(gr("CRANE", "BYGB ").unwrap_err(), DecodeError::UnknownSymbol(4));
}

#[test]
fn character_that_is_no_letter_is_refused_at_its_first_position() {
    assert_eq!(gr("Crane", "BBBBB").unwrap_err(), DecodeError::NotALetter(0));
    assert_eq!(gr("cr4n3", "BBBBB").unwrap_err(), DecodeError::NotALetter(2));
    assert_eq!(gr("cranE", "GGGGG").unwrap_err(), DecodeError::NotALetter(4));
    assert_eq!(gr("naïve", "BBBBB").unwrap_err(), DecodeError::NotALetter(2));
}
