use wordle::feedback::{get_states, CharacterState, CharacterStatus, GuessResult, NEVER};
use wordle::word::{
    check_word, check_words, contains_word, letter_index, same_word, to_chars, to_string,
};

const G: CharacterStatus = CharacterStatus::CORRECT;
const Y: CharacterStatus = CharacterStatus::EXISTS;
const B: CharacterStatus = CharacterStatus::INCORRECT;

fn play(guess: &str, solution: &str) -> GuessResult {
    get_states(&to_chars(guess), &to_chars(solution))
}

fn statuses(r: &GuessResult) -> [CharacterStatus; 5] {
    [
        r.char_states[0].status,
        r.char_states[1].status,
        r.char_states[2].status,
        r.char_states[3].status,
        r.char_states[4].status,
    ]
}

fn letters(r: &GuessResult) -> String {
    r.char_states.iter().map(|s| s.character).collect()
}

fn counts(entries: &[(char, i8)]) -> [i8; 26] {
    let mut all = [0i8; 26];
    for (c, n) in entries {
        all[letter_index(*c)] = *n;
    }
    all
}

#[test]
fn new_state_is_not_credited() {
    let s = CharacterState::new('q');
    assert_eq!(s.character, 'q');
    assert_eq!(s.status, B);
}

#[test]
fn to_chars_takes_the_first_five_characters() {
    assert_eq!(to_chars("crane"), ['c', 'r', 'a', 'n', 'e']);
    assert_eq!(to_chars("cranes and more"), ['c', 'r', 'a', 'n', 'e']);
    assert_eq!(to_chars("naïve"), ['n', 'a', 'ï', 'v', 'e']);
}

#[test]
fn to_string_spells_the_word() {
    assert_eq!(to_string(['c', 'r', 'a', 'n', 'e']), "crane");
    assert_eq!(to_string(to_chars("react")), "react");
    assert_eq!(to_string(['n', 'a', 'ï', 'v', 'e']), "naïve");
}

#[test]
fn letter_index_counts_from_a() {
    assert_eq!(letter_index('a'), 0);
    assert_eq!(letter_index('e'), 4);
    assert_eq!(letter_index('z'), 25);
}

#[test]
fn check_word_accepts_lowercase_letters_only() {
    assert!(check_word(&to_chars("crane")));
    assert!(check_word(&to_chars("azaza")));
    assert!(!check_word(&to_chars("Crane")));
    assert!(!check_word(&to_chars("cran3")));
    assert!(!check_word(&to_chars("cra e")));
    assert!(!check_word(&to_chars("naïve")));
    assert!(!check_word(&to_chars("cran{")));
    assert!(!check_word(&to_chars("`rane")));
}

#[test]
fn check_words_asks_every_word() {
    assert!(check_words(&vec![]));
    assert!(check_words(&vec![to_chars("crane"), to_chars("react")]));
    assert!(!check_words(&vec![to_chars("crane"), to_chars("reAct")]));
}

#[test]
fn same_word_compares_all_positions() {
    assert!(same_word(&to_chars("crane"), &to_chars("crane")));
    assert!(!same_word(&to_chars("crane"), &to_chars("crank")));
    assert!(!same_word(&to_chars("brane"), &to_chars("crane")));
}

#[test]
fn contains_word_finds_a_word_anywhere() {
    let pool = vec![to_chars("crane"), to_chars("react"), to_chars("trace")];
    assert!(contains_word(&pool, &to_chars("crane")));
    assert!(contains_word(&pool, &to_chars("trace")));
    assert!(!contains_word(&pool, &to_chars("cater")));
    assert!(!contains_word(&vec![], &to_chars("cater")));
}

#[test]
fn duplicate_letter_is_credited_once() {
    let r = play("erase", "crane");
    assert_eq!(letters(&r), "erase");
    assert_eq!(statuses(&r), [B, G, G, B, G]);
    assert_eq!(r.exists, counts(&[('e', NEVER), ('s', NEVER)]));
}

#[test]
fn letters_out_of_place_are_present() {
    let r = play("crane", "react");
    assert_eq!(statuses(&r), [Y, Y, G, B, Y]);
    assert_eq!(r.exists, counts(&[('c', 1), ('r', 1), ('e', 1), ('n', NEVER)]));
}

#[test]
fn surplus_copy_caps_the_count() {
    let r = play("speed", "abide");
    assert_eq!(statuses(&r), [B, B, Y, B, Y]);
    assert_eq!(r.exists, counts(&[('s', NEVER), ('p', NEVER), ('e', -1), ('d', 1)]));
}

#[test]
fn two_copies_out_of_place_are_both_present() {
    let r = play("speed", "erase");
    assert_eq!(statuses(&r), [Y, B, Y, Y, B]);
    assert_eq!(r.exists, counts(&[('s', 1), ('p', NEVER), ('e', 2), ('d', NEVER)]));
}

#[test]
fn copy_in_place_leaves_the_other_copy_absent() {
    let r = play("speed", "steal");
    assert_eq!(statuses(&r), [G, B, G, B, B]);
    assert_eq!(r.exists, counts(&[('p', NEVER), ('e', NEVER), ('d', NEVER)]));
}

#[test]
fn copy_in_place_and_copy_out_of_place() {
    let r = play("speed", "crepe");
    assert_eq!(statuses(&r), [B, Y, G, Y, B]);
    assert_eq!(r.exists, counts(&[('s', NEVER), ('p', 1), ('e', 1), ('d', NEVER)]));
}

#[test]
fn three_copies_against_two() {
    let r = play("eerie", "exert");
    assert_eq!(statuses(&r), [G, Y, Y, B, B]);
    assert_eq!(r.exists, counts(&[('e', -1), ('r', 1), ('i', NEVER)]));
}

#[test]
fn word_against_itself_is_all_correct() {
    let r = play("crane", "crane");
    assert_eq!(statuses(&r), [G, G, G, G, G]);
    assert_eq!(r.exists, [0i8; 26]);
}

#[test]
fn nothing_shared_is_all_absent() {
    let r = play("slate", "condo");
    assert_eq!(statuses(&r), [B, B, B, B, B]);
    assert_eq!(
        r.exists,
        counts(&[('s', NEVER), ('l', NEVER), ('a', NEVER), ('t', NEVER), ('e', NEVER)])
    );
}

#[test]
fn feedback_is_the_same_on_every_call() {
    let words = ["crane", "erase", "eerie", "exert", "speed", "abide", "zzzzz", "aaaaa", "abaca"];
    for g in words {
        for s in words {
            let first = play(g, s);
            let second = play(g, s);
            assert_eq!(statuses(&first), statuses(&second));
            assert_eq!(letters(&first), letters(&second));
            assert_eq!(first.exists, second.exists);
        }
    }
}

#[test]
fn credited_copies_match_the_smaller_count() {
    let words =
        ["crane", "erase", "eerie", "exert", "speed", "abide", "zzzzz", "aaaaa", "abaca", "geese"];
    for g in words {
        for s in words {
            let r = play(g, s);
            for c in 'a'..='z' {
                let in_guess = g.chars().filter(|x| *x == c).count();
                let in_solution = s.chars().filter(|x| *x == c).count();
                let credited = r
                    .char_states
                    .iter()
                    .filter(|state| state.character == c && state.status != B)
                    .count();
                assert_eq!(credited, in_guess.min(in_solution));
            }
        }
    }
}
