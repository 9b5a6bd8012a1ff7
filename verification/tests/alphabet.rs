use std::cmp::Ordering;

use klingon_morpho::klingon::{letters, Letter};

fn texts(word: &str) -> Vec<String> {
    letters(word).iter().map(|l| l.text()).collect()
}

#[test]
fn tokenizes_multichar_letters_as_units() {
    assert_eq!(texts("tlhIngan"), vec!["tlh", "I", "ng", "a", "n"]);
    assert_eq!(texts("QaghwIj"), vec!["Q", "a", "gh", "w", "I", "j"]);
    assert_eq!(texts("chogh"), vec!["ch", "o", "gh"]);
}

#[test]
fn tokenizes_greedily_at_each_position() {
    // `tl` without `h` falls back to the single letters.
    assert_eq!(texts("tl"), vec!["t", "l"]);
    // `ng` wins over `n` alone.
    assert_eq!(texts("nga"), vec!["ng", "a"]);
}

#[test]
fn unrecognized_characters_ride_with_the_next_letter() {
    // `x` is not a letter: it is glued to the front of the next token.
    assert_eq!(texts("xa"), vec!["xa"]);
    // Trailing unrecognized text belongs to no token.
    assert_eq!(texts("ax"), vec!["a"]);
}

#[test]
fn tokenization_is_idempotent_on_concrete_words() {
    for word in ["tlhIngan", "QaghwIj", "xa", "ax", "qaleghqa'"] {
        let first: Vec<String> = texts(word);
        let joined: String = first.concat();
        assert_eq!(texts(&joined), first);
    }
}

#[test]
fn empty_input_has_no_letters() {
    assert_eq!(texts(""), Vec::<String>::new());
}

fn letter(s: &str) -> Letter {
    Letter::from(s.to_string())
}

#[test]
fn letters_compare_case_insensitively() {
    assert_eq!(letter("D").cmp(&letter("e")), Ordering::Less);
    assert_eq!(letter("a").cmp(&letter("b")), Ordering::Less);
    assert_eq!(letter("S").cmp(&letter("r")), Ordering::Greater);
    assert_eq!(letter("I").cmp(&letter("I")), Ordering::Equal);
}

#[test]
fn q_and_capital_q_are_ordered_by_the_exception() {
    assert_eq!(letter("q").cmp(&letter("Q")), Ordering::Less);
    assert_eq!(letter("Q").cmp(&letter("q")), Ordering::Greater);
}

#[test]
fn shorter_letter_precedes_its_extensions() {
    assert_eq!(letter("n").cmp(&letter("ng")), Ordering::Less);
    assert_eq!(letter("t").cmp(&letter("tlh")), Ordering::Less);
    assert_eq!(letter("tlh").cmp(&letter("u")), Ordering::Less);
}
