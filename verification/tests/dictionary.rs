use std::cmp::Ordering;

use klingon_morpho::zrajm::{get_index_words, ZrajmDictionary, ZrajmPOS, ZrajmWord};

fn word(tlh: &str, pos: ZrajmPOS) -> ZrajmWord {
    let mut w = ZrajmWord::new();
    w.tlh = tlh.to_string();
    w.pos = pos;
    w
}

#[test]
fn new_word_has_default_numbers() {
    let w = ZrajmWord::new();
    assert_eq!(w.homonym, 1);
    assert_eq!(w.sense, 1);
    assert_eq!(w.subsense, 1);
    assert_eq!(w.tlh, "");
    assert_eq!(w.pos, ZrajmPOS::Unknown);
}

#[test]
fn pos_tags_parse_to_their_variants() {
    assert_eq!(ZrajmPOS::new("noun"), ZrajmPOS::Noun);
    assert_eq!(ZrajmPOS::new("verb"), ZrajmPOS::Verb);
    assert_eq!(ZrajmPOS::new("noun suffix type 1"), ZrajmPOS::NounSuffix1);
    assert_eq!(ZrajmPOS::new("verb suffix type rover"), ZrajmPOS::VerbSuffixRover);
    assert_eq!(ZrajmPOS::new("question word"), ZrajmPOS::QuestionWord);
    assert_eq!(ZrajmPOS::new("no such tag"), ZrajmPOS::Unknown);
}

#[test]
fn entries_order_by_letters_then_numbers() {
    let a = word("Qagh", ZrajmPOS::Noun);
    let b = word("qagh", ZrajmPOS::Noun);
    // The letter exception: q before Q.
    assert_eq!(b.cmp(&a), Ordering::Less);
    assert_eq!(a.cmp(&b), Ordering::Greater);

    let mut c = word("Qagh", ZrajmPOS::Noun);
    c.homonym = 2;
    assert_eq!(a.cmp(&c), Ordering::Less);

    let mut d = word("Qagh", ZrajmPOS::Noun);
    d.sense = 3;
    assert_eq!(d.cmp(&a), Ordering::Greater);
    assert_eq!(a.cmp(&a), Ordering::Equal);
}

#[test]
fn entries_order_letterwise_not_bytewise() {
    // ch sorts before q as a single letter, so "Doch" < "Doq".
    let a = word("Doch", ZrajmPOS::Noun);
    let b = word("Doq", ZrajmPOS::Verb);
    assert_eq!(a.cmp(&b), Ordering::Less);
}

#[test]
fn index_words_strip_brackets_and_keep_phrases() {
    let ans = get_index_words(&vec!["see <target>".to_string()]);
    assert_eq!(ans, vec!["target".to_string(), "see target".to_string()]);

    let nested = get_index_words(&vec!["a<b<c>>".to_string()]);
    assert_eq!(nested, vec!["c".to_string(), "bc".to_string(), "abc".to_string()]);

    let plain = get_index_words(&vec!["mistake".to_string(), "error".to_string()]);
    assert_eq!(plain, vec!["mistake".to_string(), "error".to_string()]);
}

#[test]
fn translation_indexes_come_from_the_translations() {
    let mut w = ZrajmWord::new();
    w.en = vec!["make a mistake".to_string(), "<err>".to_string()];
    w.sv = vec!["fela".to_string()];
    // A bracketed phrase is emitted on its own and also remains part of
    // the enclosing text.
    assert_eq!(
        w.en_index(),
        vec!["make a mistake".to_string(), "err".to_string(), "err".to_string()]
    );
    assert_eq!(w.sv_index(), vec!["fela".to_string()]);
}

#[test]
fn dictionary_keeps_entries_in_load_order() {
    let mut dict = ZrajmDictionary::new();
    assert_eq!(dict.words.len(), 0);
    let a = word("Qagh", ZrajmPOS::Noun);
    let b = word("legh", ZrajmPOS::Verb);
    dict.push_word(&a);
    dict.push_word(&b);
    assert_eq!(dict.words.len(), 2);
    assert_eq!(dict.words[0], a);
    assert_eq!(dict.words[1], b);
    let nouns = dict.entries_by_pos(ZrajmPOS::Noun);
    assert_eq!(nouns, vec![a]);
}
