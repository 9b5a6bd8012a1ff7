use klingon_morpho::morpho::{complete_grammar, complete_pos, completions, grammar};
use klingon_morpho::zrajm::{ZrajmDictionary, ZrajmPOS, ZrajmWord};

fn word(tlh: &str, pos: ZrajmPOS) -> ZrajmWord {
    let mut w = ZrajmWord::new();
    w.tlh = tlh.to_string();
    w.pos = pos;
    w.id = tlh.to_string();
    w
}

fn dict(words: &[ZrajmWord]) -> ZrajmDictionary {
    let mut d = ZrajmDictionary::new();
    for w in words {
        d.push_word(w);
    }
    d
}

#[test]
fn catalogue_has_the_ten_tracks() {
    let g = grammar();
    assert_eq!(g.len(), 10);
    assert_eq!(g[0].0, "Noun track");
    assert_eq!(g[1].0, "Verb track");
    assert_eq!(g[9].0, "Question words");
    assert_eq!(g[0].1.len(), 6);
    assert_eq!(g[0].1[0], (ZrajmPOS::Noun, true));
    assert_eq!(g[0].1[1], (ZrajmPOS::NounSuffix1, false));
    assert_eq!(g[1].1.len(), 21);
    assert_eq!(g[1].1[0], (ZrajmPOS::VerbPrefix, false));
    assert_eq!(g[1].1[1], (ZrajmPOS::Verb, true));
    assert_eq!(g[6].1, vec![(ZrajmPOS::Numeral, true)]);
}

#[test]
fn exact_stem_on_single_mandatory_slot_gives_empty_ending() {
    let d = dict(&[word("Qagh", ZrajmPOS::Noun)]);
    let track = vec![(ZrajmPOS::Noun, true)];
    let (ending, parsed, rem) = complete_pos(&d, Vec::new(), &track, "Qagh");
    assert_eq!(ending, "");
    // The exact-match branch leaves the slot open: nothing is consumed.
    assert_eq!(parsed, Vec::<(String, ZrajmPOS)>::new());
    assert_eq!(rem, track);
}

#[test]
fn strict_extension_consumes_the_stem_and_marks_the_leftover() {
    let d = dict(&[word("Qagh", ZrajmPOS::Noun)]);
    let track = vec![(ZrajmPOS::Noun, true)];
    let (ending, parsed, rem) = complete_pos(&d, Vec::new(), &track, "QaghwIj");
    assert_eq!(ending, "-wIj");
    assert_eq!(parsed, vec![("Qagh".to_string(), ZrajmPOS::Noun)]);
    assert_eq!(rem, Vec::<(ZrajmPOS, bool)>::new());
}

#[test]
fn stem_with_boundary_hyphen_adds_no_second_marker() {
    let d = dict(&[word("qa-", ZrajmPOS::VerbPrefix)]);
    let track = vec![(ZrajmPOS::VerbPrefix, true)];
    let (ending, parsed, _) = complete_pos(&d, Vec::new(), &track, "qalegh");
    assert_eq!(ending, "legh");
    assert_eq!(parsed, vec![("qa-".to_string(), ZrajmPOS::VerbPrefix)]);
}

#[test]
fn longer_stems_are_tried_first() {
    let d = dict(&[word("Qa", ZrajmPOS::Noun), word("Qagh", ZrajmPOS::Noun)]);
    let track = vec![(ZrajmPOS::Noun, true)];
    let (ending, parsed, _) = complete_pos(&d, Vec::new(), &track, "QaghwIj");
    // The longer stem Qagh must not be shadowed by its prefix Qa.
    assert_eq!(ending, "-wIj");
    assert_eq!(parsed, vec![("Qagh".to_string(), ZrajmPOS::Noun)]);
}

#[test]
fn optional_slot_is_skipped_when_it_cannot_match() {
    let d = dict(&[word("legh", ZrajmPOS::Verb)]);
    let track = vec![(ZrajmPOS::VerbPrefix, false), (ZrajmPOS::Verb, true)];
    let (ending, parsed, rem) = complete_pos(&d, Vec::new(), &track, "leghwI'");
    assert_eq!(ending, "-wI'");
    assert_eq!(parsed, vec![("legh".to_string(), ZrajmPOS::Verb)]);
    assert_eq!(rem, Vec::<(ZrajmPOS, bool)>::new());
}

#[test]
fn full_word_parses_with_empty_ending_and_one_step_recorded() {
    let d = dict(&[word("Qagh", ZrajmPOS::Noun), word("-wIj", ZrajmPOS::NounSuffix1)]);
    let c = completions(&d, "QaghwIj");
    // The suffix matches exactly, so the word is complete along the noun
    // track: the parse is recorded and no suggestions are offered.
    assert_eq!(c.parsed.len(), 1);
    assert_eq!(c.parsed[0].len(), 1);
    assert_eq!(c.parsed[0][0].len(), 1);
    assert_eq!(c.parsed[0][0][0].tlh, "Qagh");
    assert_eq!(c.suggestions.len(), 0);
}

#[test]
fn exact_word_reports_the_matched_slot_as_still_open() {
    let d = dict(&[word("Qagh", ZrajmPOS::Noun), word("-wIj", ZrajmPOS::NounSuffix1)]);
    let noun_track = grammar().remove(0).1;
    let (ending, parsed, rem) = complete_pos(&d, Vec::new(), &noun_track, "Qagh");
    assert_eq!(ending, "");
    assert_eq!(parsed.len(), 0);
    // The remaining track still begins with the noun slot itself.
    assert_eq!(rem, noun_track);

    let c = completions(&d, "Qagh");
    // With an empty ending the track contributes no suggestions, and an
    // empty parse-step list records nothing.
    assert_eq!(c.parsed.len(), 0);
    assert_eq!(c.suggestions.len(), 0);
}

#[test]
fn prefix_of_a_stem_yields_that_stem_as_suggestion() {
    let d = dict(&[word("Qagh", ZrajmPOS::Noun), word("-wIj", ZrajmPOS::NounSuffix1)]);
    let noun_track = grammar().remove(0).1;
    let (ending, parsed, suggs) = complete_grammar(&d, &noun_track, "Qa");
    assert_eq!(ending, "Qa");
    assert_eq!(parsed.len(), 0);
    assert_eq!(suggs.len(), 1);
    assert_eq!(suggs[0].tlh, "Qagh");

    let c = completions(&d, "Qa");
    assert_eq!(c.parsed.len(), 0);
    assert_eq!(c.suggestions.len(), 1);
    assert_eq!(c.suggestions[0].tlh, "Qagh");
}

#[test]
fn homonyms_share_one_parse_slot() {
    let mut first = word("Qagh", ZrajmPOS::Noun);
    first.id = "first".to_string();
    let mut second = word("Qagh", ZrajmPOS::Noun);
    second.id = "second".to_string();
    second.homonym = 2;
    let d = dict(&[first, second, word("-wIj", ZrajmPOS::NounSuffix1)]);
    let c = completions(&d, "QaghwIj");
    assert_eq!(c.parsed.len(), 1);
    assert_eq!(c.parsed[0].len(), 1);
    let slot = &c.parsed[0][0];
    assert_eq!(slot.len(), 2);
    assert_eq!(slot[0].homonym, 1);
    assert_eq!(slot[1].homonym, 2);
}

#[test]
fn suggestions_only_extend_the_unmatched_remainder() {
    let d = dict(&[
        word("Qagh", ZrajmPOS::Noun),
        word("-wIj", ZrajmPOS::NounSuffix1),
        word("-lIj", ZrajmPOS::NounSuffix1),
        word("-Hom", ZrajmPOS::NounSuffix1),
    ]);
    let c = completions(&d, "Qaghw");
    // The remainder after Qagh is "-w": only -wIj extends it.
    assert_eq!(c.suggestions.len(), 1);
    assert_eq!(c.suggestions[0].tlh, "-wIj");
    assert_eq!(c.parsed.len(), 1);
}

#[test]
fn suggestions_rank_original_prefix_matches_first() {
    let d = dict(&[
        word("qalwI'", ZrajmPOS::Noun),
        word("legh", ZrajmPOS::Verb),
        word("qa-", ZrajmPOS::VerbPrefix),
    ]);
    let c = completions(&d, "qal");
    // The verb track consumes qa- and suggests legh for the leftover "l";
    // the noun track suggests qalwI' for the whole word. The entry whose
    // text starts with the typed word must come first.
    assert_eq!(c.suggestions.len(), 2);
    assert_eq!(c.suggestions[0].tlh, "qalwI'");
    assert_eq!(c.suggestions[1].tlh, "legh");
}

#[test]
fn tied_suggestions_fall_back_to_entry_order() {
    let d = dict(&[word("Doq", ZrajmPOS::Verb), word("Doch", ZrajmPOS::Noun)]);
    let c = completions(&d, "Do");
    // Both suggestions extend the typed word; ch orders before q.
    assert_eq!(c.suggestions.len(), 2);
    assert_eq!(c.suggestions[0].tlh, "Doch");
    assert_eq!(c.suggestions[1].tlh, "Doq");
}

#[test]
fn equal_parses_from_different_tracks_are_recorded_once() {
    let d = dict(&[word("legh", ZrajmPOS::Verb), word("-qa'", ZrajmPOS::VerbSuffixRover)]);
    let c = completions(&d, "leghqa'");
    // The verb, nominalized verb and adjective tracks all find the same
    // segmentation; the parse set keeps it once.
    assert_eq!(c.parsed.len(), 1);
    assert_eq!(c.parsed[0].len(), 1);
    assert_eq!(c.parsed[0][0].len(), 1);
    assert_eq!(c.parsed[0][0][0].tlh, "legh");
    assert_eq!(c.suggestions.len(), 0);
}

#[test]
fn empty_dictionary_yields_empty_completions() {
    let d = ZrajmDictionary::new();
    let c = completions(&d, "Qagh");
    assert_eq!(c.parsed.len(), 0);
    assert_eq!(c.suggestions.len(), 0);
}
