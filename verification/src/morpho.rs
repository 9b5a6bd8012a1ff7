//! The grammar catalogue, the track matcher and the completion engine.
//!
//! A track is an ordered list of part-of-speech slots, each mandatory or
//! optional. The matcher consumes a word along one track, greedily
//! preferring longer stems; the completion engine runs every track, keeps
//! the de-duplicated parses and ranks the suggested continuations.

use vstd::prelude::*;
use core::cmp::Ordering;
use crate::zrajm::{
    by_pos, cmp_word, spec_starts_with, str_eq, str_starts_with, words_view, WordModel,
    ZrajmDictionary, ZrajmPOS, ZrajmWord,
};

verus! {

/// One track: part-of-speech slots, each with its mandatory flag.
pub open spec fn spec_grammar() -> Seq<Seq<(ZrajmPOS, bool)>> {
    seq![
        noun_track(),
        verb_track(),
        nominalized_verb_track(),
        adjective_track(),
        pronoun_verb_track(),
        pronoun_noun_track(),
        seq![(ZrajmPOS::Numeral, true)],
        seq![(ZrajmPOS::Adverbial, true)],
        seq![(ZrajmPOS::Conjunction, true)],
        seq![(ZrajmPOS::QuestionWord, true)],
    ]
}

pub open spec fn noun_track() -> Seq<(ZrajmPOS, bool)> {
    seq![
        (ZrajmPOS::Noun, true),
        (ZrajmPOS::NounSuffix1, false),
        (ZrajmPOS::NounSuffix2, false),
        (ZrajmPOS::NounSuffix3, false),
        (ZrajmPOS::NounSuffix4, false),
        (ZrajmPOS::NounSuffix5, false),
    ]
}

/// The nine ordered verb suffix classes, a rover slot between each pair.
pub open spec fn verb_suffix_slots() -> Seq<(ZrajmPOS, bool)> {
    seq![
        (ZrajmPOS::VerbSuffixRover, false),
        (ZrajmPOS::VerbSuffix1, false),
        (ZrajmPOS::VerbSuffixRover, false),
        (ZrajmPOS::VerbSuffix2, false),
        (ZrajmPOS::VerbSuffixRover, false),
        (ZrajmPOS::VerbSuffix3, false),
        (ZrajmPOS::VerbSuffixRover, false),
        (ZrajmPOS::VerbSuffix4, false),
        (ZrajmPOS::VerbSuffixRover, false),
        (ZrajmPOS::VerbSuffix5, false),
        (ZrajmPOS::VerbSuffixRover, false),
        (ZrajmPOS::VerbSuffix6, false),
        (ZrajmPOS::VerbSuffixRover, false),
        (ZrajmPOS::VerbSuffix7, false),
        (ZrajmPOS::VerbSuffixRover, false),
        (ZrajmPOS::VerbSuffix8, false),
        (ZrajmPOS::VerbSuffixRover, false),
    ]
}

pub open spec fn verb_track() -> Seq<(ZrajmPOS, bool)> {
    seq![(ZrajmPOS::VerbPrefix, false), (ZrajmPOS::Verb, true)] + verb_suffix_slots() + seq![
        (ZrajmPOS::VerbSuffix9, false),
        (ZrajmPOS::VerbSuffixRover, false),
    ]
}

pub open spec fn nominalized_verb_track() -> Seq<(ZrajmPOS, bool)> {
    seq![(ZrajmPOS::Verb, true)] + verb_suffix_slots() + seq![
        (ZrajmPOS::VerbSuffix9, true),
        (ZrajmPOS::VerbSuffixRover, false),
        (ZrajmPOS::NounSuffix1, false),
        (ZrajmPOS::NounSuffix2, false),
        (ZrajmPOS::NounSuffix3, false),
        (ZrajmPOS::NounSuffix4, false),
        (ZrajmPOS::NounSuffix5, false),
    ]
}

pub open spec fn adjective_track() -> Seq<(ZrajmPOS, bool)> {
    seq![
        (ZrajmPOS::Verb, true),
        (ZrajmPOS::VerbSuffixRover, false),
        (ZrajmPOS::NounSuffix5, false),
    ]
}

pub open spec fn pronoun_verb_track() -> Seq<(ZrajmPOS, bool)> {
    seq![(ZrajmPOS::Pronoun, true)] + verb_suffix_slots() + seq![
        (ZrajmPOS::VerbSuffix9, true),
        (ZrajmPOS::VerbSuffixRover, false),
    ]
}

pub open spec fn pronoun_noun_track() -> Seq<(ZrajmPOS, bool)> {
    seq![(ZrajmPOS::Pronoun, true), (ZrajmPOS::NounSuffix5, false)]
}

/// The names of the tracks, in catalogue order.
pub open spec fn spec_track_names() -> Seq<Seq<char>> {
    seq![
        "Noun track"@,
        "Verb track"@,
        "Nominalized verb track"@,
        "Adjective track"@,
        "Pronoun track (verb)"@,
        "Pronoun track (noun)"@,
        "Numerals"@,
        "Adverbials"@,
        "Conjunctions"@,
        "Question words"@,
    ]
}

fn verb_suffix_slots_exec() -> (r: Vec<(ZrajmPOS, bool)>)
    ensures
        r@ == verb_suffix_slots(),
{
    let v = vec![
        (ZrajmPOS::VerbSuffixRover, false),
        (ZrajmPOS::VerbSuffix1, false),
        (ZrajmPOS::VerbSuffixRover, false),
        (ZrajmPOS::VerbSuffix2, false),
        (ZrajmPOS::VerbSuffixRover, false),
        (ZrajmPOS::VerbSuffix3, false),
        (ZrajmPOS::VerbSuffixRover, false),
        (ZrajmPOS::VerbSuffix4, false),
        (ZrajmPOS::VerbSuffixRover, false),
        (ZrajmPOS::VerbSuffix5, false),
        (ZrajmPOS::VerbSuffixRover, false),
        (ZrajmPOS::VerbSuffix6, false),
        (ZrajmPOS::VerbSuffixRover, false),
        (ZrajmPOS::VerbSuffix7, false),
        (ZrajmPOS::VerbSuffixRover, false),
        (ZrajmPOS::VerbSuffix8, false),
        (ZrajmPOS::VerbSuffixRover, false),
    ];
    proof {
        assert(v@ =~= verb_suffix_slots());
    }
    v
}

fn extend_slots(target: &mut Vec<(ZrajmPOS, bool)>, more: &Vec<(ZrajmPOS, bool)>)
    ensures
        final(target)@ == old(target)@ + more@,
{
    let mut i: usize = 0;
    proof {
        assert(target@ =~= old(target)@ + more@.subrange(0, 0));
    }
    while i < more.len()
        invariant
            i <= more@.len(),
            target@ == old(target)@ + more@.subrange(0, i as int),
        decreases more@.len() - i,
    {
        target.push(more[i]);
        proof {
            assert(target@ =~= old(target)@ + more@.subrange(0, i + 1));
        }
        i = i + 1;
    }
    proof {
        assert(more@.subrange(0, more@.len() as int) =~= more@);
    }
}

/// The static catalogue of grammar tracks, each with its name.
pub fn grammar() -> (r: Vec<(&'static str, Vec<(ZrajmPOS, bool)>)>)
    ensures
        r@.len() == spec_grammar().len(),
        forall|i: int| 0 <= i < r@.len() ==> (#[trigger] r@[i]).1@ == spec_grammar()[i],
        forall|i: int| 0 <= i < r@.len() ==> (#[trigger] r@[i]).0@ == spec_track_names()[i],
{
    let noun = vec![
        (ZrajmPOS::Noun, true),
        (ZrajmPOS::NounSuffix1, false),
        (ZrajmPOS::NounSuffix2, false),
        (ZrajmPOS::NounSuffix3, false),
        (ZrajmPOS::NounSuffix4, false),
        (ZrajmPOS::NounSuffix5, false),
    ];
    proof {
        assert(noun@ =~= noun_track());
    }
    let mut verb = vec![(ZrajmPOS::VerbPrefix, false), (ZrajmPOS::Verb, true)];
    let rovers = verb_suffix_slots_exec();
    extend_slots(&mut verb, &rovers);
    let tail9 = vec![(ZrajmPOS::VerbSuffix9, false), (ZrajmPOS::VerbSuffixRover, false)];
    extend_slots(&mut verb, &tail9);
    proof {
        assert(verb@ =~= verb_track());
    }
    let mut nominal = vec![(ZrajmPOS::Verb, true)];
    extend_slots(&mut nominal, &rovers);
    let nominal_tail = vec![
        (ZrajmPOS::VerbSuffix9, true),
        (ZrajmPOS::VerbSuffixRover, false),
        (ZrajmPOS::NounSuffix1, false),
        (ZrajmPOS::NounSuffix2, false),
        (ZrajmPOS::NounSuffix3, false),
        (ZrajmPOS::NounSuffix4, false),
        (ZrajmPOS::NounSuffix5, false),
    ];
    extend_slots(&mut nominal, &nominal_tail);
    proof {
        assert(nominal@ =~= nominalized_verb_track());
    }
    let adjective = vec![
        (ZrajmPOS::Verb, true),
        (ZrajmPOS::VerbSuffixRover, false),
        (ZrajmPOS::NounSuffix5, false),
    ];
    proof {
        assert(adjective@ =~= adjective_track());
    }
    let mut pronoun_verb = vec![(ZrajmPOS::Pronoun, true)];
    extend_slots(&mut pronoun_verb, &rovers);
    let pv_tail = vec![(ZrajmPOS::VerbSuffix9, true), (ZrajmPOS::VerbSuffixRover, false)];
    extend_slots(&mut pronoun_verb, &pv_tail);
    proof {
        assert(pronoun_verb@ =~= pronoun_verb_track());
    }
    let pronoun_noun = vec![(ZrajmPOS::Pronoun, true), (ZrajmPOS::NounSuffix5, false)];
    proof {
        assert(pronoun_noun@ =~= pronoun_noun_track());
    }
    let numerals = vec![(ZrajmPOS::Numeral, true)];
    let adverbials = vec![(ZrajmPOS::Adverbial, true)];
    let conjunctions = vec![(ZrajmPOS::Conjunction, true)];
    let question_words = vec![(ZrajmPOS::QuestionWord, true)];
    proof {
        assert(numerals@ =~= spec_grammar()[6]);
        assert(adverbials@ =~= spec_grammar()[7]);
        assert(conjunctions@ =~= spec_grammar()[8]);
        assert(question_words@ =~= spec_grammar()[9]);
    }
    let r = vec![
        ("Noun track", noun),
        ("Verb track", verb),
        ("Nominalized verb track", nominal),
        ("Adjective track", adjective),
        ("Pronoun track (verb)", pronoun_verb),
        ("Pronoun track (noun)", pronoun_noun),
        ("Numerals", numerals),
        ("Adverbials", adverbials),
        ("Conjunctions", conjunctions),
        ("Question words", question_words),
    ];
    r
}

/// Whether the text ends with the boundary hyphen.
pub open spec fn ends_hyphen(t: Seq<char>) -> bool {
    t.len() > 0 && t[t.len() - 1] == '-'
}

/// The text with all trailing boundary hyphens removed: the bare stem.
pub open spec fn bare(t: Seq<char>) -> Seq<char>
    decreases t.len(),
{
    if ends_hyphen(t) {
        bare(t.drop_last())
    } else {
        t
    }
}

pub proof fn lemma_bare_prefix(t: Seq<char>)
    ensures
        bare(t).len() <= t.len(),
        bare(t) == t.subrange(0, bare(t).len() as int),
    decreases t.len(),
{
    if ends_hyphen(t) {
        lemma_bare_prefix(t.drop_last());
        assert(t.drop_last().subrange(0, bare(t).len() as int) =~= t.subrange(
            0,
            bare(t).len() as int,
        ));
    } else {
        assert(t.subrange(0, t.len() as int) =~= t);
    }
}

/// The number of characters of the bare stem of `s`.
fn bare_len(s: &str) -> (r: usize)
    ensures
        r == bare(s@).len(),
        bare(s@) == s@.subrange(0, r as int),
{
    let n = s.unicode_len();
    let mut e = n;
    proof {
        assert(s@.subrange(0, n as int) =~= s@);
    }
    while e > 0 && s.get_char(e - 1) == '-'
        invariant
            e <= n,
            n == s@.len(),
            bare(s@) == bare(s@.subrange(0, e as int)),
        decreases e,
    {
        proof {
            let cur = s@.subrange(0, e as int);
            assert(cur.drop_last() =~= s@.subrange(0, e - 1));
            assert(ends_hyphen(cur));
        }
        e = e - 1;
    }
    proof {
        let cur = s@.subrange(0, e as int);
        assert(!ends_hyphen(cur));
        assert(bare(cur) == cur);
        lemma_bare_prefix(s@);
    }
    e
}

/// Stable insertion of an entry into a list ordered by descending surface
/// text length: it lands after every entry at least as long.
pub open spec fn insert_desc(x: WordModel, s: Seq<WordModel>) -> Seq<WordModel>
    decreases s.len(),
{
    if s.len() == 0 {
        seq![x]
    } else if s[0].tlh.len() >= x.tlh.len() {
        seq![s[0]] + insert_desc(x, s.skip(1))
    } else {
        seq![x] + s
    }
}

/// Stable sort by descending surface text length, the order in which
/// stems are tried: longer stems first.
pub open spec fn sort_desc(s: Seq<WordModel>) -> Seq<WordModel>
    decreases s.len(),
{
    if s.len() == 0 {
        Seq::empty()
    } else {
        insert_desc(s.last(), sort_desc(s.drop_last()))
    }
}

proof fn lemma_insert_desc_at(x: WordModel, s: Seq<WordModel>, p: int)
    requires
        0 <= p <= s.len(),
        forall|j: int| 0 <= j < p ==> (#[trigger] s[j]).tlh.len() >= x.tlh.len(),
        p < s.len() ==> s[p].tlh.len() < x.tlh.len(),
    ensures
        insert_desc(x, s) == s.subrange(0, p) + seq![x] + s.subrange(p, s.len() as int),
    decreases s.len(),
{
    if s.len() == 0 {
        assert(insert_desc(x, s) =~= s.subrange(0, p) + seq![x] + s.subrange(p, s.len() as int));
    } else if p == 0 {
        assert(insert_desc(x, s) =~= s.subrange(0, p) + seq![x] + s.subrange(p, s.len() as int));
    } else {
        assert(s[0].tlh.len() >= x.tlh.len());
        assert forall|j: int| 0 <= j < p - 1 implies (#[trigger] s.skip(1)[j]).tlh.len()
            >= x.tlh.len() by {
            assert(s.skip(1)[j] == s[j + 1]);
        }
        lemma_insert_desc_at(x, s.skip(1), p - 1);
        assert(insert_desc(x, s) =~= s.subrange(0, p) + seq![x] + s.subrange(p, s.len() as int));
    }
}

/// Sorts entries by descending surface text length, keeping the relative
/// order of entries of equal length.
fn sorted_desc(words: Vec<ZrajmWord>) -> (r: Vec<ZrajmWord>)
    ensures
        words_view(r@) == sort_desc(words_view(words@)),
{
    let mut r: Vec<ZrajmWord> = Vec::new();
    let mut i: usize = 0;
    proof {
        assert(words_view(r@) =~= Seq::<WordModel>::empty());
        assert(words_view(words@).subrange(0, 0) =~= Seq::<WordModel>::empty());
    }
    while i < words.len()
        invariant
            i <= words@.len(),
            words_view(r@) == sort_desc(words_view(words@).subrange(0, i as int)),
        decreases words@.len() - i,
    {
        let w = words[i].duplicate();
        let wlen = w.tlh.unicode_len();
        let mut p: usize = 0;
        while p < r.len() && r[p].tlh.unicode_len() >= wlen
            invariant
                p <= r@.len(),
                wlen == w@.tlh.len(),
                w@ == words_view(words@)[i as int],
                i < words@.len(),
                words_view(r@) == sort_desc(words_view(words@).subrange(0, i as int)),
                forall|j: int| 0 <= j < p ==> (#[trigger] words_view(r@)[j]).tlh.len()
                    >= w@.tlh.len(),
            decreases r@.len() - p,
        {
            proof {
                assert(words_view(r@)[p as int] == r@[p as int]@);
            }
            p = p + 1;
        }
        proof {
            if p < r@.len() {
                assert(words_view(r@)[p as int] == r@[p as int]@);
            }
        }
        let ghost r_old = r@;
        let ghost x = w@;
        r.insert(p, w);
        proof {
            let wsv = words_view(words@);
            let rv = words_view(r_old);
            assert(rv.len() == r_old.len());
            lemma_insert_desc_at(x, rv, p as int);
            assert forall|k: int| 0 <= k < r@.len() implies words_view(r@)[k] == insert_desc(
                x,
                rv,
            )[k] by {
                assert(words_view(r@)[k] == r@[k]@);
                if k < p {
                    assert(r@[k] == r_old[k]);
                    assert(rv[k] == r_old[k]@);
                } else if k == p {
                    assert(r@[k]@ == x);
                } else {
                    assert(r@[k] == r_old[k - 1]);
                    assert(rv[k - 1] == r_old[k - 1]@);
                }
            }
            assert(words_view(r@) =~= insert_desc(x, rv));
            let sub = wsv.subrange(0, i + 1);
            assert(sub.drop_last() =~= wsv.subrange(0, i as int));
            assert(sub.last() == x);
            assert(words_view(r@) == sort_desc(sub));
        }
        i = i + 1;
    }
    proof {
        assert(words_view(words@).subrange(0, words@.len() as int) =~= words_view(words@));
    }
    r
}

/// The views of a sequence of parse steps.
pub open spec fn steps_view(s: Seq<(String, ZrajmPOS)>) -> Seq<(Seq<char>, ZrajmPOS)> {
    s.map_values(|st: (String, ZrajmPOS)| (st.0@, st.1))
}

/// The first candidate at or after `i` whose bare stem matches the word:
/// the candidate index and whether the match is exact rather than a
/// proper prefix.
pub open spec fn scan_from(cands: Seq<WordModel>, word: Seq<char>, i: int) -> Option<(int, bool)>
    decreases cands.len() - i,
{
    if i < 0 || i >= cands.len() {
        None
    } else {
        let b = bare(cands[i].tlh);
        if word == b {
            Some((i, true))
        } else if spec_starts_with(word, b) {
            Some((i, false))
        } else {
            scan_from(cands, word, i + 1)
        }
    }
}

/// One matching step of the track matcher, recursively over the track:
/// the unmatched ending, the accumulated parse steps, and the remaining
/// slots of the track.
///
/// Candidates of the first slot are tried longest stem first. An exact
/// match of the bare stem ends matching with an empty ending and leaves
/// the slot itself open; a proper prefix match consumes the slot and
/// recurses on the leftover with a boundary marker prepended if the stem
/// did not carry one; with no match a mandatory slot stops the track,
/// while an optional slot is skipped if the skip makes progress.
pub open spec fn spec_complete_pos(
    dict: Seq<WordModel>,
    parsed: Seq<(Seq<char>, ZrajmPOS)>,
    grammar: Seq<(ZrajmPOS, bool)>,
    word: Seq<char>,
) -> (Seq<char>, Seq<(Seq<char>, ZrajmPOS)>, Seq<(ZrajmPOS, bool)>)
    decreases grammar.len(),
{
    if grammar.len() == 0 {
        (word, parsed, Seq::empty())
    } else {
        let cands = sort_desc(by_pos(dict, grammar[0].0));
        match scan_from(cands, word, 0) {
            Option::Some((i, exact)) => {
                if exact {
                    (Seq::empty(), parsed, grammar)
                } else {
                    let w = cands[i];
                    let b = bare(w.tlh);
                    let rest = word.skip(b.len() as int);
                    let ending = if ends_hyphen(w.tlh) {
                        rest
                    } else {
                        seq!['-'] + rest
                    };
                    spec_complete_pos(
                        dict,
                        parsed.push((w.tlh, grammar[0].0)),
                        grammar.skip(1),
                        ending,
                    )
                }
            },
            Option::None => {
                if grammar[0].1 {
                    (word, parsed, grammar)
                } else {
                    let r = spec_complete_pos(dict, parsed, grammar.skip(1), word);
                    if r.0 == word {
                        (word, parsed, grammar)
                    } else {
                        r
                    }
                }
            },
        }
    }
}

fn clone_slots(v: &Vec<(ZrajmPOS, bool)>) -> (r: Vec<(ZrajmPOS, bool)>)
    ensures
        r@ == v@,
{
    let mut r: Vec<(ZrajmPOS, bool)> = Vec::new();
    let mut i: usize = 0;
    while i < v.len()
        invariant
            i <= v@.len(),
            r@ == v@.subrange(0, i as int),
        decreases v@.len() - i,
    {
        r.push(v[i]);
        proof {
            assert(r@ =~= v@.subrange(0, i + 1));
        }
        i = i + 1;
    }
    proof {
        assert(v@.subrange(0, v@.len() as int) =~= v@);
    }
    r
}

fn tail_slots(v: &Vec<(ZrajmPOS, bool)>) -> (r: Vec<(ZrajmPOS, bool)>)
    requires
        v@.len() >= 1,
    ensures
        r@ == v@.skip(1),
{
    let mut r: Vec<(ZrajmPOS, bool)> = Vec::new();
    let mut i: usize = 1;
    while i < v.len()
        invariant
            1 <= i <= v@.len(),
            r@ == v@.subrange(1, i as int),
        decreases v@.len() - i,
    {
        r.push(v[i]);
        proof {
            assert(r@ =~= v@.subrange(1, i + 1));
        }
        i = i + 1;
    }
    proof {
        assert(v@.subrange(1, v@.len() as int) =~= v@.skip(1));
    }
    r
}

fn clone_steps(v: &Vec<(String, ZrajmPOS)>) -> (r: Vec<(String, ZrajmPOS)>)
    ensures
        steps_view(r@) == steps_view(v@),
{
    let mut r: Vec<(String, ZrajmPOS)> = Vec::new();
    let mut i: usize = 0;
    proof {
        assert(steps_view(r@) =~= steps_view(v@).subrange(0, 0));
    }
    while i < v.len()
        invariant
            i <= v@.len(),
            steps_view(r@) == steps_view(v@).subrange(0, i as int),
        decreases v@.len() - i,
    {
        let st = (v[i].0.clone(), v[i].1);
        let ghost r_old = r@;
        r.push(st);
        proof {
            assert(steps_view(r_old).len() == r_old.len());
            assert forall|k: int| 0 <= k < i + 1 implies steps_view(r@)[k] == steps_view(
                v@,
            ).subrange(0, i + 1)[k] by {
                assert(steps_view(r@)[k] == (r@[k].0@, r@[k].1));
                if k < i {
                    assert(r@[k] == r_old[k]);
                    assert(steps_view(r_old)[k] == steps_view(v@).subrange(0, i as int)[k]);
                }
                assert(steps_view(v@).subrange(0, i + 1)[k] == (v@[k].0@, v@[k].1));
            }
            assert(steps_view(r@) =~= steps_view(v@).subrange(0, i + 1));
        }
        i = i + 1;
    }
    proof {
        assert(steps_view(v@).subrange(0, v@.len() as int) =~= steps_view(v@));
    }
    r
}

/// Matches `word` against the track `grammar`, consuming dictionary stems
/// greedily (longest first). Returns the unmatched ending, the parse steps
/// taken so far, and the slots of the track still unresolved.
pub fn complete_pos(
    dict: &ZrajmDictionary,
    parsed: Vec<(String, ZrajmPOS)>,
    grammar: &Vec<(ZrajmPOS, bool)>,
    word: &str,
) -> (r: (String, Vec<(String, ZrajmPOS)>, Vec<(ZrajmPOS, bool)>))
    ensures
        ({
            let s = spec_complete_pos(dict@, steps_view(parsed@), grammar@, word@);
            r.0@ == s.0 && steps_view(r.1@) == s.1 && r.2@ == s.2
        }),
    decreases grammar@.len(),
{
    if grammar.len() == 0 {
        let r = (word.to_owned(), parsed, Vec::new());
        proof {
            assert(r.2@ =~= Seq::<(ZrajmPOS, bool)>::empty());
        }
        return r;
    }
    let slot_pos = grammar[0].0;
    let mandatory = grammar[0].1;
    let cands = sorted_desc(dict.entries_by_pos(slot_pos));
    let ghost cv = words_view(cands@);
    let n = cands.len();
    let mut i: usize = 0;
    while i < n
        invariant
            i <= n,
            n == cands@.len(),
            cv == words_view(cands@),
            cv == sort_desc(by_pos(dict@, grammar@[0].0)),
            grammar@.len() > 0,
            slot_pos == grammar@[0].0,
            scan_from(cv, word@, 0) == scan_from(cv, word@, i as int),
        decreases n - i,
    {
        proof {
            assert(cv[i as int] == cands@[i as int]@);
        }
        let tlh_str: &str = cands[i].tlh.as_str();
        let bl = bare_len(tlh_str);
        proof {
            lemma_bare_prefix(tlh_str@);
        }
        let bare_str: &str = tlh_str.substring_char(0, bl);
        proof {
            assert(bare_str@ == bare(cv[i as int].tlh));
        }
        if str_eq(word, bare_str) {
            proof {
                assert(scan_from(cv, word@, i as int) == Some((i as int, true)));
            }
            let r = (String::new(), parsed, clone_slots(grammar));
            return r;
        }
        if str_starts_with(word, bare_str) {
            proof {
                assert(scan_from(cv, word@, i as int) == Some((i as int, false)));
            }
            let tn = tlh_str.unicode_len();
            let wn = word.unicode_len();
            proof {
                assert(bl <= tn);
                assert(bl <= wn);
            }
            let restpart: &str = word.substring_char(bl, wn);
            let hyphened = bl < tn;
            proof {
                let t = cv[i as int].tlh;
                if bl < tn {
                    lemma_bare_prefix(t);
                    if !ends_hyphen(t) {
                        assert(bare(t) == t);
                        assert(false);
                    }
                } else {
                    assert(bare(t) == t.subrange(0, bl as int));
                    assert(t.subrange(0, bl as int) =~= t);
                    if ends_hyphen(t) {
                        lemma_bare_prefix(t.drop_last());
                        assert(bare(t) == bare(t.drop_last()));
                        assert(bare(t).len() < t.len());
                        assert(false);
                    }
                }
            }
            let ending: String = if hyphened {
                restpart.to_owned()
            } else {
                let mut e = String::from_str("-");
                e.append(restpart);
                proof {
                    reveal_strlit("-");
                    assert("-"@ =~= seq!['-']);
                }
                e
            };
            let mut parsed2 = parsed;
            let ghost parsed2_old = parsed2@;
            parsed2.push((cands[i].tlh.clone(), slot_pos));
            proof {
                let target = steps_view(parsed2_old).push((cv[i as int].tlh, grammar@[0].0));
                assert(steps_view(parsed2_old).len() == parsed2_old.len());
                assert forall|k: int| 0 <= k < parsed2@.len() implies steps_view(parsed2@)[k]
                    == target[k] by {
                    assert(steps_view(parsed2@)[k] == (parsed2@[k].0@, parsed2@[k].1));
                    if k < parsed2_old.len() {
                        assert(parsed2@[k] == parsed2_old[k]);
                        assert(steps_view(parsed2_old)[k] == (parsed2_old[k].0@, parsed2_old[k].1));
                    }
                }
                assert(steps_view(parsed2@) =~= target);
            }
            let tail = tail_slots(grammar);
            let result = complete_pos(dict, parsed2, &tail, ending.as_str());
            return result;
        }
        proof {
            assert(scan_from(cv, word@, i as int) == scan_from(cv, word@, i as int + 1));
        }
        i = i + 1;
    }
    proof {
        assert(scan_from(cv, word@, n as int) == None::<(int, bool)>);
    }
    if mandatory {
        return (word.to_owned(), parsed, clone_slots(grammar));
    }
    let tail = tail_slots(grammar);
    let parsed_copy = clone_steps(&parsed);
    let sub = complete_pos(dict, parsed_copy, &tail, word);
    if str_eq(sub.0.as_str(), word) {
        (word.to_owned(), parsed, clone_slots(grammar))
    } else {
        sub
    }
}

/// The entries of a given part of speech and exact surface text, in
/// dictionary order: the homonym alternatives of one parse step.
pub open spec fn by_pos_text(
    ws: Seq<WordModel>,
    pos: ZrajmPOS,
    text: Seq<char>,
) -> Seq<WordModel>
    decreases ws.len(),
{
    if ws.len() == 0 {
        Seq::empty()
    } else if ws.last().pos == pos && ws.last().tlh == text {
        by_pos_text(ws.drop_last(), pos, text).push(ws.last())
    } else {
        by_pos_text(ws.drop_last(), pos, text)
    }
}

/// Insertion into a list ordered by the entry order, keeping the first of
/// entries that compare equal.
pub open spec fn ord_insert(x: WordModel, s: Seq<WordModel>) -> Seq<WordModel>
    decreases s.len(),
{
    if s.len() == 0 {
        seq![x]
    } else {
        match cmp_word(x, s[0]) {
            Ordering::Less => seq![x] + s,
            Ordering::Equal => s,
            Ordering::Greater => seq![s[0]] + ord_insert(x, s.skip(1)),
        }
    }
}

/// The ordered, de-duplicated set of entries for one parse step.
pub open spec fn slot_set(ws: Seq<WordModel>) -> Seq<WordModel>
    decreases ws.len(),
{
    if ws.len() == 0 {
        Seq::empty()
    } else {
        ord_insert(ws.last(), slot_set(ws.drop_last()))
    }
}

/// The parse-step entry sets of a matching run.
pub open spec fn slot_sets(
    dict: Seq<WordModel>,
    steps: Seq<(Seq<char>, ZrajmPOS)>,
) -> Seq<Seq<WordModel>> {
    steps.map_values(|st: (Seq<char>, ZrajmPOS)| slot_set(by_pos_text(dict, st.1, st.0)))
}

/// Adds to `acc` every entry of `entries` whose surface text starts with
/// `ending`, in order and without duplicates.
pub open spec fn add_matching(
    acc: Seq<WordModel>,
    entries: Seq<WordModel>,
    ending: Seq<char>,
) -> Seq<WordModel>
    decreases entries.len(),
{
    if entries.len() == 0 {
        acc
    } else {
        let prev = add_matching(acc, entries.drop_last(), ending);
        let e = entries.last();
        if spec_starts_with(e.tlh, ending) && !prev.contains(e) {
            prev.push(e)
        } else {
            prev
        }
    }
}

/// Collects continuation candidates from the remaining slots, slot by
/// slot, stopping right after the first mandatory slot.
pub open spec fn scan_slots(
    dict: Seq<WordModel>,
    rem: Seq<(ZrajmPOS, bool)>,
    ending: Seq<char>,
    acc: Seq<WordModel>,
) -> Seq<WordModel>
    decreases rem.len(),
{
    if rem.len() == 0 {
        acc
    } else {
        let acc2 = add_matching(acc, by_pos(dict, rem[0].0), ending);
        if rem[0].1 {
            acc2
        } else {
            scan_slots(dict, rem.skip(1), ending, acc2)
        }
    }
}

/// One track's completion run: the unmatched ending, the parse steps
/// mapped back to their homonym entry sets, and the continuation
/// candidates of the remaining slots.
pub open spec fn spec_complete_grammar(
    dict: Seq<WordModel>,
    track: Seq<(ZrajmPOS, bool)>,
    word: Seq<char>,
) -> (Seq<char>, Seq<Seq<WordModel>>, Seq<WordModel>) {
    let r = spec_complete_pos(dict, Seq::empty(), track, word);
    (r.0, slot_sets(dict, r.1), scan_slots(dict, r.2, r.0, Seq::empty()))
}

/// The views of a sequence of entry lists.
pub open spec fn slots_view(s: Seq<Vec<ZrajmWord>>) -> Seq<Seq<WordModel>> {
    s.map_values(|v: Vec<ZrajmWord>| words_view(v@))
}

fn strs_eq(a: &Vec<String>, b: &Vec<String>) -> (r: bool)
    ensures
        r == (crate::zrajm::strings_view(a@) == crate::zrajm::strings_view(b@)),
{
    let ghost av = crate::zrajm::strings_view(a@);
    let ghost bv = crate::zrajm::strings_view(b@);
    proof {
        assert(av.len() == a@.len());
        assert(bv.len() == b@.len());
    }
    if a.len() != b.len() {
        return false;
    }
    let mut i: usize = 0;
    while i < a.len()
        invariant
            i <= a@.len(),
            a@.len() == b@.len(),
            av == crate::zrajm::strings_view(a@),
            bv == crate::zrajm::strings_view(b@),
            av.len() == a@.len(),
            bv.len() == b@.len(),
            forall|j: int| 0 <= j < i ==> av[j] == bv[j],
        decreases a@.len() - i,
    {
        if !str_eq(a[i].as_str(), b[i].as_str()) {
            proof {
                assert(av[i as int] == a@[i as int]@);
                assert(bv[i as int] == b@[i as int]@);
                if av == bv {
                    assert(av[i as int] == bv[i as int]);
                }
            }
            return false;
        }
        proof {
            assert(av[i as int] == a@[i as int]@);
            assert(bv[i as int] == b@[i as int]@);
        }
        i = i + 1;
    }
    proof {
        assert(av =~= bv);
    }
    true
}

fn pairs_eq(a: &Vec<(String, String)>, b: &Vec<(String, String)>) -> (r: bool)
    ensures
        r == (crate::zrajm::pairs_view(a@) == crate::zrajm::pairs_view(b@)),
{
    let ghost av = crate::zrajm::pairs_view(a@);
    let ghost bv = crate::zrajm::pairs_view(b@);
    proof {
        assert(av.len() == a@.len());
        assert(bv.len() == b@.len());
    }
    if a.len() != b.len() {
        return false;
    }
    let mut i: usize = 0;
    while i < a.len()
        invariant
            i <= a@.len(),
            a@.len() == b@.len(),
            av == crate::zrajm::pairs_view(a@),
            bv == crate::zrajm::pairs_view(b@),
            av.len() == a@.len(),
            bv.len() == b@.len(),
            forall|j: int| 0 <= j < i ==> av[j] == bv[j],
        decreases a@.len() - i,
    {
        proof {
            assert(av[i as int] == (a@[i as int].0@, a@[i as int].1@));
            assert(bv[i as int] == (b@[i as int].0@, b@[i as int].1@));
        }
        if !str_eq(a[i].0.as_str(), b[i].0.as_str()) {
            proof {
                if av == bv {
                    assert(av[i as int] == bv[i as int]);
                }
            }
            return false;
        }
        if !str_eq(a[i].1.as_str(), b[i].1.as_str()) {
            proof {
                if av == bv {
                    assert(av[i as int] == bv[i as int]);
                }
            }
            return false;
        }
        i = i + 1;
    }
    proof {
        assert(av =~= bv);
    }
    true
}

/// Whether two entries hold the same content in every field.
fn word_eq(a: &ZrajmWord, b: &ZrajmWord) -> (r: bool)
    ensures
        r == (a@ == b@),
{
    let same = a.homonym == b.homonym && a.sense == b.sense && a.subsense == b.subsense && a.pos
        == b.pos && str_eq(a.tlh.as_str(), b.tlh.as_str()) && str_eq(a.id.as_str(), b.id.as_str())
        && strs_eq(&a.en, &b.en) && strs_eq(&a.sv, &b.sv) && strs_eq(&a.tag, &b.tag) && strs_eq(
        &a.data,
        &b.data,
    ) && pairs_eq(&a.fields, &b.fields);
    proof {
        if same {
            assert(a@ =~= b@);
        }
        if a@ == b@ {
            assert(a@.homonym == b@.homonym);
            assert(a@.tlh == b@.tlh);
            assert(a@.id == b@.id);
            assert(a@.en == b@.en);
            assert(a@.sv == b@.sv);
            assert(a@.tag == b@.tag);
            assert(a@.data == b@.data);
            assert(a@.fields == b@.fields);
        }
    }
    same
}

fn contains_word(v: &Vec<ZrajmWord>, x: &ZrajmWord) -> (r: bool)
    ensures
        r == words_view(v@).contains(x@),
{
    let mut i: usize = 0;
    while i < v.len()
        invariant
            i <= v@.len(),
            forall|j: int| 0 <= j < i ==> words_view(v@)[j] != x@,
        decreases v@.len() - i,
    {
        proof {
            assert(words_view(v@)[i as int] == v@[i as int]@);
        }
        if word_eq(&v[i], x) {
            proof {
                assert(words_view(v@)[i as int] == x@);
            }
            return true;
        }
        i = i + 1;
    }
    proof {
        if words_view(v@).contains(x@) {
            let j = choose|j: int| 0 <= j < words_view(v@).len() && words_view(v@)[j] == x@;
            assert(words_view(v@)[j] != x@);
        }
    }
    false
}

proof fn lemma_ord_insert_at(x: WordModel, s: Seq<WordModel>, p: int)
    requires
        0 <= p <= s.len(),
        forall|j: int| 0 <= j < p ==> cmp_word(x, #[trigger] s[j]) == Ordering::Greater,
    ensures
        p == s.len() ==> ord_insert(x, s) == s.push(x),
        p < s.len() && cmp_word(x, s[p]) == Ordering::Equal ==> ord_insert(x, s) == s,
        p < s.len() && cmp_word(x, s[p]) == Ordering::Less ==> ord_insert(x, s) == s.subrange(
            0,
            p,
        ) + seq![x] + s.subrange(p, s.len() as int),
    decreases s.len(),
{
    if s.len() == 0 {
        assert(ord_insert(x, s) =~= s.push(x));
    } else if p == 0 {
        if cmp_word(x, s[0]) == Ordering::Less {
            assert(ord_insert(x, s) =~= s.subrange(0, p) + seq![x] + s.subrange(
                p,
                s.len() as int,
            ));
        }
    } else {
        assert(cmp_word(x, s[0]) == Ordering::Greater);
        assert forall|j: int| 0 <= j < p - 1 implies cmp_word(x, #[trigger] s.skip(1)[j])
            == Ordering::Greater by {
            assert(s.skip(1)[j] == s[j + 1]);
        }
        lemma_ord_insert_at(x, s.skip(1), p - 1);
        if p == s.len() {
            assert(ord_insert(x, s) =~= s.push(x));
        } else {
            assert(s.skip(1)[p - 1] == s[p]);
            if cmp_word(x, s[p]) == Ordering::Equal {
                assert(ord_insert(x, s) =~= s);
            } else if cmp_word(x, s[p]) == Ordering::Less {
                assert(ord_insert(x, s) =~= s.subrange(0, p) + seq![x] + s.subrange(
                    p,
                    s.len() as int,
                ));
            }
        }
    }
}

fn ord_insert_exec(slotv: &mut Vec<ZrajmWord>, w: ZrajmWord)
    ensures
        words_view(final(slotv)@) == ord_insert(w@, words_view(old(slotv)@)),
{
    let ghost sv = words_view(slotv@);
    let ghost x = w@;
    let mut p: usize = 0;
    while p < slotv.len()
        invariant
            p <= slotv@.len(),
            sv == words_view(slotv@),
            x == w@,
            slotv@ == old(slotv)@,
            forall|j: int| 0 <= j < p ==> cmp_word(x, #[trigger] sv[j]) == Ordering::Greater,
        decreases slotv@.len() - p,
    {
        proof {
            assert(sv[p as int] == slotv@[p as int]@);
        }
        match w.cmp(&slotv[p]) {
            Ordering::Less => {
                let ghost s_old = slotv@;
                slotv.insert(p, w);
                proof {
                    lemma_ord_insert_at(x, sv, p as int);
                    assert forall|k: int| 0 <= k < slotv@.len() implies words_view(slotv@)[k] == (
                    sv.subrange(0, p as int) + seq![x] + sv.subrange(
                        p as int,
                        sv.len() as int,
                    ))[k] by {
                        assert(words_view(slotv@)[k] == slotv@[k]@);
                        if k < p {
                            assert(slotv@[k] == s_old[k]);
                            assert(sv[k] == s_old[k]@);
                        } else if k > p {
                            assert(slotv@[k] == s_old[k - 1]);
                            assert(sv[k - 1] == s_old[k - 1]@);
                        }
                    }
                    assert(words_view(slotv@) =~= sv.subrange(0, p as int) + seq![x]
                        + sv.subrange(p as int, sv.len() as int));
                }
                return ;
            },
            Ordering::Equal => {
                proof {
                    lemma_ord_insert_at(x, sv, p as int);
                }
                return ;
            },
            Ordering::Greater => {
                p = p + 1;
            },
        }
    }
    let ghost s_old = slotv@;
    slotv.push(w);
    proof {
        lemma_ord_insert_at(x, sv, sv.len() as int);
        assert forall|k: int| 0 <= k < slotv@.len() implies words_view(slotv@)[k] == sv.push(
            x,
        )[k] by {
            assert(words_view(slotv@)[k] == slotv@[k]@);
            if k < s_old.len() {
                assert(slotv@[k] == s_old[k]);
                assert(sv[k] == s_old[k]@);
            }
        }
        assert(words_view(slotv@) =~= sv.push(x));
    }
}

/// Runs the track matcher for one track and interprets its result: the
/// unmatched ending, each consumed parse step as the set of entries
/// sharing its text and part of speech, and the continuation candidates
/// collected from the remaining slots up to the first mandatory one.
pub fn complete_grammar(
    dict: &ZrajmDictionary,
    grammar: &Vec<(ZrajmPOS, bool)>,
    word: &str,
) -> (r: (String, Vec<Vec<ZrajmWord>>, Vec<ZrajmWord>))
    ensures
        ({
            let s = spec_complete_grammar(dict@, grammar@, word@);
            r.0@ == s.0 && slots_view(r.1@) == s.1 && words_view(r.2@) == s.2
        }),
{
    proof {
        assert(steps_view(Seq::<(String, ZrajmPOS)>::empty()) =~= Seq::<
            (Seq<char>, ZrajmPOS),
        >::empty());
    }
    let matched = complete_pos(dict, Vec::new(), grammar, word);
    let ending = matched.0;
    let steps = matched.1;
    let rem = matched.2;
    let ghost m = spec_complete_pos(dict@, Seq::empty(), grammar@, word@);
    let mut parsed_sets: Vec<Vec<ZrajmWord>> = Vec::new();
    let mut si: usize = 0;
    proof {
        assert(slots_view(parsed_sets@) =~= slot_sets(dict@, m.1.subrange(0, 0)));
    }
    while si < steps.len()
        invariant
            si <= steps@.len(),
            steps_view(steps@) == m.1,
            m.1.len() == steps@.len(),
            slots_view(parsed_sets@) == slot_sets(dict@, m.1.subrange(0, si as int)),
        decreases steps@.len() - si,
    {
        let ghost step = m.1[si as int];
        proof {
            assert(step == (steps@[si as int].0@, steps@[si as int].1));
        }
        let mut slotv: Vec<ZrajmWord> = Vec::new();
        let mut di: usize = 0;
        proof {
            assert(words_view(slotv@) =~= slot_set(
                by_pos_text(dict@.subrange(0, 0), step.1, step.0),
            ));
            assert(by_pos_text(dict@.subrange(0, 0), step.1, step.0) =~= Seq::<
                WordModel,
            >::empty());
        }
        while di < dict.words.len()
            invariant
                di <= dict.words@.len(),
                dict@.len() == dict.words@.len(),
                step == (steps@[si as int].0@, steps@[si as int].1),
                si < steps@.len(),
                words_view(slotv@) == slot_set(
                    by_pos_text(dict@.subrange(0, di as int), step.1, step.0),
                ),
            decreases dict.words@.len() - di,
        {
            let ghost upto = dict@.subrange(0, di as int + 1);
            proof {
                assert(upto.drop_last() =~= dict@.subrange(0, di as int));
                assert(upto.last() == dict@[di as int]);
                assert(dict@[di as int] == dict.words@[di as int]@);
            }
            let ghost prevf = by_pos_text(dict@.subrange(0, di as int), step.1, step.0);
            let is_pos = dict.words[di].pos == steps[si].1;
            if is_pos && str_eq(dict.words[di].tlh.as_str(), steps[si].0.as_str()) {
                let w = dict.words[di].duplicate();
                ord_insert_exec(&mut slotv, w);
                proof {
                    assert(by_pos_text(upto, step.1, step.0) == prevf.push(dict@[di as int]));
                    assert(prevf.push(dict@[di as int]).drop_last() =~= prevf);
                    assert(slot_set(by_pos_text(upto, step.1, step.0)) == ord_insert(
                        dict@[di as int],
                        slot_set(prevf),
                    ));
                }
            } else {
                proof {
                    assert(by_pos_text(upto, step.1, step.0) == prevf);
                }
            }
            di = di + 1;
        }
        proof {
            assert(dict@.subrange(0, dict@.len() as int) =~= dict@);
        }
        let ghost ps_old = parsed_sets@;
        parsed_sets.push(slotv);
        proof {
            let target = slot_sets(dict@, m.1.subrange(0, si as int + 1));
            assert(slots_view(ps_old).len() == ps_old.len());
            assert(m.1.subrange(0, si as int + 1)[si as int] == m.1[si as int]);
            assert forall|k: int| 0 <= k < parsed_sets@.len() implies slots_view(
                parsed_sets@,
            )[k] == target[k] by {
                assert(slots_view(parsed_sets@)[k] == words_view(parsed_sets@[k]@));
                assert(m.1.subrange(0, si as int + 1)[k] == m.1[k]);
                if k < si {
                    assert(parsed_sets@[k] == ps_old[k]);
                    assert(slots_view(ps_old)[k] == words_view(ps_old[k]@));
                    assert(m.1.subrange(0, si as int)[k] == m.1[k]);
                }
            }
            assert(slots_view(parsed_sets@) =~= target);
        }
        si = si + 1;
    }
    proof {
        assert(m.1.subrange(0, m.1.len() as int) =~= m.1);
    }
    let mut suggs: Vec<ZrajmWord> = Vec::new();
    let mut j: usize = 0;
    let mut done: bool = false;
    proof {
        assert(rem@.skip(0) =~= rem@);
        assert(words_view(suggs@) =~= Seq::<WordModel>::empty());
    }
    while j < rem.len() && !done
        invariant
            j <= rem@.len(),
            rem@ == m.2,
            ending@ == m.0,
            !done ==> scan_slots(dict@, m.2.skip(j as int), m.0, words_view(suggs@))
                == scan_slots(dict@, m.2, m.0, Seq::<WordModel>::empty()),
            done ==> words_view(suggs@) == scan_slots(
                dict@,
                m.2,
                m.0,
                Seq::<WordModel>::empty(),
            ),
        decreases rem@.len() - j + (if done {
            0int
        } else {
            1int
        }),
    {
        let entries = dict.entries_by_pos(rem[j].0);
        let ghost ev = words_view(entries@);
        let ghost acc0 = words_view(suggs@);
        let mut e: usize = 0;
        proof {
            assert(ev.subrange(0, 0) =~= Seq::<WordModel>::empty());
            assert(add_matching(acc0, ev.subrange(0, 0), m.0) == acc0);
        }
        while e < entries.len()
            invariant
                e <= entries@.len(),
                ev == words_view(entries@),
                ev.len() == entries@.len(),
                ending@ == m.0,
                words_view(suggs@) == add_matching(acc0, ev.subrange(0, e as int), m.0),
            decreases entries@.len() - e,
        {
            let ghost upto = ev.subrange(0, e as int + 1);
            proof {
                assert(upto.drop_last() =~= ev.subrange(0, e as int));
                assert(upto.last() == ev[e as int]);
                assert(ev[e as int] == entries@[e as int]@);
            }
            if str_starts_with(entries[e].tlh.as_str(), ending.as_str()) {
                if !contains_word(&suggs, &entries[e]) {
                    let w = entries[e].duplicate();
                    let ghost sg_old = suggs@;
                    suggs.push(w);
                    proof {
                        assert(words_view(sg_old).len() == sg_old.len());
                        assert forall|k: int| 0 <= k < suggs@.len() implies words_view(
                            suggs@,
                        )[k] == words_view(sg_old).push(ev[e as int])[k] by {
                            assert(words_view(suggs@)[k] == suggs@[k]@);
                            if k < sg_old.len() {
                                assert(suggs@[k] == sg_old[k]);
                                assert(words_view(sg_old)[k] == sg_old[k]@);
                            }
                        }
                        assert(words_view(suggs@) =~= words_view(sg_old).push(ev[e as int]));
                    }
                }
            }
            e = e + 1;
        }
        proof {
            assert(ev.subrange(0, ev.len() as int) =~= ev);
            assert(words_view(suggs@) == add_matching(acc0, by_pos(dict@, m.2[j as int].0), m.0));
        }
        if rem[j].1 {
            done = true;
            proof {
                assert(m.2.skip(j as int)[0] == m.2[j as int]);
                assert(scan_slots(dict@, m.2.skip(j as int), m.0, acc0) == words_view(suggs@));
            }
        } else {
            proof {
                assert(m.2.skip(j as int)[0] == m.2[j as int]);
                assert(m.2.skip(j as int).skip(1) =~= m.2.skip(j as int + 1));
            }
            j = j + 1;
        }
    }
    proof {
        if !done {
            assert(m.2.skip(j as int).len() == 0);
            assert(scan_slots(dict@, m.2.skip(j as int), m.0, words_view(suggs@))
                == words_view(suggs@));
        }
    }
    (ending, parsed_sets, suggs)
}

/// The suggestion order: entries whose surface text starts with the
/// originally typed word come first; ties break by the entry order.
pub open spec fn cmp_sugg(word: Seq<char>, a: WordModel, b: WordModel) -> Ordering {
    let asw = spec_starts_with(a.tlh, word);
    let bsw = spec_starts_with(b.tlh, word);
    if asw && !bsw {
        Ordering::Less
    } else if !asw && bsw {
        Ordering::Greater
    } else {
        cmp_word(a, b)
    }
}

proof fn lemma_word_le_trans(a: WordModel, b: WordModel, c: WordModel)
    requires
        cmp_word(a, b) != Ordering::Greater,
        cmp_word(b, c) != Ordering::Greater,
    ensures
        cmp_word(a, c) != Ordering::Greater,
{
    match cmp_word(a, b) {
        Ordering::Less => {
            match cmp_word(b, c) {
                Ordering::Less => {
                    crate::zrajm::lemma_word_cmp_transitive(a, b, c);
                },
                Ordering::Equal => {
                    crate::zrajm::lemma_word_cmp_congruent(b, c, a);
                },
                Ordering::Greater => {},
            }
        },
        Ordering::Equal => {
            crate::zrajm::lemma_word_cmp_congruent(a, b, c);
        },
        Ordering::Greater => {},
    }
}

proof fn lemma_sugg_antisymmetric(word: Seq<char>, a: WordModel, b: WordModel)
    ensures
        cmp_sugg(word, b, a) == crate::klingon::reverse_ord(cmp_sugg(word, a, b)),
{
    crate::zrajm::lemma_word_cmp_antisymmetric(a, b);
}

proof fn lemma_sugg_le_trans(word: Seq<char>, a: WordModel, b: WordModel, c: WordModel)
    requires
        cmp_sugg(word, a, b) != Ordering::Greater,
        cmp_sugg(word, b, c) != Ordering::Greater,
    ensures
        cmp_sugg(word, a, c) != Ordering::Greater,
{
    let asw = spec_starts_with(a.tlh, word);
    let bsw = spec_starts_with(b.tlh, word);
    let csw = spec_starts_with(c.tlh, word);
    if asw == bsw && bsw == csw {
        lemma_word_le_trans(a, b, c);
    }
}

/// Stable insertion in the suggestion order: the new entry lands after
/// every entry it does not strictly precede.
pub open spec fn insert_sugg(word: Seq<char>, x: WordModel, s: Seq<WordModel>) -> Seq<WordModel>
    decreases s.len(),
{
    if s.len() == 0 {
        seq![x]
    } else if cmp_sugg(word, x, s[0]) == Ordering::Less {
        seq![x] + s
    } else {
        seq![s[0]] + insert_sugg(word, x, s.skip(1))
    }
}

/// Stable sort of the merged suggestions in the suggestion order.
pub open spec fn sort_suggs(word: Seq<char>, s: Seq<WordModel>) -> Seq<WordModel>
    decreases s.len(),
{
    if s.len() == 0 {
        Seq::empty()
    } else {
        insert_sugg(word, s.last(), sort_suggs(word, s.drop_last()))
    }
}

/// Whether a suggestion list never places an entry after one it strictly
/// precedes.
pub open spec fn sugg_sorted(word: Seq<char>, s: Seq<WordModel>) -> bool {
    forall|i: int, j: int|
        0 <= i < j < s.len() ==> cmp_sugg(word, #[trigger] s[i], #[trigger] s[j])
            != Ordering::Greater
}

proof fn lemma_insert_sugg_membership(word: Seq<char>, x: WordModel, s: Seq<WordModel>, w: WordModel)
    ensures
        insert_sugg(word, x, s).contains(w) <==> (w == x || s.contains(w)),
    decreases s.len(),
{
    let out = insert_sugg(word, x, s);
    if s.len() == 0 {
        assert(out[0] == x);
        if w == x {
            assert(out.contains(w));
        }
        if out.contains(w) {
            let k = choose|k: int| 0 <= k < out.len() && out[k] == w;
            assert(w == x);
        }
        if s.contains(w) {
            let k = choose|k: int| 0 <= k < s.len() && s[k] == w;
            assert(false);
        }
    } else if cmp_sugg(word, x, s[0]) == Ordering::Less {
        assert(out == seq![x] + s);
        if w == x {
            assert(out[0] == w);
            assert(out.contains(w));
        }
        if s.contains(w) {
            let k = choose|k: int| 0 <= k < s.len() && s[k] == w;
            assert(out[k + 1] == w);
            assert(out.contains(w));
        }
        if out.contains(w) {
            let k = choose|k: int| 0 <= k < out.len() && out[k] == w;
            if k > 0 {
                assert(s[k - 1] == w);
                assert(s.contains(w));
            }
        }
    } else {
        let sub = insert_sugg(word, x, s.skip(1));
        lemma_insert_sugg_membership(word, x, s.skip(1), w);
        assert(out == seq![s[0]] + sub);
        if w == x || s.contains(w) {
            if w == x {
                let k = choose|k: int| 0 <= k < sub.len() && sub[k] == w;
                assert(out[k + 1] == w);
                assert(out.contains(w));
            } else {
                let k = choose|k: int| 0 <= k < s.len() && s[k] == w;
                if k == 0 {
                    assert(out[0] == w);
                    assert(out.contains(w));
                } else {
                    assert(s.skip(1)[k - 1] == w);
                    assert(s.skip(1).contains(w));
                    let k2 = choose|k2: int| 0 <= k2 < sub.len() && sub[k2] == w;
                    assert(out[k2 + 1] == w);
                    assert(out.contains(w));
                }
            }
        }
        if out.contains(w) {
            let k = choose|k: int| 0 <= k < out.len() && out[k] == w;
            if k == 0 {
                assert(s[0] == w);
                assert(s.contains(w));
            } else {
                assert(sub[k - 1] == w);
                assert(sub.contains(w));
                if !(w == x) {
                    let k2 = choose|k2: int| 0 <= k2 < s.skip(1).len() && s.skip(1)[k2] == w;
                    assert(s[k2 + 1] == w);
                    assert(s.contains(w));
                }
            }
        }
    }
}

proof fn lemma_insert_sugg_sorted(word: Seq<char>, x: WordModel, s: Seq<WordModel>)
    requires
        sugg_sorted(word, s),
    ensures
        sugg_sorted(word, insert_sugg(word, x, s)),
    decreases s.len(),
{
    let out = insert_sugg(word, x, s);
    if s.len() == 0 {
    } else if cmp_sugg(word, x, s[0]) == Ordering::Less {
        assert(out == seq![x] + s);
        assert forall|i: int, j: int| 0 <= i < j < out.len() implies cmp_sugg(
            word,
            out[i],
            out[j],
        ) != Ordering::Greater by {
            if i == 0 {
                assert(out[0] == x);
                assert(out[j] == s[j - 1]);
                if j - 1 > 0 {
                    assert(cmp_sugg(word, s[0], s[j - 1]) != Ordering::Greater);
                    lemma_sugg_le_trans(word, x, s[0], s[j - 1]);
                }
            } else {
                assert(out[i] == s[i - 1]);
                assert(out[j] == s[j - 1]);
            }
        }
    } else {
        let sub = insert_sugg(word, x, s.skip(1));
        assert(out == seq![s[0]] + sub);
        assert forall|i2: int, j2: int|
            0 <= i2 < j2 < s.skip(1).len() implies cmp_sugg(
            word,
            #[trigger] s.skip(1)[i2],
            #[trigger] s.skip(1)[j2],
        ) != Ordering::Greater by {
            assert(s.skip(1)[i2] == s[i2 + 1]);
            assert(s.skip(1)[j2] == s[j2 + 1]);
        }
        lemma_insert_sugg_sorted(word, x, s.skip(1));
        lemma_sugg_antisymmetric(word, x, s[0]);
        assert forall|i: int, j: int| 0 <= i < j < out.len() implies cmp_sugg(
            word,
            out[i],
            out[j],
        ) != Ordering::Greater by {
            if i == 0 {
                assert(out[j] == sub[j - 1]);
                assert(sub.contains(sub[j - 1]));
                lemma_insert_sugg_membership(word, x, s.skip(1), sub[j - 1]);
                if sub[j - 1] == x {
                    assert(cmp_sugg(word, s[0], x) != Ordering::Greater);
                } else {
                    let k = choose|k: int|
                        0 <= k < s.skip(1).len() && s.skip(1)[k] == sub[j - 1];
                    assert(s[k + 1] == sub[j - 1]);
                    assert(cmp_sugg(word, s[0], s[k + 1]) != Ordering::Greater);
                }
            } else {
                assert(out[i] == sub[i - 1]);
                assert(out[j] == sub[j - 1]);
            }
        }
    }
}

/// The ranked suggestion list is always ordered: entries whose text
/// starts with the typed word come before all others, and ties are
/// broken by the dictionary entry order.
pub proof fn lemma_sort_suggs_sorted(word: Seq<char>, s: Seq<WordModel>)
    ensures
        sugg_sorted(word, sort_suggs(word, s)),
    decreases s.len(),
{
    if s.len() > 0 {
        lemma_sort_suggs_sorted(word, s.drop_last());
        lemma_insert_sugg_sorted(word, s.last(), sort_suggs(word, s.drop_last()));
    }
}

/// Entries added by one slot's collection step start with the remainder.
proof fn lemma_add_matching_starts(
    acc: Seq<WordModel>,
    entries: Seq<WordModel>,
    ending: Seq<char>,
    w: WordModel,
)
    requires
        add_matching(acc, entries, ending).contains(w),
    ensures
        acc.contains(w) || spec_starts_with(w.tlh, ending),
    decreases entries.len(),
{
    if entries.len() > 0 {
        let prev = add_matching(acc, entries.drop_last(), ending);
        let e = entries.last();
        let out = add_matching(acc, entries, ending);
        if spec_starts_with(e.tlh, ending) && !prev.contains(e) {
            let k = choose|k: int| 0 <= k < out.len() && out[k] == w;
            if k < prev.len() {
                assert(prev[k] == w);
                assert(prev.contains(w));
                lemma_add_matching_starts(acc, entries.drop_last(), ending, w);
            } else {
                assert(w == e);
            }
        } else {
            lemma_add_matching_starts(acc, entries.drop_last(), ending, w);
        }
    }
}

proof fn lemma_scan_slots_starts(
    dict: Seq<WordModel>,
    rem: Seq<(ZrajmPOS, bool)>,
    ending: Seq<char>,
    acc: Seq<WordModel>,
    w: WordModel,
)
    requires
        scan_slots(dict, rem, ending, acc).contains(w),
    ensures
        acc.contains(w) || spec_starts_with(w.tlh, ending),
    decreases rem.len(),
{
    if rem.len() > 0 {
        let acc2 = add_matching(acc, by_pos(dict, rem[0].0), ending);
        if rem[0].1 {
            lemma_add_matching_starts(acc, by_pos(dict, rem[0].0), ending, w);
        } else {
            lemma_scan_slots_starts(dict, rem.skip(1), ending, acc2, w);
            if acc2.contains(w) {
                lemma_add_matching_starts(acc, by_pos(dict, rem[0].0), ending, w);
            }
        }
    }
}

/// Suggestions never include an entry whose surface text does not start
/// with the unmatched remainder of the track's matching run.
pub proof fn lemma_suggestions_start_with_ending(
    dict: Seq<WordModel>,
    track: Seq<(ZrajmPOS, bool)>,
    word: Seq<char>,
    w: WordModel,
)
    requires
        spec_complete_grammar(dict, track, word).2.contains(w),
    ensures
        spec_starts_with(w.tlh, spec_complete_grammar(dict, track, word).0),
{
    let r = spec_complete_pos(dict, Seq::empty(), track, word);
    lemma_scan_slots_starts(dict, r.2, r.0, Seq::empty(), w);
    if Seq::<WordModel>::empty().contains(w) {
        let k = choose|k: int|
            0 <= k < Seq::<WordModel>::empty().len() && Seq::<WordModel>::empty()[k] == w;
        assert(false);
    }
}

/// Matching the exact bare stem of a candidate against a track of one
/// mandatory slot ends with an empty ending, the parse steps unchanged,
/// and the slot still open.
pub proof fn lemma_exact_match_single_slot(
    dict: Seq<WordModel>,
    parsed: Seq<(Seq<char>, ZrajmPOS)>,
    pos: ZrajmPOS,
    word: Seq<char>,
)
    requires
        scan_from(sort_desc(by_pos(dict, pos)), word, 0) matches Some(h) && h.1,
    ensures
        spec_complete_pos(dict, parsed, seq![(pos, true)], word) == (
            Seq::<char>::empty(),
            parsed,
            seq![(pos, true)],
        ),
{
    let track = seq![(pos, true)];
    assert(track[0] == (pos, true));
}

/// When the word strictly extends a candidate's bare stem in a track of
/// one mandatory slot, the matcher consumes that stem and returns the
/// true leftover suffix as a non-empty ending, with a boundary marker
/// prepended when the stem did not carry one.
pub proof fn lemma_prefix_match_single_slot(
    dict: Seq<WordModel>,
    parsed: Seq<(Seq<char>, ZrajmPOS)>,
    pos: ZrajmPOS,
    word: Seq<char>,
    i: int,
)
    requires
        scan_from(sort_desc(by_pos(dict, pos)), word, 0) == Some((i, false)),
    ensures
        ({
            let cands = sort_desc(by_pos(dict, pos));
            let stem = bare(cands[i].tlh);
            let rest = word.skip(stem.len() as int);
            let ending = if ends_hyphen(cands[i].tlh) {
                rest
            } else {
                seq!['-'] + rest
            };
            spec_complete_pos(dict, parsed, seq![(pos, true)], word) == (
                ending,
                parsed.push((cands[i].tlh, pos)),
                Seq::<(ZrajmPOS, bool)>::empty(),
            ) && ending.len() > 0
        }),
{
    let track = seq![(pos, true)];
    assert(track[0] == (pos, true));
    let cands = sort_desc(by_pos(dict, pos));
    lemma_scan_prefix_proper(cands, word, 0, i);
    let stem = bare(cands[i].tlh);
    assert(word.len() > stem.len());
    assert(track.skip(1) =~= Seq::<(ZrajmPOS, bool)>::empty());
    let rest = word.skip(stem.len() as int);
    let ending = if ends_hyphen(cands[i].tlh) {
        rest
    } else {
        seq!['-'] + rest
    };
    assert(spec_complete_pos(dict, parsed.push((cands[i].tlh, pos)), track.skip(1), ending) == (
        ending,
        parsed.push((cands[i].tlh, pos)),
        Seq::<(ZrajmPOS, bool)>::empty(),
    ));
}

/// A prefix hit of the candidate scan is proper: the word is strictly
/// longer than the bare stem.
proof fn lemma_scan_prefix_proper(cands: Seq<WordModel>, word: Seq<char>, p: int, i: int)
    requires
        0 <= p,
        scan_from(cands, word, p) == Some((i, false)),
    ensures
        0 <= i < cands.len(),
        spec_starts_with(word, bare(cands[i].tlh)),
        word != bare(cands[i].tlh),
        word.len() > bare(cands[i].tlh).len(),
    decreases cands.len() - p,
{
    if p < cands.len() {
        let b = bare(cands[p].tlh);
        if word == b {
        } else if spec_starts_with(word, b) {
            if word.len() == b.len() {
                assert(word.subrange(0, b.len() as int) =~= word);
            }
        } else {
            lemma_scan_prefix_proper(cands, word, p + 1, i);
        }
    }
}

/// Adds a suggestion to the accumulated set unless it is already there.
pub open spec fn add_new_word(acc: Seq<WordModel>, x: WordModel) -> Seq<WordModel> {
    if acc.contains(x) {
        acc
    } else {
        acc.push(x)
    }
}

/// Folds a track's suggestions into the accumulated set, in order.
pub open spec fn merge_suggs(acc: Seq<WordModel>, suggs: Seq<WordModel>) -> Seq<WordModel>
    decreases suggs.len(),
{
    if suggs.len() == 0 {
        acc
    } else {
        add_new_word(merge_suggs(acc, suggs.drop_last()), suggs.last())
    }
}

/// Records a parsed candidate unless an equal one is already recorded.
pub open spec fn add_new_parse(
    acc: Seq<Seq<Seq<WordModel>>>,
    p: Seq<Seq<WordModel>>,
) -> Seq<Seq<Seq<WordModel>>> {
    if acc.contains(p) {
        acc
    } else {
        acc.push(p)
    }
}

/// Runs every track and accumulates the de-duplicated parses and the
/// merged, not yet sorted suggestions.
pub open spec fn gather(
    dict: Seq<WordModel>,
    tracks: Seq<Seq<(ZrajmPOS, bool)>>,
    word: Seq<char>,
    pacc: Seq<Seq<Seq<WordModel>>>,
    sacc: Seq<WordModel>,
) -> (Seq<Seq<Seq<WordModel>>>, Seq<WordModel>)
    decreases tracks.len(),
{
    if tracks.len() == 0 {
        (pacc, sacc)
    } else {
        let r = spec_complete_grammar(dict, tracks[0], word);
        let pacc2 = if r.1.len() > 0 && (r.0.len() == 0 || r.2.len() > 0) {
            add_new_parse(pacc, r.1)
        } else {
            pacc
        };
        let sacc2 = if r.0.len() == 0 {
            sacc
        } else {
            merge_suggs(sacc, r.2)
        };
        gather(dict, tracks.skip(1), word, pacc2, sacc2)
    }
}

/// The full completion result: the de-duplicated parses over all tracks,
/// and the merged suggestions in the suggestion order.
pub open spec fn spec_completions(dict: Seq<WordModel>, word: Seq<char>) -> (
    Seq<Seq<Seq<WordModel>>>,
    Seq<WordModel>,
) {
    let g = gather(dict, spec_grammar(), word, Seq::empty(), Seq::empty());
    (g.0, sort_suggs(word, g.1))
}

/// The views of a sequence of parsed candidates.
pub open spec fn parses_view(s: Seq<Vec<Vec<ZrajmWord>>>) -> Seq<Seq<Seq<WordModel>>> {
    s.map_values(|v: Vec<Vec<ZrajmWord>>| slots_view(v@))
}

/// Every way the word parses, and the ranked continuation suggestions.
#[derive(Debug)]
pub struct Completions {
    pub parsed: Vec<Vec<Vec<ZrajmWord>>>,
    pub suggestions: Vec<ZrajmWord>,
}

fn words_vec_eq(a: &Vec<ZrajmWord>, b: &Vec<ZrajmWord>) -> (r: bool)
    ensures
        r == (words_view(a@) == words_view(b@)),
{
    let ghost av = words_view(a@);
    let ghost bv = words_view(b@);
    proof {
        assert(av.len() == a@.len());
        assert(bv.len() == b@.len());
    }
    if a.len() != b.len() {
        return false;
    }
    let mut i: usize = 0;
    while i < a.len()
        invariant
            i <= a@.len(),
            a@.len() == b@.len(),
            av == words_view(a@),
            bv == words_view(b@),
            av.len() == a@.len(),
            bv.len() == b@.len(),
            forall|j: int| 0 <= j < i ==> av[j] == bv[j],
        decreases a@.len() - i,
    {
        proof {
            assert(av[i as int] == a@[i as int]@);
            assert(bv[i as int] == b@[i as int]@);
        }
        if !word_eq(&a[i], &b[i]) {
            proof {
                if av == bv {
                    assert(av[i as int] == bv[i as int]);
                }
            }
            return false;
        }
        i = i + 1;
    }
    proof {
        assert(av =~= bv);
    }
    true
}

fn slots_vec_eq(a: &Vec<Vec<ZrajmWord>>, b: &Vec<Vec<ZrajmWord>>) -> (r: bool)
    ensures
        r == (slots_view(a@) == slots_view(b@)),
{
    let ghost av = slots_view(a@);
    let ghost bv = slots_view(b@);
    proof {
        assert(av.len() == a@.len());
        assert(bv.len() == b@.len());
    }
    if a.len() != b.len() {
        return false;
    }
    let mut i: usize = 0;
    while i < a.len()
        invariant
            i <= a@.len(),
            a@.len() == b@.len(),
            av == slots_view(a@),
            bv == slots_view(b@),
            av.len() == a@.len(),
            bv.len() == b@.len(),
            forall|j: int| 0 <= j < i ==> av[j] == bv[j],
        decreases a@.len() - i,
    {
        proof {
            assert(av[i as int] == words_view(a@[i as int]@));
            assert(bv[i as int] == words_view(b@[i as int]@));
        }
        if !words_vec_eq(&a[i], &b[i]) {
            proof {
                if av == bv {
                    assert(av[i as int] == bv[i as int]);
                }
            }
            return false;
        }
        i = i + 1;
    }
    proof {
        assert(av =~= bv);
    }
    true
}

fn contains_parse(acc: &Vec<Vec<Vec<ZrajmWord>>>, x: &Vec<Vec<ZrajmWord>>) -> (r: bool)
    ensures
        r == parses_view(acc@).contains(slots_view(x@)),
{
    let mut i: usize = 0;
    while i < acc.len()
        invariant
            i <= acc@.len(),
            forall|j: int| 0 <= j < i ==> parses_view(acc@)[j] != slots_view(x@),
        decreases acc@.len() - i,
    {
        proof {
            assert(parses_view(acc@)[i as int] == slots_view(acc@[i as int]@));
        }
        if slots_vec_eq(&acc[i], x) {
            proof {
                assert(parses_view(acc@)[i as int] == slots_view(x@));
            }
            return true;
        }
        i = i + 1;
    }
    proof {
        if parses_view(acc@).contains(slots_view(x@)) {
            let j = choose|j: int|
                0 <= j < parses_view(acc@).len() && parses_view(acc@)[j] == slots_view(x@);
            assert(parses_view(acc@)[j] != slots_view(x@));
        }
    }
    false
}

fn cmp_sugg_exec(word: &str, a: &ZrajmWord, b: &ZrajmWord) -> (r: Ordering)
    ensures
        r == cmp_sugg(word@, a@, b@),
{
    let asw = str_starts_with(a.tlh.as_str(), word);
    let bsw = str_starts_with(b.tlh.as_str(), word);
    if asw && !bsw {
        Ordering::Less
    } else if !asw && bsw {
        Ordering::Greater
    } else {
        a.cmp(b)
    }
}

proof fn lemma_insert_sugg_at(word: Seq<char>, x: WordModel, s: Seq<WordModel>, p: int)
    requires
        0 <= p <= s.len(),
        forall|j: int| 0 <= j < p ==> cmp_sugg(word, x, #[trigger] s[j]) != Ordering::Less,
        p < s.len() ==> cmp_sugg(word, x, s[p]) == Ordering::Less,
    ensures
        insert_sugg(word, x, s) == s.subrange(0, p) + seq![x] + s.subrange(p, s.len() as int),
    decreases s.len(),
{
    if s.len() == 0 {
        assert(insert_sugg(word, x, s) =~= s.subrange(0, p) + seq![x] + s.subrange(
            p,
            s.len() as int,
        ));
    } else if p == 0 {
        assert(insert_sugg(word, x, s) =~= s.subrange(0, p) + seq![x] + s.subrange(
            p,
            s.len() as int,
        ));
    } else {
        assert(cmp_sugg(word, x, s[0]) != Ordering::Less);
        assert forall|j: int| 0 <= j < p - 1 implies cmp_sugg(word, x, #[trigger] s.skip(1)[j])
            != Ordering::Less by {
            assert(s.skip(1)[j] == s[j + 1]);
        }
        if p < s.len() {
            assert(s.skip(1)[p - 1] == s[p]);
        }
        lemma_insert_sugg_at(word, x, s.skip(1), p - 1);
        assert(insert_sugg(word, x, s) =~= s.subrange(0, p) + seq![x] + s.subrange(
            p,
            s.len() as int,
        ));
    }
}

fn sorted_suggs(word: &str, words: Vec<ZrajmWord>) -> (r: Vec<ZrajmWord>)
    ensures
        words_view(r@) == sort_suggs(word@, words_view(words@)),
{
    let mut r: Vec<ZrajmWord> = Vec::new();
    let mut i: usize = 0;
    proof {
        assert(words_view(r@) =~= Seq::<WordModel>::empty());
        assert(words_view(words@).subrange(0, 0) =~= Seq::<WordModel>::empty());
    }
    while i < words.len()
        invariant
            i <= words@.len(),
            words_view(r@) == sort_suggs(word@, words_view(words@).subrange(0, i as int)),
        decreases words@.len() - i,
    {
        let w = words[i].duplicate();
        let mut p: usize = 0;
        let mut ins: bool = false;
        while p < r.len() && !ins
            invariant
                p <= r@.len(),
                w@ == words_view(words@)[i as int],
                i < words@.len(),
                words_view(r@) == sort_suggs(word@, words_view(words@).subrange(0, i as int)),
                forall|j: int| 0 <= j < p ==> cmp_sugg(word@, w@, #[trigger] words_view(r@)[j])
                    != Ordering::Less,
                ins ==> p < r@.len() && cmp_sugg(word@, w@, words_view(r@)[p as int])
                    == Ordering::Less,
            decreases r@.len() - p + (if ins {
                0int
            } else {
                1int
            }),
        {
            proof {
                assert(words_view(r@)[p as int] == r@[p as int]@);
            }
            match cmp_sugg_exec(word, &w, &r[p]) {
                Ordering::Less => {
                    ins = true;
                },
                Ordering::Equal => {
                    p = p + 1;
                },
                Ordering::Greater => {
                    p = p + 1;
                },
            }
        }
        let ghost r_old = r@;
        let ghost x = w@;
        r.insert(p, w);
        proof {
            let wsv = words_view(words@);
            let rv = words_view(r_old);
            assert(rv.len() == r_old.len());
            lemma_insert_sugg_at(word@, x, rv, p as int);
            assert forall|k: int| 0 <= k < r@.len() implies words_view(r@)[k] == insert_sugg(
                word@,
                x,
                rv,
            )[k] by {
                assert(words_view(r@)[k] == r@[k]@);
                if k < p {
                    assert(r@[k] == r_old[k]);
                    assert(rv[k] == r_old[k]@);
                } else if k == p {
                    assert(r@[k]@ == x);
                } else {
                    assert(r@[k] == r_old[k - 1]);
                    assert(rv[k - 1] == r_old[k - 1]@);
                }
            }
            assert(words_view(r@) =~= insert_sugg(word@, x, rv));
            let sub = wsv.subrange(0, i + 1);
            assert(sub.drop_last() =~= wsv.subrange(0, i as int));
            assert(sub.last() == x);
            assert(words_view(r@) == sort_suggs(word@, sub));
        }
        i = i + 1;
    }
    proof {
        assert(words_view(words@).subrange(0, words@.len() as int) =~= words_view(words@));
    }
    r
}

/// Decomposes `word` along every grammar track: all de-duplicated parses,
/// and the suggested continuations ranked by the suggestion order.
pub fn completions(dict: &ZrajmDictionary, word: &str) -> (c: Completions)
    ensures
        parses_view(c.parsed@) == spec_completions(dict@, word@).0,
        words_view(c.suggestions@) == spec_completions(dict@, word@).1,
{
    let tracks = grammar();
    let mut parsed_acc: Vec<Vec<Vec<ZrajmWord>>> = Vec::new();
    let mut sugg_acc: Vec<ZrajmWord> = Vec::new();
    let mut ti: usize = 0;
    proof {
        assert(spec_grammar().skip(0) =~= spec_grammar());
        assert(parses_view(parsed_acc@) =~= Seq::<Seq<Seq<WordModel>>>::empty());
        assert(words_view(sugg_acc@) =~= Seq::<WordModel>::empty());
    }
    while ti < tracks.len()
        invariant
            ti <= tracks@.len(),
            tracks@.len() == spec_grammar().len(),
            forall|k: int| 0 <= k < tracks@.len() ==> (#[trigger] tracks@[k]).1@
                == spec_grammar()[k],
            gather(
                dict@,
                spec_grammar().skip(ti as int),
                word@,
                parses_view(parsed_acc@),
                words_view(sugg_acc@),
            ) == gather(
                dict@,
                spec_grammar(),
                word@,
                Seq::<Seq<Seq<WordModel>>>::empty(),
                Seq::<WordModel>::empty(),
            ),
        decreases tracks@.len() - ti,
    {
        let cg = complete_grammar(dict, &tracks[ti].1, word);
        let ghost s = spec_complete_grammar(dict@, spec_grammar()[ti as int], word@);
        proof {
            assert(tracks@[ti as int].1@ == spec_grammar()[ti as int]);
            assert(spec_grammar().skip(ti as int)[0] == spec_grammar()[ti as int]);
            assert(slots_view(cg.1@).len() == cg.1@.len());
            assert(words_view(cg.2@).len() == cg.2@.len());
        }
        let ending_empty = cg.0.as_str().unicode_len() == 0;
        let record = cg.1.len() > 0 && (ending_empty || cg.2.len() > 0);
        if record {
            if !contains_parse(&parsed_acc, &cg.1) {
                let ghost pa_old = parsed_acc@;
                parsed_acc.push(cg.1);
                proof {
                    assert(parses_view(pa_old).len() == pa_old.len());
                    assert forall|k: int| 0 <= k < parsed_acc@.len() implies parses_view(
                        parsed_acc@,
                    )[k] == parses_view(pa_old).push(s.1)[k] by {
                        assert(parses_view(parsed_acc@)[k] == slots_view(parsed_acc@[k]@));
                        if k < pa_old.len() {
                            assert(parsed_acc@[k] == pa_old[k]);
                            assert(parses_view(pa_old)[k] == slots_view(pa_old[k]@));
                        }
                    }
                    assert(parses_view(parsed_acc@) =~= parses_view(pa_old).push(s.1));
                }
            }
        }
        if !ending_empty {
            let ghost sacc0 = words_view(sugg_acc@);
            let ghost sv = words_view(cg.2@);
            let mut k: usize = 0;
            proof {
                assert(sv.subrange(0, 0) =~= Seq::<WordModel>::empty());
                assert(merge_suggs(sacc0, sv.subrange(0, 0)) == sacc0);
            }
            while k < cg.2.len()
                invariant
                    k <= cg.2@.len(),
                    sv == words_view(cg.2@),
                    sv.len() == cg.2@.len(),
                    words_view(sugg_acc@) == merge_suggs(sacc0, sv.subrange(0, k as int)),
                decreases cg.2@.len() - k,
            {
                let ghost upto = sv.subrange(0, k as int + 1);
                proof {
                    assert(upto.drop_last() =~= sv.subrange(0, k as int));
                    assert(upto.last() == sv[k as int]);
                    assert(sv[k as int] == cg.2@[k as int]@);
                }
                if !contains_word(&sugg_acc, &cg.2[k]) {
                    let w = cg.2[k].duplicate();
                    let ghost sg_old = sugg_acc@;
                    sugg_acc.push(w);
                    proof {
                        assert(words_view(sg_old).len() == sg_old.len());
                        assert forall|q: int| 0 <= q < sugg_acc@.len() implies words_view(
                            sugg_acc@,
                        )[q] == words_view(sg_old).push(sv[k as int])[q] by {
                            assert(words_view(sugg_acc@)[q] == sugg_acc@[q]@);
                            if q < sg_old.len() {
                                assert(sugg_acc@[q] == sg_old[q]);
                                assert(words_view(sg_old)[q] == sg_old[q]@);
                            }
                        }
                        assert(words_view(sugg_acc@) =~= words_view(sg_old).push(sv[k as int]));
                    }
                }
                k = k + 1;
            }
            proof {
                assert(sv.subrange(0, sv.len() as int) =~= sv);
            }
        }
        proof {
            assert(spec_grammar().skip(ti as int).skip(1) =~= spec_grammar().skip(ti as int + 1));
        }
        ti = ti + 1;
    }
    proof {
        assert(spec_grammar().skip(tracks@.len() as int).len() == 0);
    }
    let suggestions = sorted_suggs(word, sugg_acc);
    Completions { parsed: parsed_acc, suggestions }
}

} // verus!
