//! Dictionary entries: words with their part of speech, disambiguating
//! numbers and translations, the total order over entries, and the
//! dictionary that holds them.

use vstd::prelude::*;
use core::cmp::Ordering;
use crate::klingon::{
    cmp_letter, is_letter_text, letters, letters_view, lemma_cls_congruent, lemma_cls_equal_sizes,
    lemma_cls_self, lemma_cls_transitive, lemma_letter_cmp_total_on_alphabet, cmp_letter_seq,
    tokenize, lemma_tokenize_flatten,
};

verus! {

/// Compares two strings character by character.
pub(crate) fn str_eq(a: &str, b: &str) -> (r: bool)
    ensures
        r == (a@ == b@),
{
    let na = a.unicode_len();
    let nb = b.unicode_len();
    if na != nb {
        proof {
            if a@ == b@ {
                assert(a@.len() == b@.len());
            }
        }
        return false;
    }
    let mut i: usize = 0;
    while i < na
        invariant
            i <= na,
            na == a@.len(),
            na == b@.len(),
            forall|j: int| 0 <= j < i ==> a@[j] == b@[j],
        decreases na - i,
    {
        if a.get_char(i) != b.get_char(i) {
            proof {
                if a@ == b@ {
                    assert(a@[i as int] == b@[i as int]);
                }
            }
            return false;
        }
        i = i + 1;
    }
    proof {
        assert(a@ =~= b@);
    }
    true
}

/// Whether `b` is a prefix of `a`.
pub open spec fn spec_starts_with(a: Seq<char>, b: Seq<char>) -> bool {
    b.len() <= a.len() && a.subrange(0, b.len() as int) == b
}

/// Checks whether the text `a` starts with the text `b`.
pub(crate) fn str_starts_with(a: &str, b: &str) -> (r: bool)
    ensures
        r == spec_starts_with(a@, b@),
{
    let na = a.unicode_len();
    let nb = b.unicode_len();
    if nb > na {
        return false;
    }
    let mut i: usize = 0;
    while i < nb
        invariant
            i <= nb,
            nb <= na,
            na == a@.len(),
            nb == b@.len(),
            forall|j: int| 0 <= j < i ==> a@[j] == b@[j],
        decreases nb - i,
    {
        if a.get_char(i) != b.get_char(i) {
            proof {
                if spec_starts_with(a@, b@) {
                    assert(a@.subrange(0, b@.len() as int)[i as int] == b@[i as int]);
                }
            }
            return false;
        }
        i = i + 1;
    }
    proof {
        assert(a@.subrange(0, b@.len() as int) =~= b@);
    }
    true
}

/// The parts of speech a dictionary entry can carry.
#[derive(Debug, Clone, Copy, PartialEq, Eq, Structural)]
pub enum ZrajmPOS {
    Adverbial,
    Conjunction,
    Exclamation,
    Name,
    Noun,
    NounSuffix1,
    NounSuffix2,
    NounSuffix3,
    NounSuffix4,
    NounSuffix5,
    Numeral,
    Pronoun,
    QuestionWord,
    Verb,
    VerbPrefix,
    VerbSuffix1,
    VerbSuffix2,
    VerbSuffix3,
    VerbSuffix4,
    VerbSuffix5,
    VerbSuffix6,
    VerbSuffix7,
    VerbSuffix8,
    VerbSuffix9,
    VerbSuffixRover,
    Unknown,
}

/// The part of speech named by a tag of the dictionary source format.
pub open spec fn pos_of_text(s: Seq<char>) -> ZrajmPOS {
    if s == "adverbial"@ {
        ZrajmPOS::Adverbial
    } else if s == "conjunction"@ {
        ZrajmPOS::Conjunction
    } else if s == "exclamation"@ {
        ZrajmPOS::Exclamation
    } else if s == "name"@ {
        ZrajmPOS::Name
    } else if s == "noun"@ {
        ZrajmPOS::Noun
    } else if s == "noun suffix type 1"@ {
        ZrajmPOS::NounSuffix1
    } else if s == "noun suffix type 2"@ {
        ZrajmPOS::NounSuffix2
    } else if s == "noun suffix type 3"@ {
        ZrajmPOS::NounSuffix3
    } else if s == "noun suffix type 4"@ {
        ZrajmPOS::NounSuffix4
    } else if s == "noun suffix type 5"@ {
        ZrajmPOS::NounSuffix5
    } else if s == "numeral"@ {
        ZrajmPOS::Numeral
    } else if s == "pronoun"@ {
        ZrajmPOS::Pronoun
    } else if s == "question word"@ {
        ZrajmPOS::QuestionWord
    } else if s == "verb"@ {
        ZrajmPOS::Verb
    } else if s == "verb prefix"@ {
        ZrajmPOS::VerbPrefix
    } else if s == "verb suffix type 1"@ {
        ZrajmPOS::VerbSuffix1
    } else if s == "verb suffix type 2"@ {
        ZrajmPOS::VerbSuffix2
    } else if s == "verb suffix type 3"@ {
        ZrajmPOS::VerbSuffix3
    } else if s == "verb suffix type 4"@ {
        ZrajmPOS::VerbSuffix4
    } else if s == "verb suffix type 5"@ {
        ZrajmPOS::VerbSuffix5
    } else if s == "verb suffix type 6"@ {
        ZrajmPOS::VerbSuffix6
    } else if s == "verb suffix type 7"@ {
        ZrajmPOS::VerbSuffix7
    } else if s == "verb suffix type 8"@ {
        ZrajmPOS::VerbSuffix8
    } else if s == "verb suffix type 9"@ {
        ZrajmPOS::VerbSuffix9
    } else if s == "verb suffix type rover"@ {
        ZrajmPOS::VerbSuffixRover
    } else {
        ZrajmPOS::Unknown
    }
}

impl ZrajmPOS {
    /// Parses a part-of-speech tag of the dictionary source format.
    pub fn new(text: &str) -> (r: ZrajmPOS)
        ensures
            r == pos_of_text(text@),
    {
        if str_eq(text, "adverbial") {
            ZrajmPOS::Adverbial
        } else if str_eq(text, "conjunction") {
            ZrajmPOS::Conjunction
        } else if str_eq(text, "exclamation") {
            ZrajmPOS::Exclamation
        } else if str_eq(text, "name") {
            ZrajmPOS::Name
        } else if str_eq(text, "noun") {
            ZrajmPOS::Noun
        } else if str_eq(text, "noun suffix type 1") {
            ZrajmPOS::NounSuffix1
        } else if str_eq(text, "noun suffix type 2") {
            ZrajmPOS::NounSuffix2
        } else if str_eq(text, "noun suffix type 3") {
            ZrajmPOS::NounSuffix3
        } else if str_eq(text, "noun suffix type 4") {
            ZrajmPOS::NounSuffix4
        } else if str_eq(text, "noun suffix type 5") {
            ZrajmPOS::NounSuffix5
        } else if str_eq(text, "numeral") {
            ZrajmPOS::Numeral
        } else if str_eq(text, "pronoun") {
            ZrajmPOS::Pronoun
        } else if str_eq(text, "question word") {
            ZrajmPOS::QuestionWord
        } else if str_eq(text, "verb") {
            ZrajmPOS::Verb
        } else if str_eq(text, "verb prefix") {
            ZrajmPOS::VerbPrefix
        } else if str_eq(text, "verb suffix type 1") {
            ZrajmPOS::VerbSuffix1
        } else if str_eq(text, "verb suffix type 2") {
            ZrajmPOS::VerbSuffix2
        } else if str_eq(text, "verb suffix type 3") {
            ZrajmPOS::VerbSuffix3
        } else if str_eq(text, "verb suffix type 4") {
            ZrajmPOS::VerbSuffix4
        } else if str_eq(text, "verb suffix type 5") {
            ZrajmPOS::VerbSuffix5
        } else if str_eq(text, "verb suffix type 6") {
            ZrajmPOS::VerbSuffix6
        } else if str_eq(text, "verb suffix type 7") {
            ZrajmPOS::VerbSuffix7
        } else if str_eq(text, "verb suffix type 8") {
            ZrajmPOS::VerbSuffix8
        } else if str_eq(text, "verb suffix type 9") {
            ZrajmPOS::VerbSuffix9
        } else if str_eq(text, "verb suffix type rover") {
            ZrajmPOS::VerbSuffixRover
        } else {
            ZrajmPOS::Unknown
        }
    }
}

/// The mathematical content of a dictionary entry.
pub struct WordModel {
    pub homonym: int,
    pub sense: int,
    pub subsense: int,
    pub tlh: Seq<char>,
    pub en: Seq<Seq<char>>,
    pub sv: Seq<Seq<char>>,
    pub pos: ZrajmPOS,
    pub fields: Seq<(Seq<char>, Seq<char>)>,
    pub tag: Seq<Seq<char>>,
    pub data: Seq<Seq<char>>,
    pub id: Seq<char>,
}

/// One dictionary entry: its surface text (possibly hyphen-marked at an
/// attachment boundary), part of speech, disambiguating numbers,
/// translations and auxiliary record fields.
#[derive(Debug, Clone, PartialEq, Eq)]
pub struct ZrajmWord {
    pub homonym: i8,
    pub sense: i8,
    pub subsense: i8,
    pub tlh: String,
    pub en: Vec<String>,
    pub sv: Vec<String>,
    pub pos: ZrajmPOS,
    pub fields: Vec<(String, String)>,
    pub tag: Vec<String>,
    pub data: Vec<String>,
    pub id: String,
}

/// The views of a sequence of strings.
pub open spec fn strings_view(v: Seq<String>) -> Seq<Seq<char>> {
    v.map_values(|s: String| s@)
}

/// The views of a sequence of string pairs.
pub open spec fn pairs_view(v: Seq<(String, String)>) -> Seq<(Seq<char>, Seq<char>)> {
    v.map_values(|p: (String, String)| (p.0@, p.1@))
}

impl View for ZrajmWord {
    type V = WordModel;

    open spec fn view(&self) -> WordModel {
        WordModel {
            homonym: self.homonym as int,
            sense: self.sense as int,
            subsense: self.subsense as int,
            tlh: self.tlh@,
            en: strings_view(self.en@),
            sv: strings_view(self.sv@),
            pos: self.pos,
            fields: pairs_view(self.fields@),
            tag: strings_view(self.tag@),
            data: strings_view(self.data@),
            id: self.id@,
        }
    }
}

fn clone_strings(v: &Vec<String>) -> (r: Vec<String>)
    ensures
        strings_view(r@) == strings_view(v@),
{
    let mut r: Vec<String> = Vec::new();
    let mut i: usize = 0;
    while i < v.len()
        invariant
            i <= v@.len(),
            strings_view(r@) =~= strings_view(v@).subrange(0, i as int),
        decreases v@.len() - i,
    {
        let s2 = v[i].clone();
        let ghost r_old = r@;
        r.push(s2);
        proof {
            assert(strings_view(r_old).len() == r_old.len());
            assert(r_old.len() == i as int);
            assert(r@ == r_old.push(s2));
            assert(strings_view(r@).len() == i + 1);
            assert forall|k: int| 0 <= k < i + 1 implies strings_view(r@)[k] == strings_view(
                v@,
            ).subrange(0, i + 1)[k] by {
                assert(strings_view(r@)[k] == r@[k]@);
                if k < i {
                    assert(r@[k] == r_old[k]);
                    assert(strings_view(r_old)[k] == strings_view(v@).subrange(0, i as int)[k]);
                }
                assert(strings_view(v@).subrange(0, i + 1)[k] == v@[k]@);
            }
            assert(strings_view(r@) =~= strings_view(v@).subrange(0, i + 1));
        }
        i = i + 1;
    }
    proof {
        assert(strings_view(v@).subrange(0, v@.len() as int) =~= strings_view(v@));
    }
    r
}

fn clone_pairs(v: &Vec<(String, String)>) -> (r: Vec<(String, String)>)
    ensures
        pairs_view(r@) == pairs_view(v@),
{
    let mut r: Vec<(String, String)> = Vec::new();
    let mut i: usize = 0;
    proof {
        assert(pairs_view(r@) =~= pairs_view(v@).subrange(0, 0));
    }
    while i < v.len()
        invariant
            i <= v@.len(),
            pairs_view(r@) == pairs_view(v@).subrange(0, i as int),
        decreases v@.len() - i,
    {
        let p = (v[i].0.clone(), v[i].1.clone());
        let ghost r_old = r@;
        r.push(p);
        proof {
            assert(pairs_view(r_old).len() == r_old.len());
            assert(r_old.len() == i as int);
            assert(r@ == r_old.push(p));
            assert(pairs_view(r@).len() == i + 1);
            assert forall|k: int| 0 <= k < i + 1 implies pairs_view(r@)[k] == pairs_view(
                v@,
            ).subrange(0, i + 1)[k] by {
                assert(pairs_view(r@)[k] == (r@[k].0@, r@[k].1@));
                if k < i {
                    assert(r@[k] == r_old[k]);
                    assert(pairs_view(r_old)[k] == pairs_view(v@).subrange(0, i as int)[k]);
                }
                assert(pairs_view(v@).subrange(0, i + 1)[k] == (v@[k].0@, v@[k].1@));
            }
            assert(pairs_view(r@) =~= pairs_view(v@).subrange(0, i + 1));
        }
        i = i + 1;
    }
    proof {
        assert(pairs_view(v@).subrange(0, v@.len() as int) =~= pairs_view(v@));
    }
    r
}

impl ZrajmWord {
    /// A fresh entry with the default numbers and no text.
    pub fn new() -> (w: ZrajmWord)
        ensures
            w@.homonym == 1,
            w@.sense == 1,
            w@.subsense == 1,
            w@.tlh == Seq::<char>::empty(),
            w@.en == Seq::<Seq<char>>::empty(),
            w@.sv == Seq::<Seq<char>>::empty(),
            w@.pos == ZrajmPOS::Unknown,
            w@.fields == Seq::<(Seq<char>, Seq<char>)>::empty(),
            w@.tag == Seq::<Seq<char>>::empty(),
            w@.data == Seq::<Seq<char>>::empty(),
            w@.id == Seq::<char>::empty(),
    {
        let w = ZrajmWord {
            homonym: 1,
            sense: 1,
            subsense: 1,
            tlh: String::new(),
            en: Vec::new(),
            sv: Vec::new(),
            pos: ZrajmPOS::Unknown,
            fields: Vec::new(),
            tag: Vec::new(),
            data: Vec::new(),
            id: String::new(),
        };
        proof {
            assert(strings_view(w.en@) =~= Seq::<Seq<char>>::empty());
            assert(strings_view(w.sv@) =~= Seq::<Seq<char>>::empty());
            assert(strings_view(w.tag@) =~= Seq::<Seq<char>>::empty());
            assert(strings_view(w.data@) =~= Seq::<Seq<char>>::empty());
            assert(pairs_view(w.fields@) =~= Seq::<(Seq<char>, Seq<char>)>::empty());
        }
        w
    }

    /// A copy of the entry with the same content.
    pub fn duplicate(&self) -> (r: ZrajmWord)
        ensures
            r@ == self@,
    {
        let r = ZrajmWord {
            homonym: self.homonym,
            sense: self.sense,
            subsense: self.subsense,
            tlh: self.tlh.clone(),
            en: clone_strings(&self.en),
            sv: clone_strings(&self.sv),
            pos: self.pos,
            fields: clone_pairs(&self.fields),
            tag: clone_strings(&self.tag),
            data: clone_strings(&self.data),
            id: self.id.clone(),
        };
        proof {
            assert(r@ =~= self@);
        }
        r
    }

    /// Compares two entries by the letters of their surface text, then by
    /// homonym, sense and subsense number.
    pub fn cmp(&self, other: &ZrajmWord) -> (r: Ordering)
        ensures
            r == cmp_word(self@, other@),
    {
        let la = letters(self.tlh.as_str());
        let lb = letters(other.tlh.as_str());
        let ghost ta = tokenize(self@.tlh);
        let ghost tb = tokenize(other@.tlh);
        let na = la.len();
        let nb = lb.len();
        proof {
            assert(ta.skip(0) =~= ta);
            assert(tb.skip(0) =~= tb);
        }
        let mut i: usize = 0;
        while i < na && i < nb
            invariant
                i <= na,
                i <= nb,
                na == ta.len(),
                nb == tb.len(),
                ta == tokenize(self@.tlh),
                tb == tokenize(other@.tlh),
                letters_view(la@) == ta,
                letters_view(lb@) == tb,
                na == la@.len(),
                nb == lb@.len(),
                cmp_letter_seq(ta.skip(i as int), tb.skip(i as int)) == cmp_letter_seq(ta, tb),
            decreases na - i,
        {
            proof {
                assert(ta[i as int] == la@[i as int]@);
                assert(tb[i as int] == lb@[i as int]@);
                assert(ta.skip(i as int).len() == na - i);
                assert(tb.skip(i as int).len() == nb - i);
                assert(ta.skip(i as int)[0] == ta[i as int]);
                assert(tb.skip(i as int)[0] == tb[i as int]);
            }
            match la[i].cmp(&lb[i]) {
                Ordering::Less => {
                    proof {
                        assert(cmp_letter(ta.skip(i as int)[0], tb.skip(i as int)[0])
                            == Ordering::Less);
                        assert(cmp_letter_seq(ta.skip(i as int), tb.skip(i as int))
                            == Ordering::Less);
                    }
                    return Ordering::Less;
                },
                Ordering::Greater => {
                    proof {
                        assert(cmp_letter(ta.skip(i as int)[0], tb.skip(i as int)[0])
                            == Ordering::Greater);
                        assert(cmp_letter_seq(ta.skip(i as int), tb.skip(i as int))
                            == Ordering::Greater);
                    }
                    return Ordering::Greater;
                },
                Ordering::Equal => {
                    proof {
                        assert(ta.skip(i as int).skip(1) =~= ta.skip(i as int + 1));
                        assert(tb.skip(i as int).skip(1) =~= tb.skip(i as int + 1));
                    }
                    i = i + 1;
                },
            }
        }
        proof {
            assert(ta.skip(i as int).len() == na - i);
            assert(tb.skip(i as int).len() == nb - i);
        }
        if na < nb {
            Ordering::Less
        } else if na > nb {
            Ordering::Greater
        } else if self.homonym < other.homonym {
            Ordering::Less
        } else if self.homonym > other.homonym {
            Ordering::Greater
        } else if self.sense < other.sense {
            Ordering::Less
        } else if self.sense > other.sense {
            Ordering::Greater
        } else if self.subsense < other.subsense {
            Ordering::Less
        } else if self.subsense > other.subsense {
            Ordering::Greater
        } else {
            Ordering::Equal
        }
    }
}

/// The total order over dictionary entries: by the letter sequence of the
/// surface text, then by homonym, sense and subsense number.
pub open spec fn cmp_word(a: WordModel, b: WordModel) -> Ordering {
    match cmp_letter_seq(tokenize(a.tlh), tokenize(b.tlh)) {
        Ordering::Equal => if a.homonym < b.homonym {
            Ordering::Less
        } else if a.homonym > b.homonym {
            Ordering::Greater
        } else if a.sense < b.sense {
            Ordering::Less
        } else if a.sense > b.sense {
            Ordering::Greater
        } else if a.subsense < b.subsense {
            Ordering::Less
        } else if a.subsense > b.subsense {
            Ordering::Greater
        } else {
            Ordering::Equal
        },
        Ordering::Less => Ordering::Less,
        Ordering::Greater => Ordering::Greater,
    }
}

/// Entry comparison is transitive.
pub proof fn lemma_word_cmp_transitive(a: WordModel, b: WordModel, c: WordModel)
    requires
        cmp_word(a, b) == Ordering::Less,
        cmp_word(b, c) == Ordering::Less,
    ensures
        cmp_word(a, c) == Ordering::Less,
{
    let ta = tokenize(a.tlh);
    let tb = tokenize(b.tlh);
    let tc = tokenize(c.tlh);
    match cmp_letter_seq(ta, tb) {
        Ordering::Less => {
            match cmp_letter_seq(tb, tc) {
                Ordering::Less => {
                    lemma_cls_transitive(ta, tb, tc);
                },
                Ordering::Equal => {
                    lemma_cls_congruent(tb, tc, ta);
                },
                Ordering::Greater => {},
            }
        },
        Ordering::Equal => {
            lemma_cls_congruent(ta, tb, tc);
        },
        Ordering::Greater => {},
    }
}

/// Comparing two entries in either direction gives exactly opposite
/// outcomes.
pub proof fn lemma_word_cmp_antisymmetric(a: WordModel, b: WordModel)
    ensures
        cmp_word(b, a) == crate::klingon::reverse_ord(cmp_word(a, b)),
{
    crate::klingon::lemma_cls_antisymmetric(tokenize(a.tlh), tokenize(b.tlh));
}

/// Entries that compare equal compare the same way against any third
/// entry.
pub proof fn lemma_word_cmp_congruent(a: WordModel, b: WordModel, c: WordModel)
    requires
        cmp_word(a, b) == Ordering::Equal,
    ensures
        cmp_word(a, c) == cmp_word(b, c),
        cmp_word(c, a) == cmp_word(c, b),
{
    lemma_cls_congruent(tokenize(a.tlh), tokenize(b.tlh), tokenize(c.tlh));
}

/// Entry comparison agrees with equality of the (text, homonym, sense,
/// subsense) quadruple: entries whose surface text is made of alphabet
/// letters compare equal exactly when the quadruples are equal.
pub proof fn lemma_word_cmp_consistent_with_eq(a: WordModel, b: WordModel)
    requires
        is_letter_text(a.tlh),
        is_letter_text(b.tlh),
    ensures
        cmp_word(a, b) == Ordering::Equal <==> (a.tlh == b.tlh && a.homonym == b.homonym
            && a.sense == b.sense && a.subsense == b.subsense),
{
    let ta = tokenize(a.tlh);
    let tb = tokenize(b.tlh);
    if cmp_word(a, b) == Ordering::Equal {
        lemma_cls_equal_sizes(ta, tb);
        assert forall|i: int| 0 <= i < ta.len() implies ta[i] == tb[i] by {
            lemma_letter_cmp_total_on_alphabet(ta[i], tb[i]);
        }
        assert(ta =~= tb);
        lemma_tokenize_flatten(a.tlh);
        lemma_tokenize_flatten(b.tlh);
        assert(a.tlh == b.tlh);
    }
    if a.tlh == b.tlh && a.homonym == b.homonym && a.sense == b.sense && a.subsense
        == b.subsense {
        lemma_cls_self(ta);
    }
}

/// The bracket-stripping state for one translation text: the stack of
/// partially collected index words, innermost last.
pub open spec fn stack_step(st: Seq<Seq<char>>, c: char) -> Seq<Seq<char>> {
    if c == '<' || c == '«' {
        st.push(Seq::empty())
    } else if c == '>' || c == '»' {
        if st.len() > 0 {
            st.drop_last()
        } else {
            st
        }
    } else {
        st.map_values(|s: Seq<char>| s.push(c))
    }
}

pub open spec fn stack_after(t: Seq<char>) -> Seq<Seq<char>>
    decreases t.len(),
{
    if t.len() == 0 {
        seq![Seq::<char>::empty()]
    } else {
        stack_step(stack_after(t.drop_last()), t.last())
    }
}

/// The index words emitted by closing brackets while scanning `t`.
pub open spec fn emitted_after(t: Seq<char>) -> Seq<Seq<char>>
    decreases t.len(),
{
    if t.len() == 0 {
        Seq::empty()
    } else {
        let st = stack_after(t.drop_last());
        let e = emitted_after(t.drop_last());
        let c = t.last();
        if (c == '>' || c == '»') && st.len() > 0 {
            e.push(st.last())
        } else {
            e
        }
    }
}

/// All index words of one translation: the emitted bracketed words, then
/// the outermost text.
pub open spec fn translation_index_words(t: Seq<char>) -> Seq<Seq<char>> {
    emitted_after(t) + seq![stack_after(t).last()]
}

/// All index words of a list of translations, in order.
pub open spec fn index_words_of(ts: Seq<Seq<char>>) -> Seq<Seq<char>>
    decreases ts.len(),
{
    if ts.len() == 0 {
        Seq::empty()
    } else {
        index_words_of(ts.drop_last()) + translation_index_words(ts.last())
    }
}

/// Extracts the words a list of translations is indexed under: each
/// translation itself with bracket marks removed, and each bracketed
/// sub-phrase on its own.
pub fn get_index_words(translations: &Vec<String>) -> (r: Vec<String>)
    requires
        forall|i: int| 0 <= i < translations@.len() ==> stack_after(
            #[trigger] translations@[i]@,
        ).len() > 0,
    ensures
        strings_view(r@) == index_words_of(strings_view(translations@)),
{
    let mut ans: Vec<String> = Vec::new();
    let mut ti: usize = 0;
    proof {
        assert(strings_view(translations@).subrange(0, 0) =~= Seq::<Seq<char>>::empty());
        assert(strings_view(ans@) =~= Seq::<Seq<char>>::empty());
    }
    while ti < translations.len()
        invariant
            ti <= translations@.len(),
            forall|i: int| 0 <= i < translations@.len() ==> stack_after(
                #[trigger] translations@[i]@,
            ).len() > 0,
            strings_view(ans@) == index_words_of(
                strings_view(translations@).subrange(0, ti as int),
            ),
        decreases translations@.len() - ti,
    {
        let t: &str = translations[ti].as_str();
        let n = t.unicode_len();
        let mut stack: Vec<String> = Vec::new();
        stack.push(String::new());
        let mut ci: usize = 0;
        proof {
            assert(t@.subrange(0, 0) =~= Seq::<char>::empty());
            assert(strings_view(stack@) =~= stack_after(t@.subrange(0, 0)));
            assert(emitted_after(t@.subrange(0, 0)) =~= Seq::<Seq<char>>::empty());
        }
        let ghost base = strings_view(ans@);
        while ci < n
            invariant
                ci <= n,
                n == t@.len(),
                strings_view(stack@) == stack_after(t@.subrange(0, ci as int)),
                strings_view(ans@) == base + emitted_after(t@.subrange(0, ci as int)),
            decreases n - ci,
        {
            let ghost pre = t@.subrange(0, ci as int);
            let ghost post = t@.subrange(0, ci as int + 1);
            proof {
                assert(post.drop_last() =~= pre);
                assert(post.last() == t@[ci as int]);
            }
            let c = t.get_char(ci);
            if c == '<' || c == '«' {
                stack.push(String::new());
                proof {
                    assert(strings_view(stack@) =~= stack_after(pre).push(Seq::empty()));
                    assert(strings_view(ans@) =~= base + emitted_after(post));
                }
            } else if c == '>' || c == '»' {
                let ghost sv = strings_view(stack@);
                let ghost av = strings_view(ans@);
                match stack.pop() {
                    Option::Some(w) => {
                        proof {
                            assert(sv.len() == stack@.len() + 1);
                            assert(w@ == sv.last());
                            assert(strings_view(stack@) =~= sv.drop_last());
                        }
                        let ghost a_old = ans@;
                        ans.push(w);
                        proof {
                            assert(emitted_after(post) == emitted_after(pre).push(sv.last()));
                            assert(av == strings_view(a_old));
                            assert(av.len() == a_old.len());
                            assert(av.len() == base.len() + emitted_after(pre).len());
                            assert(ans@ == a_old.push(w));
                            assert(strings_view(ans@).len() == a_old.len() + 1);
                            assert forall|k: int|
                                0 <= k < strings_view(ans@).len() implies strings_view(ans@)[k]
                                == (base + emitted_after(post))[k] by {
                                assert(strings_view(ans@)[k] == ans@[k]@);
                                if k < a_old.len() {
                                    assert(ans@[k] == a_old[k]);
                                    assert(av[k] == (base + emitted_after(pre))[k]);
                                }
                            }
                            assert(strings_view(ans@) =~= base + emitted_after(post));
                        }
                    },
                    Option::None => {
                        proof {
                            assert(sv.len() == 0);
                            assert(strings_view(ans@) =~= base + emitted_after(post));
                        }
                    },
                }
            } else {
                let piece: &str = t.substring_char(ci, ci + 1);
                proof {
                    assert(piece@ =~= seq![t@[ci as int]]);
                }
                let mut renewed: Vec<String> = Vec::new();
                let mut k: usize = 0;
                while k < stack.len()
                    invariant
                        k <= stack@.len(),
                        piece@ == seq![c],
                        renewed@.len() == k,
                        forall|j: int| 0 <= j < k ==> renewed@[j]@ == stack@[j]@.push(c),
                    decreases stack@.len() - k,
                {
                    let mut s2 = stack[k].clone();
                    s2.append(piece);
                    proof {
                        assert(s2@ =~= stack@[k as int]@.push(c));
                    }
                    renewed.push(s2);
                    k = k + 1;
                }
                stack = renewed;
                proof {
                    assert(strings_view(stack@) =~= stack_after(pre).map_values(
                        |s: Seq<char>| s.push(c),
                    ));
                    assert(strings_view(ans@) =~= base + emitted_after(post));
                }
            }
            ci = ci + 1;
        }
        proof {
            assert(t@.subrange(0, n as int) =~= t@);
            assert(translations@[ti as int]@ == t@);
            assert(strings_view(stack@).len() > 0);
            assert(stack@.len() > 0);
        }
        let w = stack[stack.len() - 1].clone();
        ans.push(w);
        proof {
            assert(w@ == stack_after(t@).last());
            let upto = strings_view(translations@).subrange(0, ti as int + 1);
            assert(upto.drop_last() =~= strings_view(translations@).subrange(0, ti as int));
            assert(upto.last() == t@);
            assert(strings_view(ans@) =~= base + emitted_after(t@) + seq![stack_after(
                t@,
            ).last()]);
            assert(strings_view(ans@) =~= index_words_of(upto));
        }
        ti = ti + 1;
    }
    proof {
        assert(strings_view(translations@).subrange(0, translations@.len() as int)
            =~= strings_view(translations@));
    }
    ans
}

impl ZrajmWord {
    /// The words this entry is indexed under among its English
    /// translations.
    pub fn en_index(&self) -> (r: Vec<String>)
        requires
            forall|i: int| 0 <= i < self@.en.len() ==> stack_after(#[trigger] self@.en[i]).len()
                > 0,
        ensures
            strings_view(r@) == index_words_of(self@.en),
    {
        proof {
            assert forall|i: int| 0 <= i < self.en@.len() implies stack_after(
                #[trigger] self.en@[i]@,
            ).len() > 0 by {
                assert(self@.en[i] == self.en@[i]@);
            }
        }
        get_index_words(&self.en)
    }

    /// The words this entry is indexed under among its Swedish
    /// translations.
    pub fn sv_index(&self) -> (r: Vec<String>)
        requires
            forall|i: int| 0 <= i < self@.sv.len() ==> stack_after(#[trigger] self@.sv[i]).len()
                > 0,
        ensures
            strings_view(r@) == index_words_of(self@.sv),
    {
        proof {
            assert forall|i: int| 0 <= i < self.sv@.len() implies stack_after(
                #[trigger] self.sv@[i]@,
            ).len() > 0 by {
                assert(self@.sv[i] == self.sv@[i]@);
            }
        }
        get_index_words(&self.sv)
    }
}

/// The dictionary: the loaded entries in their load order.
#[derive(Debug)]
pub struct ZrajmDictionary {
    pub words: Vec<ZrajmWord>,
}

/// The views of a sequence of dictionary entries.
pub open spec fn words_view(s: Seq<ZrajmWord>) -> Seq<WordModel> {
    s.map_values(|w: ZrajmWord| w@)
}

impl View for ZrajmDictionary {
    type V = Seq<WordModel>;

    open spec fn view(&self) -> Seq<WordModel> {
        words_view(self.words@)
    }
}

/// The entries of a given part of speech, in dictionary order.
pub open spec fn by_pos(ws: Seq<WordModel>, pos: ZrajmPOS) -> Seq<WordModel>
    decreases ws.len(),
{
    if ws.len() == 0 {
        Seq::empty()
    } else if ws.last().pos == pos {
        by_pos(ws.drop_last(), pos).push(ws.last())
    } else {
        by_pos(ws.drop_last(), pos)
    }
}

impl ZrajmDictionary {
    /// An empty dictionary.
    pub fn new() -> (d: ZrajmDictionary)
        ensures
            d@ == Seq::<WordModel>::empty(),
    {
        let d = ZrajmDictionary { words: Vec::new() };
        proof {
            assert(d@ =~= Seq::<WordModel>::empty());
        }
        d
    }

    /// Adds one entry at the end of the dictionary.
    pub fn push_word(&mut self, word: &ZrajmWord)
        ensures
            final(self)@ == old(self)@.push(word@),
    {
        self.words.push(word.duplicate());
        proof {
            assert(final(self)@ =~= old(self)@.push(word@));
        }
    }

    /// All entries tagged with the given part of speech, in dictionary
    /// order.
    pub fn entries_by_pos(&self, pos: ZrajmPOS) -> (r: Vec<ZrajmWord>)
        ensures
            words_view(r@) == by_pos(self@, pos),
    {
        let mut r: Vec<ZrajmWord> = Vec::new();
        let mut i: usize = 0;
        proof {
            assert(self@.subrange(0, 0) =~= Seq::<WordModel>::empty());
            assert(words_view(r@) =~= Seq::<WordModel>::empty());
        }
        while i < self.words.len()
            invariant
                i <= self.words@.len(),
                self@.len() == self.words@.len(),
                words_view(r@) == by_pos(self@.subrange(0, i as int), pos),
            decreases self.words@.len() - i,
        {
            let ghost upto = self@.subrange(0, i as int + 1);
            proof {
                assert(upto.drop_last() =~= self@.subrange(0, i as int));
                assert(upto.last() == self@[i as int]);
                assert(self@[i as int] == self.words@[i as int]@);
            }
            if matches_pos(&self.words[i], pos) {
                let w = self.words[i].duplicate();
                let ghost r_old = r@;
                r.push(w);
                proof {
                    assert(words_view(r_old).len() == r_old.len());
                    assert forall|k: int| 0 <= k < r@.len() implies words_view(r@)[k] == by_pos(
                        self@.subrange(0, i as int),
                        pos,
                    ).push(self@[i as int])[k] by {
                        assert(words_view(r@)[k] == r@[k]@);
                        if k < r_old.len() {
                            assert(r@[k] == r_old[k]);
                            assert(words_view(r_old)[k] == r_old[k]@);
                        }
                    }
                    assert(words_view(r@) =~= by_pos(
                        self@.subrange(0, i as int),
                        pos,
                    ).push(self@[i as int]));
                }
            }
            i = i + 1;
        }
        proof {
            assert(self@.subrange(0, self@.len() as int) =~= self@);
        }
        r
    }
}

fn matches_pos(w: &ZrajmWord, pos: ZrajmPOS) -> (r: bool)
    ensures
        r == (w@.pos == pos),
{
    w.pos == pos
}

} // verus!
