//! The Klingon alphabet: tokenization of raw text into letters, and the
//! canonical ordering of letters.
//!
//! A letter may span several characters: the digraphs `ch`, `gh`, `ng` and
//! the trigraph `tlh` are single letters. Tokenization scans the text from
//! the left; at each point the earliest position where a letter is
//! recognized yields the next token, which stretches from the current point
//! to the end of that letter, so unrecognized characters are carried along
//! glued to the front of the following letter. Text after the last
//! recognized letter is not part of any token.
//!
//! Letters are ordered case-insensitively by their lowercased form, except
//! that `q` always orders strictly before `Q`: lowercasing would otherwise
//! collapse these two distinct letters of the alphabet.

use vstd::prelude::*;
use core::cmp::Ordering;

verus! {

/// One atomic letter of the alphabet, as produced by [`letters`].
#[derive(Debug, Clone, PartialEq, Eq)]
pub struct Letter {
    letter: String,
}

impl View for Letter {
    type V = Seq<char>;

    closed spec fn view(&self) -> Seq<char> {
        self.letter@
    }
}

impl Letter {
    /// Wraps a string as a letter.
    pub fn from(letter: String) -> (l: Letter)
        ensures
            l@ == letter@,
    {
        Letter { letter }
    }

    /// The text of the letter.
    pub fn text(&self) -> (t: String)
        ensures
            t@ == self@,
    {
        self.letter.clone()
    }
}

/// The single-character letters of the alphabet.
pub open spec fn is_single_letter(c: char) -> bool {
    c == 'a' || c == 'b' || c == 'D' || c == 'e' || c == 'H' || c == 'I' || c == 'j' || c == 'l'
        || c == 'm' || c == 'n' || c == 'o' || c == 'p' || c == 'q' || c == 'Q' || c == 'r'
        || c == 'S' || c == 't' || c == 'u' || c == 'v' || c == 'w' || c == 'y' || c == '\''
}

/// The length of the letter recognized at position `p` of `s`, if any.
/// Multi-character letters are preferred over single-character ones, in the
/// fixed order `ch`, `gh`, `ng`, `tlh`, then the single characters.
pub open spec fn letter_len_at(s: Seq<char>, p: int) -> Option<int> {
    if p < 0 {
        None
    } else if p + 2 <= s.len() && s[p] == 'c' && s[p + 1] == 'h' {
        Some(2int)
    } else if p + 2 <= s.len() && s[p] == 'g' && s[p + 1] == 'h' {
        Some(2int)
    } else if p + 2 <= s.len() && s[p] == 'n' && s[p + 1] == 'g' {
        Some(2int)
    } else if p + 3 <= s.len() && s[p] == 't' && s[p + 1] == 'l' && s[p + 2] == 'h' {
        Some(3int)
    } else if p < s.len() && is_single_letter(s[p]) {
        Some(1int)
    } else {
        None
    }
}

/// The earliest position at or after `p` where a letter is recognized,
/// together with that letter's length.
pub open spec fn first_match_from(s: Seq<char>, p: int) -> Option<(int, int)>
    decreases s.len() - p,
{
    if p < 0 || p >= s.len() {
        None
    } else if letter_len_at(s, p) is Some {
        Some((p, letter_len_at(s, p)->Some_0))
    } else {
        first_match_from(s, p + 1)
    }
}

pub proof fn lemma_first_match_bounds(s: Seq<char>, p: int)
    requires
        0 <= p,
    ensures
        first_match_from(s, p) matches Some(jl) ==> p <= jl.0 && jl.0 < s.len() && 1 <= jl.1
            && jl.0 + jl.1 <= s.len(),
    decreases s.len() - p,
{
    if p < s.len() && letter_len_at(s, p) is None {
        lemma_first_match_bounds(s, p + 1);
    }
}

/// The tokenization of `s`: each token runs from the end of the previous
/// token to the end of the next recognized letter.
pub open spec fn tokenize(s: Seq<char>) -> Seq<Seq<char>>
    decreases s.len(),
    via tokenize_decreases
{
    match first_match_from(s, 0) {
        Option::None => Seq::empty(),
        Option::Some((j, l)) => seq![s.subrange(0, j + l)] + tokenize(
            s.subrange(j + l, s.len() as int),
        ),
    }
}

#[via_fn]
proof fn tokenize_decreases(s: Seq<char>) {
    lemma_first_match_bounds(s, 0);
}

/// How much of `s` the tokenization consumes: the end of its last token.
pub open spec fn consumed_len(s: Seq<char>) -> int
    decreases s.len(),
    via consumed_len_decreases
{
    match first_match_from(s, 0) {
        Option::None => 0,
        Option::Some((j, l)) => j + l + consumed_len(s.subrange(j + l, s.len() as int)),
    }
}

#[via_fn]
proof fn consumed_len_decreases(s: Seq<char>) {
    lemma_first_match_bounds(s, 0);
}

pub proof fn lemma_consumed_len_bounds(s: Seq<char>)
    ensures
        0 <= consumed_len(s) <= s.len(),
    decreases s.len(),
{
    lemma_first_match_bounds(s, 0);
    match first_match_from(s, 0) {
        Option::None => {},
        Option::Some((j, l)) => {
            lemma_consumed_len_bounds(s.subrange(j + l, s.len() as int));
        },
    }
}

proof fn lemma_letter_len_truncate(s: Seq<char>, c: int, p: int)
    requires
        0 <= c <= s.len(),
    ensures
        letter_len_at(s, p) is None ==> letter_len_at(s.subrange(0, c), p) is None,
        letter_len_at(s, p) matches Some(l) ==> (p + l <= c ==> letter_len_at(
            s.subrange(0, c),
            p,
        ) == Some(l)),
{
}

proof fn lemma_first_match_truncate(s: Seq<char>, c: int, p: int, j: int, l: int)
    requires
        0 <= p,
        first_match_from(s, p) == Some((j, l)),
        j + l <= c <= s.len(),
    ensures
        first_match_from(s.subrange(0, c), p) == Some((j, l)),
    decreases s.len() - p,
{
    lemma_first_match_bounds(s, p);
    lemma_letter_len_truncate(s, c, p);
    if letter_len_at(s, p) is None {
        lemma_first_match_truncate(s, c, p + 1, j, l);
    }
}

proof fn lemma_first_match_none_truncate(s: Seq<char>, c: int, p: int)
    requires
        0 <= p,
        0 <= c <= s.len(),
        first_match_from(s, p) == None::<(int, int)>,
    ensures
        first_match_from(s.subrange(0, c), p) == None::<(int, int)>,
    decreases c - p,
{
    if p < c {
        lemma_letter_len_truncate(s, c, p);
        lemma_first_match_none_truncate(s, c, p + 1);
    }
}

/// Cutting the unconsumed tail off a text does not change its tokenization.
pub proof fn lemma_tokenize_truncate(s: Seq<char>, c: int)
    requires
        consumed_len(s) <= c <= s.len(),
    ensures
        tokenize(s.subrange(0, c)) == tokenize(s),
    decreases s.len(),
{
    lemma_consumed_len_bounds(s);
    let t = s.subrange(0, c);
    match first_match_from(s, 0) {
        Option::None => {
            lemma_first_match_none_truncate(s, c, 0);
        },
        Option::Some((j, l)) => {
            lemma_first_match_bounds(s, 0);
            let tail = s.subrange(j + l, s.len() as int);
            lemma_consumed_len_bounds(tail);
            lemma_first_match_truncate(s, c, 0, j, l);
            assert(t.subrange(0, j + l) =~= s.subrange(0, j + l));
            assert(t.subrange(j + l, t.len() as int) =~= tail.subrange(0, c - (j + l)));
            lemma_tokenize_truncate(tail, c - (j + l));
        },
    }
}

/// The concatenation of the tokens of `s` is the consumed prefix of `s`.
pub proof fn lemma_tokenize_flatten(s: Seq<char>)
    ensures
        tokenize(s).flatten() == s.subrange(0, consumed_len(s)),
    decreases s.len(),
{
    lemma_consumed_len_bounds(s);
    match first_match_from(s, 0) {
        Option::None => {
            assert(tokenize(s).flatten() =~= s.subrange(0, 0));
        },
        Option::Some((j, l)) => {
            lemma_first_match_bounds(s, 0);
            let tok = s.subrange(0, j + l);
            let tail = s.subrange(j + l, s.len() as int);
            lemma_consumed_len_bounds(tail);
            lemma_tokenize_flatten(tail);
            let toks = seq![tok] + tokenize(tail);
            assert(toks.first() == tok);
            assert(toks.drop_first() =~= tokenize(tail));
            assert(tok + tail.subrange(0, consumed_len(tail)) =~= s.subrange(
                0,
                consumed_len(s),
            ));
        },
    }
}

/// Tokenization is idempotent: re-tokenizing the concatenation of a
/// tokenization's output letters reproduces the same token sequence.
pub proof fn lemma_tokenize_idempotent(s: Seq<char>)
    ensures
        tokenize(tokenize(s).flatten()) == tokenize(s),
{
    lemma_tokenize_flatten(s);
    lemma_consumed_len_bounds(s);
    lemma_tokenize_truncate(s, consumed_len(s));
}

fn is_single_letter_exec(c: char) -> (r: bool)
    ensures
        r == is_single_letter(c),
{
    c == 'a' || c == 'b' || c == 'D' || c == 'e' || c == 'H' || c == 'I' || c == 'j' || c == 'l'
        || c == 'm' || c == 'n' || c == 'o' || c == 'p' || c == 'q' || c == 'Q' || c == 'r'
        || c == 'S' || c == 't' || c == 'u' || c == 'v' || c == 'w' || c == 'y' || c == '\''
}

fn letter_len_at_exec(s: &str, n: usize, p: usize) -> (r: Option<usize>)
    requires
        n == s@.len(),
        p <= n,
    ensures
        match r {
            Option::Some(l) => letter_len_at(s@, p as int) == Some(l as int),
            Option::None => letter_len_at(s@, p as int) is None,
        },
{
    let rem = n - p;
    if rem >= 2 && s.get_char(p) == 'c' && s.get_char(p + 1) == 'h' {
        Some(2)
    } else if rem >= 2 && s.get_char(p) == 'g' && s.get_char(p + 1) == 'h' {
        Some(2)
    } else if rem >= 2 && s.get_char(p) == 'n' && s.get_char(p + 1) == 'g' {
        Some(2)
    } else if rem >= 3 && s.get_char(p) == 't' && s.get_char(p + 1) == 'l' && s.get_char(p + 2)
        == 'h' {
        Some(3)
    } else if rem >= 1 && is_single_letter_exec(s.get_char(p)) {
        Some(1)
    } else {
        None
    }
}

/// The view of a sequence of letters: each letter as its character sequence.
pub open spec fn letters_view(ls: Seq<Letter>) -> Seq<Seq<char>> {
    ls.map_values(|l: Letter| l@)
}

/// Splits raw text into the letters of the alphabet, recognizing
/// multi-character letters as single units.
pub fn letters(word: &str) -> (r: Vec<Letter>)
    ensures
        letters_view(r@) == tokenize(word@),
{
    let mut result: Vec<Letter> = Vec::new();
    let mut rest: &str = word;
    loop
        invariant
            letters_view(result@) + tokenize(rest@) == tokenize(word@),
        decreases rest@.len(),
    {
        let n = rest.unicode_len();
        let mut p: usize = 0;
        let mut fpos: usize = 0;
        let mut flen: usize = 0;
        let mut have: bool = false;
        while p < n && !have
            invariant
                n == rest@.len(),
                p <= n,
                have ==> first_match_from(rest@, 0) == Some((fpos as int, flen as int)),
                !have ==> first_match_from(rest@, 0) == first_match_from(rest@, p as int),
            decreases n - p + (if have { 0int } else { 1int }),
        {
            match letter_len_at_exec(rest, n, p) {
                Option::Some(l) => {
                    fpos = p;
                    flen = l;
                    have = true;
                },
                Option::None => {
                    p = p + 1;
                },
            }
        }
        if !have {
            proof {
                assert(first_match_from(rest@, p as int) == None::<(int, int)>);
                assert(tokenize(rest@) =~= Seq::<Seq<char>>::empty());
                assert(letters_view(result@) + tokenize(rest@) =~= letters_view(result@));
            }
            return result;
        }
        proof {
            lemma_first_match_bounds(rest@, 0);
        }
        let e = fpos + flen;
        let tok: &str = rest.substring_char(0, e);
        let letter = Letter { letter: tok.to_owned() };
        proof {
            let old_view = letters_view(result@);
            assert(letters_view(result@.push(letter)) =~= old_view.push(letter@));
        }
        result.push(letter);
        let new_rest: &str = rest.substring_char(e, n);
        proof {
            assert(tokenize(rest@) == seq![rest@.subrange(0, e as int)] + tokenize(
                rest@.subrange(e as int, rest@.len() as int),
            ));
            assert(letters_view(result@) + tokenize(new_rest@) =~= letters_view(
                result@.drop_last(),
            ) + tokenize(rest@));
        }
        rest = new_rest;
    }
}

/// The collation key of a character: its lowercased code point. Only the
/// basic uppercase letters fold; every other character keys as itself.
pub open spec fn lower_key(c: char) -> int {
    if 'A' as u32 <= c as u32 && c as u32 <= 'Z' as u32 {
        c as u32 + 32
    } else {
        c as u32 as int
    }
}

/// The collation key of a letter's text.
pub open spec fn key_seq(s: Seq<char>) -> Seq<int> {
    s.map_values(|c: char| lower_key(c))
}

/// Lexicographic comparison of key sequences.
pub open spec fn cmp_keys(a: Seq<int>, b: Seq<int>) -> Ordering
    decreases a.len(),
{
    if a.len() == 0 && b.len() == 0 {
        Ordering::Equal
    } else if a.len() == 0 {
        Ordering::Less
    } else if b.len() == 0 {
        Ordering::Greater
    } else if a[0] < b[0] {
        Ordering::Less
    } else if a[0] > b[0] {
        Ordering::Greater
    } else {
        cmp_keys(a.skip(1), b.skip(1))
    }
}

/// The order of two letters: `q` before `Q` as a fixed exception, all other
/// pairs by their lowercased forms.
pub open spec fn cmp_letter(a: Seq<char>, b: Seq<char>) -> Ordering {
    if a == seq!['q'] && b == seq!['Q'] {
        Ordering::Less
    } else if a == seq!['Q'] && b == seq!['q'] {
        Ordering::Greater
    } else {
        cmp_keys(key_seq(a), key_seq(b))
    }
}

fn char_key(c: char) -> (k: u32)
    ensures
        k as int == lower_key(c),
{
    let u = c as u32;
    if 65 <= u && u <= 90 {
        u + 32
    } else {
        u
    }
}

fn str_is_char(s: &str, c: char) -> (r: bool)
    ensures
        r == (s@ == seq![c]),
{
    let n = s.unicode_len();
    if n == 1 && s.get_char(0) == c {
        proof {
            assert(s@ =~= seq![c]);
        }
        true
    } else {
        proof {
            if s@ == seq![c] {
                assert(s@.len() == 1);
                assert(s@[0] == c);
            }
        }
        false
    }
}

fn cmp_lowered(a: &str, b: &str) -> (r: Ordering)
    ensures
        r == cmp_keys(key_seq(a@), key_seq(b@)),
{
    let na = a.unicode_len();
    let nb = b.unicode_len();
    let ghost ka = key_seq(a@);
    let ghost kb = key_seq(b@);
    proof {
        assert(ka.skip(0) =~= ka);
        assert(kb.skip(0) =~= kb);
    }
    let mut i: usize = 0;
    while i < na && i < nb
        invariant
            i <= na,
            i <= nb,
            na == a@.len(),
            nb == b@.len(),
            ka == key_seq(a@),
            kb == key_seq(b@),
            cmp_keys(ka.skip(i as int), kb.skip(i as int)) == cmp_keys(ka, kb),
        decreases na - i,
    {
        let x = char_key(a.get_char(i));
        let y = char_key(b.get_char(i));
        proof {
            assert(ka.skip(i as int)[0] == ka[i as int]);
            assert(kb.skip(i as int)[0] == kb[i as int]);
        }
        if x < y {
            return Ordering::Less;
        }
        if x > y {
            return Ordering::Greater;
        }
        proof {
            assert(ka.skip(i as int).skip(1) =~= ka.skip(i as int + 1));
            assert(kb.skip(i as int).skip(1) =~= kb.skip(i as int + 1));
        }
        i = i + 1;
    }
    proof {
        assert(ka.skip(i as int).len() == na - i);
        assert(kb.skip(i as int).len() == nb - i);
    }
    if na == nb {
        Ordering::Equal
    } else if na < nb {
        Ordering::Less
    } else {
        Ordering::Greater
    }
}

/// The opposite of an ordering outcome.
pub open spec fn reverse_ord(o: Ordering) -> Ordering {
    match o {
        Ordering::Less => Ordering::Greater,
        Ordering::Equal => Ordering::Equal,
        Ordering::Greater => Ordering::Less,
    }
}

pub proof fn lemma_cmp_keys_self(a: Seq<int>)
    ensures
        cmp_keys(a, a) == Ordering::Equal,
    decreases a.len(),
{
    if a.len() > 0 {
        lemma_cmp_keys_self(a.skip(1));
    }
}

pub proof fn lemma_cmp_keys_reverse(a: Seq<int>, b: Seq<int>)
    ensures
        cmp_keys(b, a) == reverse_ord(cmp_keys(a, b)),
    decreases a.len(),
{
    if a.len() > 0 && b.len() > 0 && a[0] == b[0] {
        lemma_cmp_keys_reverse(a.skip(1), b.skip(1));
    }
}

pub proof fn lemma_cmp_keys_equal(a: Seq<int>, b: Seq<int>)
    requires
        cmp_keys(a, b) == Ordering::Equal,
    ensures
        a == b,
    decreases a.len(),
{
    if a.len() > 0 {
        lemma_cmp_keys_equal(a.skip(1), b.skip(1));
        assert forall|i: int| 0 <= i < a.len() implies a[i] == b[i] by {
            if i > 0 {
                assert(a.skip(1)[i - 1] == b.skip(1)[i - 1]);
            }
        }
        assert(a =~= b);
    } else {
        assert(a =~= b);
    }
}

pub proof fn lemma_cmp_keys_transitive(a: Seq<int>, b: Seq<int>, c: Seq<int>)
    requires
        cmp_keys(a, b) == Ordering::Less,
        cmp_keys(b, c) == Ordering::Less,
    ensures
        cmp_keys(a, c) == Ordering::Less,
    decreases a.len(),
{
    if a.len() > 0 && b.len() > 0 && c.len() > 0 && a[0] == b[0] && b[0] == c[0] {
        lemma_cmp_keys_transitive(a.skip(1), b.skip(1), c.skip(1));
    }
}

proof fn lemma_key_seq_of_q(x: Seq<char>)
    requires
        key_seq(x) == key_seq(seq!['q']),
    ensures
        x == seq!['q'] || x == seq!['Q'],
{
    assert(key_seq(seq!['q'])[0] == lower_key('q'));
    assert(key_seq(x).len() == x.len());
    assert(key_seq(seq!['q']).len() == 1);
    assert(x.len() == 1);
    assert(key_seq(x)[0] == lower_key(x[0]));
    assert(lower_key(x[0]) == 'q' as u32);
    if 'A' as u32 <= x[0] as u32 && x[0] as u32 <= 'Z' as u32 {
        assert(x[0] as u32 == 'Q' as u32);
        vstd::utf8::char_u32_cast(x[0], x[0] as u32);
        vstd::utf8::char_u32_cast('Q', 'Q' as u32);
        assert(x =~= seq!['Q']);
    } else {
        assert(x[0] as u32 == 'q' as u32);
        vstd::utf8::char_u32_cast(x[0], x[0] as u32);
        vstd::utf8::char_u32_cast('q', 'q' as u32);
        assert(x =~= seq!['q']);
    }
}

proof fn lemma_q_distinct()
    ensures
        seq!['q'] != seq!['Q'],
        'q' != 'Q',
{
    assert('q' as u32 != 'Q' as u32);
    if seq!['q'] == seq!['Q'] {
        assert(seq!['q'][0] == seq!['Q'][0]);
        assert(false);
    }
}

proof fn lemma_q_keys()
    ensures
        key_seq(seq!['q']) == key_seq(seq!['Q']),
{
    assert(key_seq(seq!['q']) =~= seq![lower_key('q')]);
    assert(key_seq(seq!['Q']) =~= seq![lower_key('Q')]);
}

/// The two letters of the case-folding exception order the same way from
/// either side: `q` strictly before `Q`.
pub proof fn lemma_exception_pair()
    ensures
        cmp_letter(seq!['q'], seq!['Q']) == Ordering::Less,
        cmp_letter(seq!['Q'], seq!['q']) == Ordering::Greater,
{
    lemma_q_distinct();
}

/// Letter comparison is reflexive: every letter compares equal to itself,
/// so the strict order is irreflexive.
pub proof fn lemma_letter_cmp_irreflexive(a: Seq<char>)
    ensures
        cmp_letter(a, a) == Ordering::Equal,
{
    lemma_q_distinct();
    lemma_cmp_keys_self(key_seq(a));
}

/// Comparing two letters in either direction gives exactly opposite
/// outcomes, including for the exception pair.
pub proof fn lemma_letter_cmp_antisymmetric(a: Seq<char>, b: Seq<char>)
    ensures
        cmp_letter(b, a) == reverse_ord(cmp_letter(a, b)),
{
    lemma_q_distinct();
    if a == seq!['q'] && b == seq!['Q'] {
    } else if a == seq!['Q'] && b == seq!['q'] {
    } else {
        lemma_cmp_keys_reverse(key_seq(a), key_seq(b));
    }
}

/// Letters that compare equal compare the same way against any third
/// letter.
pub proof fn lemma_letter_cmp_congruent(a: Seq<char>, b: Seq<char>, c: Seq<char>)
    requires
        cmp_letter(a, b) == Ordering::Equal,
    ensures
        cmp_letter(a, c) == cmp_letter(b, c),
        cmp_letter(c, a) == cmp_letter(c, b),
    decreases 0int,
{
    let qs = seq!['q'];
    let bigqs = seq!['Q'];
    lemma_q_distinct();
    lemma_q_keys();
    lemma_cmp_keys_equal(key_seq(a), key_seq(b));
    if a == qs {
        lemma_key_seq_of_q(b);
        assert(b != bigqs);
        assert(b == qs);
    } else if a == bigqs {
        assert(key_seq(b) == key_seq(qs));
        lemma_key_seq_of_q(b);
        assert(b != qs);
        assert(b == bigqs);
    } else {
        if b == qs {
            lemma_key_seq_of_q(a);
            assert(false);
        }
        if b == bigqs {
            assert(key_seq(a) == key_seq(qs));
            lemma_key_seq_of_q(a);
            assert(false);
        }
    }
}

/// Letter comparison is transitive.
pub proof fn lemma_letter_cmp_transitive(a: Seq<char>, b: Seq<char>, c: Seq<char>)
    requires
        cmp_letter(a, b) == Ordering::Less,
        cmp_letter(b, c) == Ordering::Less,
    ensures
        cmp_letter(a, c) == Ordering::Less,
{
    let qs = seq!['q'];
    let bigqs = seq!['Q'];
    lemma_q_distinct();
    lemma_q_keys();
    if a == qs && b == bigqs {
        assert(!(b == qs && c == bigqs));
        if b == bigqs && c == qs {
            assert(false);
        }
        if a == qs && c == bigqs {
        } else {
            assert(cmp_keys(key_seq(b), key_seq(c)) == Ordering::Less);
            assert(key_seq(a) == key_seq(b));
            assert(!(a == bigqs && c == qs));
        }
    } else if a == bigqs && b == qs {
        assert(false);
    } else {
        assert(cmp_keys(key_seq(a), key_seq(b)) == Ordering::Less);
        if b == qs && c == bigqs {
            assert(key_seq(c) == key_seq(b));
            if a == qs {
                lemma_cmp_keys_self(key_seq(a));
                assert(false);
            }
            assert(!(a == bigqs && c == qs));
            assert(cmp_letter(a, c) == cmp_keys(key_seq(a), key_seq(c)));
        } else if b == bigqs && c == qs {
            assert(false);
        } else {
            assert(cmp_keys(key_seq(b), key_seq(c)) == Ordering::Less);
            lemma_cmp_keys_transitive(key_seq(a), key_seq(b), key_seq(c));
            if a == bigqs && c == qs {
                lemma_cmp_keys_self(key_seq(a));
                assert(false);
            }
            if a == qs && c == bigqs {
            }
        }
    }
}

/// The letters of the alphabet, each as its character sequence.
pub open spec fn is_alphabet_letter(s: Seq<char>) -> bool {
    s == seq!['a'] || s == seq!['b'] || s == seq!['c', 'h'] || s == seq!['D'] || s == seq!['e']
        || s == seq!['g', 'h'] || s == seq!['H'] || s == seq!['I'] || s == seq!['j'] || s
        == seq!['l'] || s == seq!['m'] || s == seq!['n'] || s == seq!['n', 'g'] || s == seq!['o']
        || s == seq!['p'] || s == seq!['q'] || s == seq!['Q'] || s == seq!['r'] || s == seq!['S']
        || s == seq!['t'] || s == seq!['t', 'l', 'h'] || s == seq!['u'] || s == seq!['v'] || s
        == seq!['w'] || s == seq!['y'] || s == seq!['\'']
}

/// Over the letters of the alphabet the order is total: distinct letters
/// never compare equal.
pub proof fn lemma_letter_cmp_total_on_alphabet(a: Seq<char>, b: Seq<char>)
    requires
        is_alphabet_letter(a),
        is_alphabet_letter(b),
        cmp_letter(a, b) == Ordering::Equal,
    ensures
        a == b,
{
    lemma_q_distinct();
    lemma_cmp_keys_equal(key_seq(a), key_seq(b));
    assert(a.len() == b.len());
    assert forall|i: int| 0 <= i < a.len() implies lower_key(a[i]) == lower_key(b[i]) by {
        assert(key_seq(a)[i] == lower_key(a[i]));
        assert(key_seq(b)[i] == lower_key(b[i]));
    }
    if a.len() == 1 {
        assert(lower_key(a[0]) == lower_key(b[0]));
        if a[0] == 'q' && b[0] == 'Q' {
            assert(a =~= seq!['q']);
            assert(b =~= seq!['Q']);
            assert(false);
        } else if a[0] == 'Q' && b[0] == 'q' {
            assert(a =~= seq!['Q']);
            assert(b =~= seq!['q']);
            assert(false);
        } else {
            assert(a[0] == b[0]);
            assert(a =~= b);
        }
    } else if a.len() == 2 {
        assert(lower_key(a[0]) == lower_key(b[0]));
        assert(a[0] == b[0]);
        assert(a =~= b);
    } else {
        assert(a =~= seq!['t', 'l', 'h']);
        assert(b =~= seq!['t', 'l', 'h']);
    }
}

/// Lexicographic comparison of letter sequences by the letter order.
pub open spec fn cmp_letter_seq(a: Seq<Seq<char>>, b: Seq<Seq<char>>) -> Ordering
    decreases a.len(),
{
    if a.len() == 0 && b.len() == 0 {
        Ordering::Equal
    } else if a.len() == 0 {
        Ordering::Less
    } else if b.len() == 0 {
        Ordering::Greater
    } else {
        match cmp_letter(a[0], b[0]) {
            Ordering::Equal => cmp_letter_seq(a.skip(1), b.skip(1)),
            Ordering::Less => Ordering::Less,
            Ordering::Greater => Ordering::Greater,
        }
    }
}

pub proof fn lemma_cls_self(a: Seq<Seq<char>>)
    ensures
        cmp_letter_seq(a, a) == Ordering::Equal,
    decreases a.len(),
{
    if a.len() > 0 {
        lemma_letter_cmp_irreflexive(a[0]);
        lemma_cls_self(a.skip(1));
    }
}

/// Letter sequences that compare equal have the same length and pairwise
/// equal-comparing letters.
pub proof fn lemma_cls_equal_sizes(a: Seq<Seq<char>>, b: Seq<Seq<char>>)
    requires
        cmp_letter_seq(a, b) == Ordering::Equal,
    ensures
        a.len() == b.len(),
        forall|i: int| 0 <= i < a.len() ==> cmp_letter(a[i], b[i]) == Ordering::Equal,
    decreases a.len(),
{
    if a.len() > 0 {
        lemma_cls_equal_sizes(a.skip(1), b.skip(1));
        assert forall|i: int| 0 <= i < a.len() implies cmp_letter(a[i], b[i]) == Ordering::Equal
            by {
            if i > 0 {
                assert(a.skip(1)[i - 1] == a[i]);
                assert(b.skip(1)[i - 1] == b[i]);
            }
        }
    }
}

/// Letter sequences that compare equal compare the same way against any
/// third sequence.
pub proof fn lemma_cls_congruent(a: Seq<Seq<char>>, b: Seq<Seq<char>>, c: Seq<Seq<char>>)
    requires
        cmp_letter_seq(a, b) == Ordering::Equal,
    ensures
        cmp_letter_seq(a, c) == cmp_letter_seq(b, c),
        cmp_letter_seq(c, a) == cmp_letter_seq(c, b),
    decreases a.len() + c.len(),
{
    if a.len() > 0 && b.len() > 0 && c.len() > 0 {
        lemma_letter_cmp_congruent(a[0], b[0], c[0]);
        if cmp_letter(a[0], c[0]) == Ordering::Equal {
            lemma_cls_congruent(a.skip(1), b.skip(1), c.skip(1));
        }
        lemma_letter_cmp_antisymmetric(a[0], c[0]);
        lemma_letter_cmp_antisymmetric(b[0], c[0]);
    }
}

/// Comparing two letter sequences in either direction gives exactly
/// opposite outcomes.
pub proof fn lemma_cls_antisymmetric(a: Seq<Seq<char>>, b: Seq<Seq<char>>)
    ensures
        cmp_letter_seq(b, a) == reverse_ord(cmp_letter_seq(a, b)),
    decreases a.len(),
{
    if a.len() > 0 && b.len() > 0 {
        lemma_letter_cmp_antisymmetric(a[0], b[0]);
        if cmp_letter(a[0], b[0]) == Ordering::Equal {
            lemma_cls_antisymmetric(a.skip(1), b.skip(1));
        }
    }
}

/// Lexicographic comparison of letter sequences is transitive.
pub proof fn lemma_cls_transitive(a: Seq<Seq<char>>, b: Seq<Seq<char>>, c: Seq<Seq<char>>)
    requires
        cmp_letter_seq(a, b) == Ordering::Less,
        cmp_letter_seq(b, c) == Ordering::Less,
    ensures
        cmp_letter_seq(a, c) == Ordering::Less,
    decreases a.len(),
{
    if a.len() == 0 {
    } else {
        match cmp_letter(a[0], b[0]) {
            Ordering::Less => {
                match cmp_letter(b[0], c[0]) {
                    Ordering::Less => {
                        lemma_letter_cmp_transitive(a[0], b[0], c[0]);
                    },
                    Ordering::Equal => {
                        lemma_letter_cmp_congruent(b[0], c[0], a[0]);
                        lemma_letter_cmp_antisymmetric(a[0], b[0]);
                        lemma_letter_cmp_antisymmetric(a[0], c[0]);
                    },
                    Ordering::Greater => {},
                }
            },
            Ordering::Equal => {
                lemma_letter_cmp_congruent(a[0], b[0], c[0]);
                match cmp_letter(b[0], c[0]) {
                    Ordering::Less => {},
                    Ordering::Equal => {
                        lemma_cls_transitive(a.skip(1), b.skip(1), c.skip(1));
                    },
                    Ordering::Greater => {},
                }
            },
            Ordering::Greater => {},
        }
    }
}

/// Text made purely of alphabet letters: tokenization consumes all of it
/// and every token is a letter of the alphabet.
pub open spec fn is_letter_text(t: Seq<char>) -> bool {
    tokenize(t).flatten() == t && forall|i: int|
        0 <= i < tokenize(t).len() ==> is_alphabet_letter(#[trigger] tokenize(t)[i])
}

impl Letter {
    /// Compares two letters in the canonical alphabet order.
    pub fn cmp(&self, other: &Letter) -> (r: Ordering)
        ensures
            r == cmp_letter(self@, other@),
    {
        if str_is_char(self.letter.as_str(), 'q') && str_is_char(other.letter.as_str(), 'Q') {
            Ordering::Less
        } else if str_is_char(self.letter.as_str(), 'Q') && str_is_char(
            other.letter.as_str(),
            'q',
        ) {
            Ordering::Greater
        } else {
            cmp_lowered(self.letter.as_str(), other.letter.as_str())
        }
    }
}

} // verus!
