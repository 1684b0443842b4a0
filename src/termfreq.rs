//! Term frequencies of one document: how often each case-normalised term occurs.

use vstd::prelude::*;
use vstd::slice::slice_to_vec;
use crate::keyed::{
    chars_eq, distinct_keys, find_key, keyed_map, lemma_keyed_map_domain, lemma_keyed_map_index,
    lemma_keyed_map_len, lemma_keyed_map_update,
};
use crate::lexer::{lex, tokenize, Token, TokenKind};

verus! {

/// ASCII upper case: `a`..`z` become `A`..`Z`, every other character stays.
pub open spec fn upper(c: char) -> char {
    if 'a' <= c && c <= 'z' {
        ((c as u32) - 32) as char
    } else {
        c
    }
}

/// The term a token's characters stand for.
pub open spec fn term_of(text: Seq<char>) -> Seq<char> {
    text.map_values(|c: char| upper(c))
}

/// `m` with one more occurrence of `t`.
pub open spec fn add_one(m: Map<Seq<char>, nat>, t: Seq<char>) -> Map<Seq<char>, nat> {
    m.insert(t, if m.contains_key(t) { m[t] + 1 } else { 1 })
}

/// How often each term of `terms` occurs in it.
pub open spec fn term_counts(terms: Seq<Seq<char>>) -> Map<Seq<char>, nat>
    decreases terms.len(),
{
    if terms.len() == 0 {
        Map::empty()
    } else {
        add_one(term_counts(terms.drop_last()), terms.last())
    }
}

/// The terms of a token sequence, in order.
pub open spec fn terms_of(ts: Seq<(TokenKind, Seq<char>)>) -> Seq<Seq<char>> {
    ts.map_values(|t: (TokenKind, Seq<char>)| term_of(t.1))
}

/// The term frequencies of a document's text.
pub open spec fn doc_counts(text: Seq<char>) -> Map<Seq<char>, nat> {
    term_counts(terms_of(lex(text)))
}

/// ASCII upper case of one character.
pub fn to_upper(c: char) -> (r: char)
    ensures
        r == upper(c),
{
    if 'a' <= c && c <= 'z' {
        ((c as u8) - 32) as char
    } else {
        c
    }
}

/// The term of a token's characters.
pub fn normalize(text: &[char]) -> (r: Vec<char>)
    ensures
        r@ == term_of(text@),
{
    let mut r: Vec<char> = Vec::new();
    let mut i: usize = 0;
    while i < text.len()
        invariant
            i <= text@.len(),
            r@ =~= term_of(text@.take(i as int)),
        decreases text@.len() - i,
    {
        r.push(to_upper(text[i]));
        i = i + 1;
        assert(text@.take(i as int) =~= text@.take(i - 1).push(text@[i - 1]));
    }
    assert(text@.take(i as int) =~= text@);
    r
}

/// Term frequencies of one document.
#[derive(Debug)]
pub struct TermFreq {
    entries: Vec<(Vec<char>, usize)>,
}

pub open spec fn count_pairs(v: Seq<(Vec<char>, usize)>) -> Seq<(Seq<char>, nat)> {
    v.map_values(|e: (Vec<char>, usize)| (e.0@, e.1 as nat))
}

/// The pairs of `v` have distinct terms and counts of at least one.
pub open spec fn valid_counts(v: Seq<(Vec<char>, usize)>) -> bool {
    &&& distinct_keys(count_pairs(v))
    &&& forall|i: int| 0 <= i < v.len() ==> #[trigger] v[i].1 >= 1
}

impl View for TermFreq {
    type V = Map<Seq<char>, nat>;

    closed spec fn view(&self) -> Map<Seq<char>, nat> {
        keyed_map(count_pairs(self.entries@))
    }
}

impl TermFreq {
    /// Every stored term occurs once, with a count of at least one.
    pub closed spec fn wf(&self) -> bool {
        valid_counts(self.entries@)
    }

    /// No present term has a zero count, and the map is finite.
    pub proof fn lemma_counts_positive(&self)
        requires
            self.wf(),
        ensures
            self@.dom().finite(),
            forall|t: Seq<char>| #[trigger] self@.contains_key(t) ==> self@[t] >= 1,
    {
        let s = count_pairs(self.entries@);
        lemma_keyed_map_len(s);
        assert forall|t: Seq<char>| #[trigger] self@.contains_key(t) implies self@[t] >= 1 by {
            lemma_keyed_map_domain(s, t);
            let i = choose|i: int| 0 <= i < s.len() && #[trigger] s[i].0 == t;
            lemma_keyed_map_index(s, i);
        }
    }

    pub fn new() -> (r: Self)
        ensures
            r.wf(),
            r@ == Map::<Seq<char>, nat>::empty(),
    {
        let r = TermFreq { entries: Vec::new() };
        assert(count_pairs(r.entries@) =~= Seq::empty());
        r
    }

    /// Counts one more occurrence of `term`.
    pub fn add_term(&mut self, term: Vec<char>)
        requires
            old(self).wf(),
            old(self)@.contains_key(term@) ==> old(self)@[term@] < usize::MAX,
        ensures
            final(self).wf(),
            final(self)@ == add_one(old(self)@, term@),
    {
        let ghost s = count_pairs(self.entries@);
        match find_key(&self.entries, term.as_slice()) {
            Some(i) => {
                proof {
                    assert(s[i as int].0 == term@);
                    lemma_keyed_map_index(s, i as int);
                }
                let n = self.entries[i].1;
                let ghost u = s.update(i as int, (s[i as int].0, (n + 1) as nat));
                proof {
                    lemma_keyed_map_update(s, i as int, (n + 1) as nat);
                }
                self.entries.set(i, (term, n + 1));
                assert(count_pairs(self.entries@) =~= u);
            },
            None => {
                proof {
                    lemma_keyed_map_domain(s, term@);
                    if exists|j: int| 0 <= j < s.len() && #[trigger] s[j].0 == term@ {
                        let j = choose|j: int| 0 <= j < s.len() && #[trigger] s[j].0 == term@;
                        assert(self.entries@[j].0@ == term@);
                    }
                }
                let ghost t = term@;
                self.entries.push((term, 1));
                assert(count_pairs(self.entries@) =~= s.push((t, 1nat)));
                assert(count_pairs(self.entries@).drop_last() =~= s);
            },
        }
    }

    /// How often `term` occurs: zero where it is absent.
    pub fn count(&self, term: &[char]) -> (r: usize)
        requires
            self.wf(),
        ensures
            r == (if self@.contains_key(term@) { self@[term@] } else { 0 }),
    {
        let ghost s = count_pairs(self.entries@);
        match find_key(&self.entries, term) {
            Some(i) => {
                proof {
                    assert(s[i as int].0 == term@);
                    lemma_keyed_map_index(s, i as int);
                }
                self.entries[i].1
            },
            None => {
                proof {
                    lemma_keyed_map_domain(s, term@);
                    if exists|j: int| 0 <= j < s.len() && #[trigger] s[j].0 == term@ {
                        let j = choose|j: int| 0 <= j < s.len() && #[trigger] s[j].0 == term@;
                        assert(self.entries@[j].0@ == term@);
                    }
                }
                0
            },
        }
    }

    /// The number of distinct terms.
    pub fn len(&self) -> (r: usize)
        requires
            self.wf(),
        ensures
            r == self@.len(),
    {
        proof {
            lemma_keyed_map_len(count_pairs(self.entries@));
        }
        self.entries.len()
    }

    /// The terms and their counts, each term once.
    pub fn to_entries(&self) -> (r: Vec<(Vec<char>, usize)>)
        requires
            self.wf(),
        ensures
            valid_counts(r@),
            keyed_map(count_pairs(r@)) == self@,
    {
        copy_counts(&self.entries)
    }

    /// Term frequencies from pairs of a term and its count; `None` where a
    /// term occurs twice or a count is zero.
    pub fn from_entries(entries: Vec<(Vec<char>, usize)>) -> (r: Option<Self>)
        ensures
            r is Some <==> valid_counts(entries@),
            r matches Some(t) ==> t.wf() && t@ == keyed_map(count_pairs(entries@)),
    {
        let ghost s = count_pairs(entries@);
        let mut i: usize = 0;
        while i < entries.len()
            invariant
                s == count_pairs(entries@),
                i <= entries@.len(),
                forall|a: int, b: int| 0 <= a < b < i ==> #[trigger] s[a].0 != #[trigger] s[b].0,
                forall|a: int| 0 <= a < i ==> #[trigger] entries@[a].1 >= 1,
            decreases entries@.len() - i,
        {
            if entries[i].1 == 0 {
                return None;
            }
            let mut j: usize = 0;
            while j < i
                invariant
                    s == count_pairs(entries@),
                    i < entries@.len(),
                    j <= i,
                    forall|a: int| 0 <= a < j ==> #[trigger] s[a].0 != s[i as int].0,
                decreases i - j,
            {
                if chars_eq(entries[j].0.as_slice(), entries[i].0.as_slice()) {
                    assert(s[j as int].0 == s[i as int].0);
                    return None;
                }
                j = j + 1;
            }
            i = i + 1;
        }
        Some(TermFreq { entries })
    }
}

/// A copy of a list of terms and counts.
pub fn copy_counts(v: &Vec<(Vec<char>, usize)>) -> (r: Vec<(Vec<char>, usize)>)
    ensures
        r@.len() == v@.len(),
        count_pairs(r@) == count_pairs(v@),
        forall|a: int| 0 <= a < v@.len() ==> #[trigger] r@[a].1 == v@[a].1,
        valid_counts(r@) == valid_counts(v@),
{
    let mut r: Vec<(Vec<char>, usize)> = Vec::new();
    let mut i: usize = 0;
    while i < v.len()
        invariant
            i <= v@.len(),
            count_pairs(r@) =~= count_pairs(v@.take(i as int)),
            forall|a: int| 0 <= a < i ==> #[trigger] r@[a].1 == v@[a].1,
            r@.len() == i,
        decreases v@.len() - i,
    {
        let term = slice_to_vec(v[i].0.as_slice());
        let ghost old_r = r@;
        r.push((term, v[i].1));
        assert(r@ == old_r.push(r@[i as int]));
        assert(count_pairs(r@) =~= count_pairs(old_r).push((v@[i as int].0@, v@[i as int].1 as nat)));
        i = i + 1;
        assert(v@.take(i as int) =~= v@.take(i - 1).push(v@[i - 1]));
    }
    assert(v@.take(i as int) =~= v@);
    assert(valid_counts(r@) == valid_counts(v@)) by {
        if valid_counts(v@) {
            assert forall|a: int| 0 <= a < r@.len() implies #[trigger] r@[a].1 >= 1 by {
                assert(v@[a].1 >= 1);
            }
        }
        if valid_counts(r@) {
            assert forall|a: int| 0 <= a < v@.len() implies #[trigger] v@[a].1 >= 1 by {
                assert(r@[a].1 >= 1);
            }
        }
    }
    r
}

/// The term frequencies of a token sequence: each token counts once under
/// its upper-case term.
pub fn term_frequency(tokens: &Vec<Token>) -> (r: TermFreq)
    ensures
        r.wf(),
        r@ == term_counts(terms_of(tokens@.map_values(|t: Token| t@))),
{
    let ghost ts = tokens@.map_values(|t: Token| t@);
    let mut tf = TermFreq::new();
    let mut i: usize = 0;
    while i < tokens.len()
        invariant
            ts == tokens@.map_values(|t: Token| t@),
            i <= tokens@.len(),
            tf.wf(),
            tf@ == term_counts(terms_of(ts.take(i as int))),
            forall|t: Seq<char>| #[trigger] tf@.contains_key(t) ==> tf@[t] <= i,
        decreases tokens@.len() - i,
    {
        let term = normalize(tokens[i].text);
        tf.add_term(term);
        i = i + 1;
        assert(terms_of(ts.take(i as int)).drop_last() =~= terms_of(ts.take(i - 1)));
    }
    assert(ts.take(i as int) =~= ts);
    tf
}

/// The characters of `s`, in order.
pub fn chars_of(s: &str) -> (r: Vec<char>)
    ensures
        r@ == s@,
{
    let mut r: Vec<char> = Vec::new();
    for c in it: s.chars()
        invariant
            r@ == it.seq().take(it.index() as int),
    {
        r.push(c);
    }
    r
}

/// The term frequencies of a document's text.
pub fn index_document(doc_content: &str) -> (r: TermFreq)
    ensures
        r.wf(),
        r@ == doc_counts(doc_content@),
{
    let content = chars_of(doc_content);
    index_chars(content.as_slice())
}

/// The term frequencies of a document's text, given as characters.
pub fn index_chars(content: &[char]) -> (r: TermFreq)
    ensures
        r.wf(),
        r@ == doc_counts(content@),
{
    let tokens = tokenize(content);
    term_frequency(&tokens)
}

} // verus!
