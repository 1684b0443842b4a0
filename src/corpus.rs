//! The corpus index: for each document path, the term frequencies of that
//! document; and its flat snapshot form, a list of documents each with a list
//! of terms and counts.

use vstd::prelude::*;
use vstd::slice::slice_to_vec;
use crate::keyed::{
    chars_eq, distinct_keys, find_key, keyed_map, lemma_keyed_map_domain, lemma_keyed_map_index,
    lemma_keyed_map_len, lemma_keyed_map_update,
};
use crate::markup::{extract_text, extracted};
use crate::termfreq::{copy_counts, count_pairs, doc_counts, index_chars, valid_counts, TermFreq};

verus! {

/// The model of a corpus index: document path to term counts.
pub type IndexMap = Map<Seq<char>, Map<Seq<char>, nat>>;

/// The snapshot form: each document's path with its terms and counts.
pub type Snapshot = Vec<(Vec<char>, Vec<(Vec<char>, usize)>)>;

pub open spec fn doc_pairs(s: Seq<(Vec<char>, Vec<(Vec<char>, usize)>)>) -> Seq<
    (Seq<char>, Map<Seq<char>, nat>),
> {
    s.map_values(
        |e: (Vec<char>, Vec<(Vec<char>, usize)>)| (e.0@, keyed_map(count_pairs(e.1@))),
    )
}

/// A snapshot is valid where no path occurs twice and each term list is valid.
pub open spec fn valid_snapshot(s: Seq<(Vec<char>, Vec<(Vec<char>, usize)>)>) -> bool {
    &&& distinct_keys(doc_pairs(s))
    &&& forall|i: int| 0 <= i < s.len() ==> valid_counts(#[trigger] s[i].1@)
}

/// The index that a snapshot holds, where it is valid.
pub open spec fn load(s: Seq<(Vec<char>, Vec<(Vec<char>, usize)>)>) -> Option<IndexMap> {
    if valid_snapshot(s) {
        Some(keyed_map(doc_pairs(s)))
    } else {
        None
    }
}

/// `s` is a snapshot of `idx`.
pub open spec fn stores(idx: IndexMap, s: Seq<(Vec<char>, Vec<(Vec<char>, usize)>)>) -> bool {
    valid_snapshot(s) && keyed_map(doc_pairs(s)) == idx
}

/// The index after one document: its entry is set to the counts of its text
/// where the text could be extracted, and the index is unchanged where not.
pub open spec fn after_document(idx: IndexMap, path: Seq<char>, text: Option<Seq<char>>) -> IndexMap {
    match text {
        Some(t) => idx.insert(path, doc_counts(t)),
        None => idx,
    }
}

/// Term frequencies of each document of a corpus.
#[derive(Debug)]
pub struct CorpusIndex {
    docs: Vec<(Vec<char>, TermFreq)>,
}

pub open spec fn index_pairs(v: Seq<(Vec<char>, TermFreq)>) -> Seq<(Seq<char>, Map<Seq<char>, nat>)> {
    v.map_values(|e: (Vec<char>, TermFreq)| (e.0@, e.1@))
}

impl View for CorpusIndex {
    type V = IndexMap;

    closed spec fn view(&self) -> IndexMap {
        keyed_map(index_pairs(self.docs@))
    }
}

impl CorpusIndex {
    /// Each document occurs once, with well-formed term frequencies.
    pub closed spec fn wf(&self) -> bool {
        &&& distinct_keys(index_pairs(self.docs@))
        &&& forall|i: int| 0 <= i < self.docs@.len() ==> (#[trigger] self.docs@[i]).1.wf()
    }

    pub fn new() -> (r: Self)
        ensures
            r.wf(),
            r@ == IndexMap::empty(),
    {
        let r = CorpusIndex { docs: Vec::new() };
        assert(index_pairs(r.docs@) =~= Seq::empty());
        r
    }

    /// The number of documents.
    pub fn len(&self) -> (r: usize)
        requires
            self.wf(),
        ensures
            r == self@.len(),
    {
        proof {
            lemma_keyed_map_len(index_pairs(self.docs@));
        }
        self.docs.len()
    }

    /// The term frequencies of the document at `path`, if it is indexed.
    pub fn get(&self, path: &[char]) -> (r: Option<&TermFreq>)
        requires
            self.wf(),
        ensures
            r is Some <==> self@.contains_key(path@),
            r matches Some(tf) ==> tf.wf() && tf@ == self@[path@],
    {
        let ghost s = index_pairs(self.docs@);
        proof {
            lemma_keyed_map_domain(s, path@);
        }
        match find_key(&self.docs, path) {
            Some(i) => {
                proof {
                    assert(s[i as int].0 == path@);
                    lemma_keyed_map_index(s, i as int);
                }
                Some(&self.docs[i].1)
            },
            None => {
                proof {
                    if exists|j: int| 0 <= j < s.len() && #[trigger] s[j].0 == path@ {
                        let j = choose|j: int| 0 <= j < s.len() && #[trigger] s[j].0 == path@;
                        assert(self.docs@[j].0@ == path@);
                    }
                }
                None
            },
        }
    }

    /// Sets the entry of the document at `path`, replacing an earlier one.
    pub fn insert(&mut self, path: Vec<char>, tf: TermFreq)
        requires
            old(self).wf(),
            tf.wf(),
        ensures
            final(self).wf(),
            final(self)@ == old(self)@.insert(path@, tf@),
    {
        let ghost s = index_pairs(self.docs@);
        let ghost p = path@;
        let ghost m = tf@;
        match find_key(&self.docs, path.as_slice()) {
            Some(i) => {
                proof {
                    assert(s[i as int].0 == p);
                    lemma_keyed_map_update(s, i as int, m);
                }
                self.docs.set(i, (path, tf));
                assert(index_pairs(self.docs@) =~= s.update(i as int, (s[i as int].0, m)));
            },
            None => {
                self.docs.push((path, tf));
                assert(index_pairs(self.docs@) =~= s.push((p, m)));
                assert(index_pairs(self.docs@).drop_last() =~= s);
                assert forall|a: int, b: int|
                    0 <= a < b < index_pairs(self.docs@).len() implies #[trigger] index_pairs(
                    self.docs@,
                )[a].0 != #[trigger] index_pairs(self.docs@)[b].0 by {
                    if b == s.len() {
                        assert(self.docs@[a].0@ != p);
                    } else {
                        assert(s[a].0 != s[b].0);
                    }
                }
            },
        }
    }

    /// Adds the document at `path` whose extracted text is `text`: its term
    /// frequencies where the text is there, nothing where extraction failed.
    /// Returns whether the document was indexed.
    pub fn add_extracted(&mut self, path: Vec<char>, text: Option<Vec<char>>) -> (r: bool)
        requires
            old(self).wf(),
        ensures
            final(self).wf(),
            r == text is Some,
            final(self)@ == after_document(old(self)@, path@, text.deep_view()),
    {
        match text {
            Some(t) => {
                assert(t.deep_view() =~= t@);
                let tf = index_chars(t.as_slice());
                self.insert(path, tf);
                true
            },
            None => false,
        }
    }

    /// Indexes the markup document at `path` whose bytes are `bytes`. A
    /// document that does not parse is left out. Returns whether it was indexed.
    pub fn index_file(&mut self, path: Vec<char>, bytes: &[u8]) -> (r: bool)
        requires
            old(self).wf(),
        ensures
            final(self).wf(),
            r == extracted(bytes@) is Some,
            final(self)@ == after_document(old(self)@, path@, extracted(bytes@)),
    {
        let text = extract_text(bytes);
        self.add_extracted(path, text)
    }

    /// The snapshot form of the index.
    pub fn to_entries(&self) -> (r: Snapshot)
        requires
            self.wf(),
        ensures
            stores(self@, r@),
    {
        let mut r: Snapshot = Vec::new();
        let mut i: usize = 0;
        while i < self.docs.len()
            invariant
                self.wf(),
                i <= self.docs@.len(),
                r@.len() == i,
                doc_pairs(r@) =~= index_pairs(self.docs@.take(i as int)),
                forall|a: int| 0 <= a < i ==> valid_counts(#[trigger] r@[a].1@),
            decreases self.docs@.len() - i,
        {
            let path = slice_to_vec(self.docs[i].0.as_slice());
            let terms = self.docs[i].1.to_entries();
            let ghost old_r = r@;
            r.push((path, terms));
            i = i + 1;
            assert(r@ == old_r.push(r@[i - 1]));
            assert(self.docs@.take(i as int) =~= self.docs@.take(i - 1).push(self.docs@[i - 1]));
            assert(doc_pairs(r@) =~= doc_pairs(old_r).push(
                (self.docs@[i - 1].0@, self.docs@[i - 1].1@),
            ));
        }
        assert(self.docs@.take(i as int) =~= self.docs@);
        r
    }

    /// The index that a snapshot holds; `None` where a path occurs twice, or a
    /// document's terms are not valid term frequencies.
    pub fn from_entries(entries: Snapshot) -> (r: Option<Self>)
        ensures
            r is Some <==> load(entries@) is Some,
            r matches Some(c) ==> c.wf() && Some(c@) == load(entries@),
    {
        let ghost s = doc_pairs(entries@);
        let mut i: usize = 0;
        while i < entries.len()
            invariant
                s == doc_pairs(entries@),
                i <= entries@.len(),
                forall|a: int, b: int| 0 <= a < b < i ==> #[trigger] s[a].0 != #[trigger] s[b].0,
            decreases entries@.len() - i,
        {
            let mut j: usize = 0;
            while j < i
                invariant
                    s == doc_pairs(entries@),
                    i < entries@.len(),
                    j <= i,
                    forall|a: int| 0 <= a < j ==> #[trigger] s[a].0 != s[i as int].0,
                decreases i - j,
            {
                if chars_eq(entries[j].0.as_slice(), entries[i].0.as_slice()) {
                    assert(s[j as int].0 == s[i as int].0);
                    return None;
                }
                j = j + 1;
            }
            i = i + 1;
        }
        assert(distinct_keys(s));
        let mut docs: Vec<(Vec<char>, TermFreq)> = Vec::new();
        let mut k: usize = 0;
        while k < entries.len()
            invariant
                s == doc_pairs(entries@),
                distinct_keys(s),
                k <= entries@.len(),
                docs@.len() == k,
                index_pairs(docs@) =~= s.take(k as int),
                forall|a: int| 0 <= a < k ==> valid_counts(#[trigger] entries@[a].1@),
                forall|a: int| 0 <= a < k ==> (#[trigger] docs@[a]).1.wf(),
            decreases entries@.len() - k,
        {
            let terms = copy_counts(&entries[k].1);
            match TermFreq::from_entries(terms) {
                None => {
                    return None;
                },
                Some(tf) => {
                    let path = slice_to_vec(entries[k].0.as_slice());
                    let ghost old_docs = docs@;
                    docs.push((path, tf));
                    assert(docs@ == old_docs.push(docs@[k as int]));
                    assert(index_pairs(docs@) =~= index_pairs(old_docs).push(s[k as int]));
                    k = k + 1;
                    assert(s.take(k as int) =~= s.take(k - 1).push(s[k - 1]));
                },
            }
        }
        assert(s.take(k as int) =~= s);
        Some(CorpusIndex { docs })
    }
}

/// What a directory walk does where a directory cannot be read.
#[derive(Clone, Copy, Debug, PartialEq, Eq, Structural)]
pub enum DirReadFailure {
    /// Give up the whole run.
    Abort,
    /// Report it and go on with the directories beside it.
    Skip,
}

/// A directory that cannot be read ends the run at the root of the walk,
/// and is skipped below it.
pub fn on_dir_read_failure(is_root: bool) -> (r: DirReadFailure)
    ensures
        r == (if is_root { DirReadFailure::Abort } else { DirReadFailure::Skip }),
{
    if is_root {
        DirReadFailure::Abort
    } else {
        DirReadFailure::Skip
    }
}

/// The number of documents in a snapshot; `None` where it is not valid.
pub fn document_count(snapshot: Snapshot) -> (r: Option<usize>)
    ensures
        match load(snapshot@) {
            Some(m) => r == Some(m.len() as usize),
            None => r is None,
        },
{
    match CorpusIndex::from_entries(snapshot) {
        Some(index) => Some(index.len()),
        None => None,
    }
}

/// The index after a sequence of documents, each a path and the bytes read
/// from it, indexed one after another from `idx`.
pub open spec fn index_all(idx: IndexMap, files: Seq<(Seq<char>, Seq<u8>)>) -> IndexMap
    decreases files.len(),
{
    if files.len() == 0 {
        idx
    } else {
        after_document(index_all(idx, files.drop_last()), files.last().0, extracted(files.last().1))
    }
}

/// Loading a snapshot of an index gives back that index: the same documents
/// with the same term counts.
pub proof fn lemma_snapshot_round_trip(
    index: &CorpusIndex,
    snapshot: Seq<(Vec<char>, Vec<(Vec<char>, usize)>)>,
)
    requires
        index.wf(),
        stores(index@, snapshot),
    ensures
        load(snapshot) == Some(index@),
{
}

/// A document whose text cannot be extracted is absent from the index built
/// from a sequence of documents, and every other document that was extracted
/// is present with the counts of its text (the last of its path wins).
pub proof fn lemma_failed_document_left_out(
    idx: IndexMap,
    files: Seq<(Seq<char>, Seq<u8>)>,
    failed: int,
)
    requires
        0 <= failed < files.len(),
        extracted(files[failed].1) is None,
        !idx.contains_key(files[failed].0),
        forall|k: int| 0 <= k < files.len() && k != failed ==> #[trigger] files[k].0 != files[failed].0,
    ensures
        !index_all(idx, files).contains_key(files[failed].0),
        forall|k: int|
            0 <= k < files.len() && (#[trigger] extracted(files[k].1)) is Some && (forall|l: int|
                k < l < files.len() ==> #[trigger] files[l].0 != files[k].0) ==> {
                &&& index_all(idx, files).contains_key(files[k].0)
                &&& index_all(idx, files)[files[k].0] == doc_counts(extracted(files[k].1)->0)
            },
    decreases files.len(),
{
    let p = files.drop_last();
    let last = files.len() - 1;
    if failed < last {
        assert forall|k: int| 0 <= k < p.len() && k != failed implies #[trigger] p[k].0 != p[failed].0 by {
            assert(p[k] == files[k]);
        }
        lemma_failed_document_left_out(idx, p, failed);
    } else {
        lemma_index_all_keeps_absent(idx, p, files[failed].0);
    }
    assert forall|k: int|
        0 <= k < files.len() && (#[trigger] extracted(files[k].1)) is Some && (forall|l: int|
            k < l < files.len() ==> #[trigger] files[l].0 != files[k].0) implies {
        &&& index_all(idx, files).contains_key(files[k].0)
        &&& index_all(idx, files)[files[k].0] == doc_counts(extracted(files[k].1)->0)
    } by {
        if k < last {
            assert(files[last].0 != files[k].0);
            assert(p[k] == files[k]);
            lemma_index_all_keeps_last(idx, p, k);
        }
    }
}

proof fn lemma_index_all_keeps_absent(idx: IndexMap, files: Seq<(Seq<char>, Seq<u8>)>, path: Seq<char>)
    requires
        !idx.contains_key(path),
        forall|k: int| 0 <= k < files.len() ==> #[trigger] files[k].0 != path,
    ensures
        !index_all(idx, files).contains_key(path),
    decreases files.len(),
{
    if files.len() > 0 {
        let p = files.drop_last();
        assert forall|k: int| 0 <= k < p.len() implies #[trigger] p[k].0 != path by {
            assert(p[k] == files[k]);
        }
        lemma_index_all_keeps_absent(idx, p, path);
        assert(files[files.len() - 1].0 != path);
    }
}

proof fn lemma_index_all_keeps_last(idx: IndexMap, files: Seq<(Seq<char>, Seq<u8>)>, k: int)
    requires
        0 <= k < files.len(),
        extracted(files[k].1) is Some,
        forall|l: int| k < l < files.len() ==> #[trigger] files[l].0 != files[k].0,
    ensures
        index_all(idx, files).contains_key(files[k].0),
        index_all(idx, files)[files[k].0] == doc_counts(extracted(files[k].1)->0),
    decreases files.len(),
{
    let last = files.len() - 1;
    if k < last {
        let p = files.drop_last();
        assert forall|l: int| k < l < p.len() implies #[trigger] p[l].0 != p[k].0 by {
            assert(p[l] == files[l]);
        }
        lemma_index_all_keeps_last(idx, p, k);
        assert(files[last].0 != files[k].0);
    }
}

} // verus!
