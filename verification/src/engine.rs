//! The index of all documents and the integer statistics that ranking a query
//! against it needs.

use vstd::prelude::*;
use crate::hash::{hash_document, token_counts, TermCounts};
use crate::lex::tokens;
use vstd::hash_map::StringHashMap;
use crate::text::string_views;

verus! {

/// One indexed document as the contracts see it: its path, its term counts,
/// and its number of tokens.
pub type IndexEntry = (Seq<char>, Map<Seq<char>, u32>, nat);

/// Whether some entry of `docs` has path `p`.
pub open spec fn has_path(docs: Seq<IndexEntry>, p: Seq<char>) -> bool {
    exists|i: int| 0 <= i < docs.len() && (#[trigger] docs[i]).0 == p
}

/// No two entries of `docs` have the same path.
pub open spec fn distinct_paths(docs: Seq<IndexEntry>) -> bool {
    forall|i: int, j: int|
        0 <= i < docs.len() && 0 <= j < docs.len() && i != j ==> (#[trigger] docs[i]).0 != (
        #[trigger] docs[j]).0
}

/// `docs` after storing `e`: it replaces the entry with the same path, or
/// comes last when there is none.
pub open spec fn inserted(docs: Seq<IndexEntry>, e: IndexEntry) -> Seq<IndexEntry> {
    if has_path(docs, e.0) {
        docs.update(choose|i: int| 0 <= i < docs.len() && (#[trigger] docs[i]).0 == e.0, e)
    } else {
        docs.push(e)
    }
}

/// The number of entries of `docs` whose counts hold `t`.
pub open spec fn containing(docs: Seq<IndexEntry>, t: Seq<char>) -> nat
    decreases docs.len(),
{
    if docs.len() == 0 {
        0
    } else {
        containing(docs.drop_last(), t) + if docs.last().1.contains_key(t) {
            1nat
        } else {
            0nat
        }
    }
}

/// The paths of the entries of `docs`, in order.
pub open spec fn entry_paths(docs: Seq<IndexEntry>) -> Seq<Seq<char>> {
    docs.map_values(|e: IndexEntry| e.0)
}

/// Storing an entry keeps paths distinct, finds the entry under its path,
/// keeps every entry of another path where it was, and adds one entry
/// exactly when the path was new.
pub proof fn lemma_inserted(docs: Seq<IndexEntry>, e: IndexEntry)
    requires
        distinct_paths(docs),
    ensures
        distinct_paths(inserted(docs, e)),
        exists|i: int| 0 <= i < inserted(docs, e).len() && #[trigger] inserted(docs, e)[i] == e,
        forall|i: int|
            0 <= i < docs.len() && (#[trigger] docs[i]).0 != e.0 ==> inserted(docs, e)[i] == docs[i],
        inserted(docs, e).len() == if has_path(docs, e.0) {
            docs.len()
        } else {
            docs.len() + 1
        },
{
    let r = inserted(docs, e);
    if has_path(docs, e.0) {
        let k = choose|i: int| 0 <= i < docs.len() && (#[trigger] docs[i]).0 == e.0;
        assert(r[k] == e);
        assert forall|a: int, b: int| 0 <= a < r.len() && 0 <= b < r.len() && a != b implies (
        #[trigger] r[a]).0 != (#[trigger] r[b]).0 by {
            if a != k && b != k {
                assert(r[a] == docs[a] && r[b] == docs[b]);
            } else if a == k {
                assert(r[b] == docs[b]);
                assert(docs[k].0 == e.0);
            } else {
                assert(r[a] == docs[a]);
                assert(docs[k].0 == e.0);
            }
        }
        assert forall|i: int| 0 <= i < docs.len() && (#[trigger] docs[i]).0 != e.0 implies r[i]
            == docs[i] by {
            assert(i != k);
        }
    } else {
        assert(r[docs.len() as int] == e);
        assert forall|a: int, b: int| 0 <= a < r.len() && 0 <= b < r.len() && a != b implies (
        #[trigger] r[a]).0 != (#[trigger] r[b]).0 by {
            if a < docs.len() && b < docs.len() {
                assert(r[a] == docs[a] && r[b] == docs[b]);
            } else if a < docs.len() {
                assert(r[a] == docs[a]);
                assert(docs[a].0 != e.0);
            } else {
                assert(r[b] == docs[b]);
                assert(docs[b].0 != e.0);
            }
        }
    }
}

/// Storing two entries under the same path leaves the index as storing only
/// the second would.
pub proof fn lemma_inserted_twice(docs: Seq<IndexEntry>, e1: IndexEntry, e2: IndexEntry)
    requires
        distinct_paths(docs),
        e1.0 == e2.0,
    ensures
        inserted(inserted(docs, e1), e2) == inserted(docs, e2),
{
    lemma_inserted(docs, e1);
    let d1 = inserted(docs, e1);
    assert(has_path(d1, e1.0)) by {
        let i = choose|i: int| 0 <= i < d1.len() && #[trigger] d1[i] == e1;
        assert(d1[i].0 == e1.0);
    }
    let k1 = choose|i: int| 0 <= i < d1.len() && (#[trigger] d1[i]).0 == e2.0;
    if has_path(docs, e1.0) {
        let k = choose|i: int| 0 <= i < docs.len() && (#[trigger] docs[i]).0 == e1.0;
        assert(d1[k].0 == e2.0);
        assert(k1 == k) by {
            if k1 != k {
                assert(d1[k1].0 != d1[k].0);
            }
        }
        assert(inserted(d1, e2) =~= inserted(docs, e2));
    } else {
        assert(d1[docs.len() as int].0 == e2.0);
        assert(k1 == docs.len()) by {
            if k1 != docs.len() {
                assert(d1[k1] == docs[k1]);
            }
        }
        assert(inserted(d1, e2) =~= inserted(docs, e2));
    }
}

/// No term occurs in more documents than the index holds.
pub proof fn lemma_containing_bound(docs: Seq<IndexEntry>, t: Seq<char>)
    ensures
        containing(docs, t) <= docs.len(),
    decreases docs.len(),
{
    if docs.len() > 0 {
        lemma_containing_bound(docs.drop_last(), t);
    }
}

/// The divisor of a term's inverse document frequency lies between 1 and
/// the number of documents (when there is one), so its logarithm of the
/// number of documents over it is never negative.
pub proof fn lemma_idf_divisor_bounds(docs: Seq<IndexEntry>, t: Seq<char>)
    ensures
        1 <= idf_divisor(docs, t),
        docs.len() >= 1 ==> idf_divisor(docs, t) <= docs.len(),
{
    lemma_containing_bound(docs, t);
}

/// The documents that have been indexed, each under its path.
pub struct DocumentIndex {
    docs: Vec<(String, TermCounts)>,
    positions: StringHashMap<usize>,
}

impl View for DocumentIndex {
    type V = Seq<IndexEntry>;

    closed spec fn view(&self) -> Seq<IndexEntry> {
        self.docs@.map_values(|d: (String, TermCounts)| (d.0@, d.1@, d.1.total_spec()))
    }
}

impl DocumentIndex {
    /// Paths are distinct and every document's counts are well formed.
    pub closed spec fn wf(&self) -> bool {
        &&& distinct_paths(self@)
        &&& forall|i: int| 0 <= i < self.docs@.len() ==> (#[trigger] self.docs@[i]).1.wf()
        &&& forall|p: Seq<char>| self.positions@.contains_key(p) <==> has_path(self@, p)
        &&& forall|p: Seq<char>|
            #[trigger] self.positions@.contains_key(p) ==> self.positions@[p] < self@.len()
                && self@[self.positions@[p] as int].0 == p
    }

    /// An index of no document.
    pub fn new() -> (res: Self)
        ensures
            res.wf(),
            res@ == Seq::<IndexEntry>::empty(),
    {
        let res = DocumentIndex { docs: Vec::new(), positions: StringHashMap::new() };
        assert(res@ =~= Seq::<IndexEntry>::empty());
        res
    }

    /// The number of documents.
    pub fn len(&self) -> (res: usize)
        ensures
            res == self@.len(),
    {
        self.docs.len()
    }

    /// Where the document with path `path` stands, if it is indexed.
    fn find(&self, path: &str) -> (res: Option<usize>)
        requires
            self.wf(),
        ensures
            match res {
                Some(i) => i < self@.len() && self@[i as int].0 == path@,
                None => !has_path(self@, path@),
            },
    {
        match self.positions.get(path) {
            Some(i) => Some(*i),
            None => None,
        }
    }

    /// Stores `counts` as the term counts of the document at `path`, in place
    /// of any counts it had before.
    pub fn insert(&mut self, path: String, counts: TermCounts)
        requires
            old(self).wf(),
            counts.wf(),
        ensures
            final(self).wf(),
            final(self)@ == inserted(old(self)@, (path@, counts@, counts.total_spec())),
    {
        let ghost e: IndexEntry = (path@, counts@, counts.total_spec());
        let ghost before = self@;
        match self.find(path.as_str()) {
            Some(i) => {
                proof {
                    let c = choose|k: int| 0 <= k < before.len() && (#[trigger] before[k]).0 == e.0;
                    assert(before[i as int].0 == e.0);
                    assert(c == i);
                }
                self.docs.set(i, (path, counts));
                assert(self@ =~= before.update(i as int, e));
                proof {
                    assert forall|p: Seq<char>| self.positions@.contains_key(p) <==> has_path(self@, p) by {
                        assert(old(self).positions@.contains_key(p) <==> has_path(before, p));
                        if has_path(self@, p) {
                            let j = choose|j: int| 0 <= j < self@.len() && (#[trigger] self@[j]).0 == p;
                            assert(before[j].0 == p);
                        }
                        if has_path(before, p) {
                            let j = choose|j: int| 0 <= j < before.len() && (#[trigger] before[j]).0 == p;
                            assert(self@[j].0 == p);
                        }
                    }
                    assert forall|p: Seq<char>| #[trigger] self.positions@.contains_key(p) implies self.positions@[p]
                        < self@.len() && self@[self.positions@[p] as int].0 == p by {
                        let q = self.positions@[p] as int;
                        if q != i {
                            assert(self@[q] == before[q]);
                        } else {
                            assert(before[q].0 == p);
                        }
                    }
                    assert forall|a: int| 0 <= a < self.docs@.len() implies (
                    #[trigger] self.docs@[a]).1.wf() by {
                        if a != i {
                            assert(self.docs@[a] == old(self).docs@[a]);
                        }
                    }
                    assert forall|a: int, b: int|
                        0 <= a < self@.len() && 0 <= b < self@.len() && a != b implies (
                    #[trigger] self@[a]).0 != (#[trigger] self@[b]).0 by {
                        if a != i && b != i {
                            assert(self@[a] == before[a] && self@[b] == before[b]);
                        } else if a == i {
                            assert(self@[b] == before[b]);
                            assert(before[i as int].0 == e.0);
                        } else {
                            assert(self@[a] == before[a]);
                            assert(before[i as int].0 == e.0);
                        }
                    }
                }
            },
            None => {
                let key = path.clone();
                let n = self.docs.len();
                self.docs.push((path, counts));
                self.positions.insert(key, n);
                assert(self@ =~= before.push(e));
                proof {
                    assert forall|p: Seq<char>| self.positions@.contains_key(p) <==> has_path(self@, p) by {
                        if has_path(self@, p) && p != e.0 {
                            let j = choose|j: int| 0 <= j < self@.len() && (#[trigger] self@[j]).0 == p;
                            assert(before[j].0 == p);
                        }
                        if has_path(before, p) {
                            let j = choose|j: int| 0 <= j < before.len() && (#[trigger] before[j]).0 == p;
                            assert(self@[j].0 == p);
                        }
                        if p == e.0 {
                            assert(self@[n as int].0 == p);
                        }
                    }
                    assert forall|p: Seq<char>| #[trigger] self.positions@.contains_key(p) implies self.positions@[p]
                        < self@.len() && self@[self.positions@[p] as int].0 == p by {
                        if p != e.0 {
                            assert(self@[self.positions@[p] as int] == before[self.positions@[p] as int]);
                        }
                    }
                    assert forall|a: int| 0 <= a < self.docs@.len() implies (
                    #[trigger] self.docs@[a]).1.wf() by {
                        if a < before.len() {
                            assert(self.docs@[a] == old(self).docs@[a]);
                        }
                    }
                    assert forall|a: int, b: int|
                        0 <= a < self@.len() && 0 <= b < self@.len() && a != b implies (
                    #[trigger] self@[a]).0 != (#[trigger] self@[b]).0 by {
                        if a < before.len() && b < before.len() {
                            assert(self@[a] == before[a] && self@[b] == before[b]);
                        } else if a < before.len() {
                            assert(self@[a] == before[a]);
                        } else {
                            assert(self@[b] == before[b]);
                        }
                    }
                }
            },
        }
    }

    /// The term counts of the document at `path`, if it is indexed.
    pub fn get(&self, path: &str) -> (res: Option<&TermCounts>)
        requires
            self.wf(),
        ensures
            match res {
                Some(c) => exists|i: int|
                    0 <= i < self@.len() && (#[trigger] self@[i]) == (
                        path@,
                        c@,
                        c.total_spec(),
                    ),
                None => !has_path(self@, path@),
            },
    {
        match self.find(path) {
            Some(i) => {
                let c = &self.docs[i].1;
                assert(self@[i as int] == (path@, c@, c.total_spec()));
                Some(c)
            },
            None => None,
        }
    }

    /// The number of documents in which `term` occurs.
    pub fn document_frequency(&self, term: &str) -> (res: usize)
        ensures
            res == containing(self@, term@),
    {
        let n = self.docs.len();
        let mut m: usize = 0;
        for i in 0..n
            invariant
                n == self@.len(),
                m == containing(self@.take(i as int), term@),
                m <= i,
        {
            proof {
                assert(self@.take(i + 1).drop_last() == self@.take(i as int));
                assert(self@.take(i + 1).last() == self@[i as int]);
            }
            if self.docs[i].1.contains(term) {
                m += 1;
            }
        }
        assert(self@.take(n as int) == self@);
        m
    }

    /// The paths of the indexed documents, in index order.
    pub fn paths(&self) -> (res: Vec<String>)
        ensures
            string_views(res@) == entry_paths(self@),
    {
        let mut res: Vec<String> = Vec::new();
        let n = self.docs.len();
        for i in 0..n
            invariant
                n == self@.len(),
                string_views(res@) == entry_paths(self@.take(i as int)),
        {
            let ghost prev = res@;
            res.push(self.docs[i].0.clone());
            assert(self@.take(i + 1) == self@.take(i as int).push(self@[i as int]));
            assert(res@ == prev.push(self.docs@[i as int].0));
            assert(string_views(res@) =~= string_views(prev).push(self@[i as int].0));
            assert(entry_paths(self@.take(i + 1)) =~= entry_paths(self@.take(i as int)).push(
                self@[i as int].0,
            ));
        }
        assert(self@.take(n as int) == self@);
        res
    }
}

/// One document and the contents its index entry is made from.
pub open spec fn document_entry(doc: (Seq<char>, Seq<char>)) -> IndexEntry {
    (doc.0, token_counts(tokens(doc.1)), tokens(doc.1).len())
}

/// The index of `docs`, stored one after the other.
pub open spec fn indexed(docs: Seq<(Seq<char>, Seq<char>)>) -> Seq<IndexEntry>
    decreases docs.len(),
{
    if docs.len() == 0 {
        Seq::empty()
    } else {
        inserted(indexed(docs.drop_last()), document_entry(docs.last()))
    }
}

/// The views of `(path, contents)` pairs.
pub open spec fn pair_views(docs: Seq<(String, String)>) -> Seq<(Seq<char>, Seq<char>)> {
    docs.map_values(|d: (String, String)| (d.0@, d.1@))
}

/// Every document is stored under its own path, unchanged: the index holds
/// an entry under each given path, and every entry's path is a given path.
pub proof fn lemma_indexed_paths(docs: Seq<(Seq<char>, Seq<char>)>)
    ensures
        distinct_paths(indexed(docs)),
        forall|i: int| 0 <= i < docs.len() ==> has_path(indexed(docs), (#[trigger] docs[i]).0),
        forall|j: int|
            0 <= j < indexed(docs).len() ==> exists|i: int|
                0 <= i < docs.len() && (#[trigger] docs[i]).0 == (#[trigger] indexed(docs)[j]).0,
    decreases docs.len(),
{
    if docs.len() > 0 {
        let init = docs.drop_last();
        let x = docs.last();
        let e = document_entry(x);
        let before = indexed(init);
        let after = indexed(docs);
        lemma_indexed_paths(init);
        lemma_inserted(before, e);
        assert(after == inserted(before, e));
        assert(x == docs[docs.len() - 1]);
        assert(e.0 == x.0);
        assert(has_path(after, e.0)) by {
            let k = choose|k: int| 0 <= k < after.len() && #[trigger] after[k] == e;
            assert(after[k].0 == e.0);
        }
        assert forall|i: int| 0 <= i < docs.len() implies has_path(after, (#[trigger] docs[i]).0) by {
            if i < docs.len() - 1 && docs[i].0 != e.0 {
                assert(init[i] == docs[i]);
                assert(has_path(before, init[i].0));
                let k = choose|k: int| 0 <= k < before.len() && (#[trigger] before[k]).0 == init[i].0;
                assert(after[k] == before[k]);
            }
        }
        assert forall|j: int| 0 <= j < after.len() implies exists|i: int|
            0 <= i < docs.len() && (#[trigger] docs[i]).0 == (#[trigger] after[j]).0 by {
            if after[j].0 == e.0 {
                assert(docs[docs.len() - 1].0 == after[j].0);
            } else {
                if has_path(before, e.0) {
                    let k = choose|k: int| 0 <= k < before.len() && (#[trigger] before[k]).0 == e.0;
                    assert(after == before.update(k, e));
                    assert(j != k);
                    assert(after[j] == before[j]);
                } else {
                    assert(after == before.push(e));
                    assert(j < before.len());
                    assert(after[j] == before[j]);
                }
                let i = choose|i: int| 0 <= i < init.len() && (#[trigger] init[i]).0 == (#[trigger] before[j]).0;
                assert(docs[i] == init[i]);
            }
        }
    }
}

/// Indexes each document, given by its path and its text.
pub fn hash_all_documents(documents: &Vec<(String, String)>) -> (res: DocumentIndex)
    requires
        forall|i: int| 0 <= i < documents@.len() ==> (#[trigger] documents@[i]).1@.len() <= u32::MAX,
    ensures
        res.wf(),
        res@ == indexed(pair_views(documents@)),
        forall|i: int| 0 <= i < documents@.len() ==> has_path(res@, (#[trigger] documents@[i]).0@),
        forall|j: int|
            0 <= j < res@.len() ==> exists|i: int|
                0 <= i < documents@.len() && (#[trigger] documents@[i]).0@ == (#[trigger] res@[j]).0,
{
    let mut all_hashed_documents = DocumentIndex::new();
    let n = documents.len();
    for i in 0..n
        invariant
            n == documents@.len(),
            forall|k: int| 0 <= k < documents@.len() ==> (#[trigger] documents@[k]).1@.len() <= u32::MAX,
            all_hashed_documents.wf(),
            all_hashed_documents@ == indexed(pair_views(documents@).take(i as int)),
    {
        proof {
            let ds = pair_views(documents@);
            assert(ds.take(i + 1).drop_last() == ds.take(i as int));
            assert(ds.take(i + 1).last() == ds[i as int]);
        }
        let counts = hash_document(documents[i].1.as_str());
        all_hashed_documents.insert(documents[i].0.clone(), counts);
    }
    assert(pair_views(documents@).take(n as int) == pair_views(documents@));
    proof {
        let ds = pair_views(documents@);
        lemma_indexed_paths(ds);
        assert forall|i: int| 0 <= i < documents@.len() implies has_path(
            all_hashed_documents@,
            (#[trigger] documents@[i]).0@,
        ) by {
            assert(ds[i].0 == documents@[i].0@);
        }
        assert forall|j: int| 0 <= j < all_hashed_documents@.len() implies exists|i: int|
            0 <= i < documents@.len() && (#[trigger] documents@[i]).0@ == (
            #[trigger] all_hashed_documents@[j]).0 by {
            let i = choose|i: int| 0 <= i < ds.len() && (#[trigger] ds[i]).0 == (
            #[trigger] indexed(ds)[j]).0;
            assert(ds[i].0 == documents@[i].0@);
        }
    }
    all_hashed_documents
}

/// How many times `t` occurs in counts `m` (0 when never).
pub open spec fn count_in(m: Map<Seq<char>, u32>, t: Seq<char>) -> nat {
    if m.contains_key(t) {
        m[t] as nat
    } else {
        0
    }
}

/// The divisor of the inverse document frequency of `t`: the number of
/// documents that contain it, and at least 1.
pub open spec fn idf_divisor(docs: Seq<IndexEntry>, t: Seq<char>) -> nat {
    if containing(docs, t) == 0 {
        1
    } else {
        containing(docs, t)
    }
}

/// The entries of `docs` whose counts hold `t`.
pub open spec fn documents_with(docs: Seq<IndexEntry>, t: Seq<char>) -> Seq<IndexEntry> {
    docs.filter(|e: IndexEntry| e.1.contains_key(t))
}

/// The number of documents that contain a term is the number of entries
/// whose counts hold it.
proof fn lemma_containing_is_filter(docs: Seq<IndexEntry>, t: Seq<char>)
    ensures
        containing(docs, t) == documents_with(docs, t).len(),
    decreases docs.len(),
{
    reveal(Seq::filter);
    if docs.len() > 0 {
        lemma_containing_is_filter(docs.drop_last(), t);
    }
}

/// The divisor of a term's inverse document frequency counts every indexed
/// document that contains the term, and is 1 when none does.
pub proof fn lemma_idf_divisor_counts_every_document(docs: Seq<IndexEntry>, t: Seq<char>)
    ensures
        documents_with(docs, t).len() == 0 ==> idf_divisor(docs, t) == 1,
        documents_with(docs, t).len() > 0 ==> idf_divisor(docs, t) == documents_with(docs, t).len(),
{
    lemma_containing_is_filter(docs, t);
}

/// Adding a document that contains a term to an index in which the term
/// already occurs raises the term's divisor by one; adding one that does
/// not contain it leaves the divisor as it was.
pub proof fn lemma_idf_divisor_push(docs: Seq<IndexEntry>, e: IndexEntry, t: Seq<char>)
    ensures
        e.1.contains_key(t) && containing(docs, t) > 0 ==> idf_divisor(docs.push(e), t)
            == idf_divisor(docs, t) + 1,
        !e.1.contains_key(t) ==> idf_divisor(docs.push(e), t) == idf_divisor(docs, t),
{
    assert(docs.push(e).drop_last() == docs);
    assert(docs.push(e).last() == e);
}

/// A term that every one of `n >= 1` documents contains has divisor `n`.
pub proof fn lemma_idf_divisor_of_common_term(docs: Seq<IndexEntry>, t: Seq<char>)
    requires
        docs.len() >= 1,
        forall|i: int| 0 <= i < docs.len() ==> (#[trigger] docs[i]).1.contains_key(t),
    ensures
        idf_divisor(docs, t) == docs.len(),
    decreases docs.len(),
{
    lemma_all_contain(docs, t);
}

proof fn lemma_all_contain(docs: Seq<IndexEntry>, t: Seq<char>)
    requires
        forall|i: int| 0 <= i < docs.len() ==> (#[trigger] docs[i]).1.contains_key(t),
    ensures
        containing(docs, t) == docs.len(),
    decreases docs.len(),
{
    if docs.len() > 0 {
        let init = docs.drop_last();
        assert forall|i: int| 0 <= i < init.len() implies (#[trigger] init[i]).1.contains_key(t) by {
            assert(init[i] == docs[i]);
        }
        lemma_all_contain(init, t);
        assert(docs.last() == docs[docs.len() - 1]);
    }
}

/// What ranking needs to know of one document.
pub struct DocumentStatistics {
    /// The document's path.
    pub path: String,
    /// How many tokens the document has.
    pub total_words: u32,
    /// For each query term, in query order, how often it occurs in the document.
    pub term_counts: Vec<u32>,
}

/// What ranking a query needs to know of the whole index.
pub struct QueryStatistics {
    /// The number of indexed documents.
    pub document_count: usize,
    /// For each query term, in query order, the number of documents that
    /// contain it, and at least 1.
    pub idf_divisors: Vec<usize>,
    /// One entry per indexed document, in index order.
    pub documents: Vec<DocumentStatistics>,
}

/// The counts that the TF-IDF score of `query` against each indexed document
/// is computed from.
pub fn query_statistics(query: &Vec<String>, index: &DocumentIndex) -> (res: QueryStatistics)
    requires
        index.wf(),
    ensures
        res.document_count == index@.len(),
        res.idf_divisors@.len() == query@.len(),
        forall|j: int|
            0 <= j < query@.len() ==> #[trigger] res.idf_divisors@[j] == idf_divisor(
                index@,
                query@[j]@,
            ),
        forall|j: int|
            0 <= j < query@.len() ==> #[trigger] res.idf_divisors@[j] == if documents_with(
                index@,
                query@[j]@,
            ).len() == 0 {
                1
            } else {
                documents_with(index@, query@[j]@).len()
            },
        res.documents@.len() == index@.len(),
        forall|i: int|
            0 <= i < index@.len() ==> {
                &&& (#[trigger] res.documents@[i]).path@ == index@[i].0
                &&& res.documents@[i].total_words == index@[i].2
                &&& res.documents@[i].term_counts@.len() == query@.len()
                &&& forall|j: int|
                    0 <= j < query@.len() ==> #[trigger] res.documents@[i].term_counts@[j]
                        == count_in(index@[i].1, query@[j]@)
            },
{
    let q = query.len();
    let mut idf_divisors: Vec<usize> = Vec::new();
    for j in 0..q
        invariant
            q == query@.len(),
            idf_divisors@.len() == j,
            forall|k: int|
                0 <= k < j ==> #[trigger] idf_divisors@[k] == idf_divisor(index@, query@[k]@),
    {
        let m = index.document_frequency(query[j].as_str());
        proof {
            lemma_idf_divisor_counts_every_document(index@, query@[j as int]@);
        }
        idf_divisors.push(if m == 0 { 1 } else { m });
    }
    let n = index.docs.len();
    let mut documents: Vec<DocumentStatistics> = Vec::new();
    for i in 0..n
        invariant
            n == index@.len(),
            q == query@.len(),
            index.wf(),
            documents@.len() == i,
            forall|a: int|
                0 <= a < i ==> {
                    &&& (#[trigger] documents@[a]).path@ == index@[a].0
                    &&& documents@[a].total_words == index@[a].2
                    &&& documents@[a].term_counts@.len() == q
                    &&& forall|j: int|
                        0 <= j < q ==> #[trigger] documents@[a].term_counts@[j] == count_in(
                            index@[a].1,
                            query@[j]@,
                        )
                },
    {
        let counts = &index.docs[i].1;
        let mut term_counts: Vec<u32> = Vec::new();
        for j in 0..q
            invariant
                q == query@.len(),
                term_counts@.len() == j,
                forall|k: int|
                    0 <= k < j ==> #[trigger] term_counts@[k] == count_in(counts@, query@[k]@),
        {
            term_counts.push(counts.count(query[j].as_str()));
        }
        documents.push(
            DocumentStatistics {
                path: index.docs[i].0.clone(),
                total_words: counts.total_words(),
                term_counts,
            },
        );
    }
    proof {
        assert forall|j: int| 0 <= j < query@.len() implies #[trigger] idf_divisors@[j] == if documents_with(
            index@,
            query@[j]@,
        ).len() == 0 {
            1
        } else {
            documents_with(index@, query@[j]@).len()
        } by {
            lemma_idf_divisor_counts_every_document(index@, query@[j]@);
        }
    }
    QueryStatistics { document_count: n, idf_divisors, documents }
}

} // verus!
