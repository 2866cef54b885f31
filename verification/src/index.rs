use vstd::prelude::*;

use crate::compressor::{codable_from, last_or, BLOCK_ITEMS};
use crate::listing::{lemma_owned_bounded, lemma_wf_preserved, Listing};
use crate::page_manager::{evolves_except, RamPageCache};
use crate::posting::{DocId, Posting, PostingIterator};
use crate::vocabulary::{lemma_vocab_stable, SharedVocabulary, TermId};

verus! {

broadcast use vstd::array::group_array_axioms;

/// Ways the machinery driving an indexing run can fail; the core itself
/// reports them without producing them.
#[derive(Debug)]
pub enum IndexingError {
    /// A message between indexing workers could not be delivered.
    Send,
    /// An indexing worker died before finishing its share.
    ThreadPanic,
}

/// Whether an entry with term id `tid` exists.
spec fn lhas(s: Seq<(TermId, Listing)>, tid: u64) -> bool {
    exists|i: int| 0 <= i < s.len() && s[i].0.0 == tid
}

/// The index of the entry with term id `tid`.
spec fn lidx(s: Seq<(TermId, Listing)>, tid: u64) -> int {
    choose|i: int| 0 <= i < s.len() && s[i].0.0 == tid
}

/// Entries carry strictly increasing term ids.
spec fn lsorted(s: Seq<(TermId, Listing)>) -> bool {
    forall|i: int, j: int| 0 <= i < j < s.len() ==> s[i].0.0 < s[j].0.0
}

/// In a sorted listing table the term id picks out one entry.
proof fn lemma_lidx_unique(s: Seq<(TermId, Listing)>, tid: u64, i: int)
    requires
        lsorted(s),
        0 <= i < s.len(),
        s[i].0.0 == tid,
    ensures
        lhas(s, tid),
        lidx(s, tid) == i,
{
    assert(lhas(s, tid));
    let k = lidx(s, tid);
    assert(0 <= k < s.len() && s[k].0.0 == tid);
    if k != i {
        assert(false);
    }
}

/// Replacing one entry, its term id kept, leaves the standing and content
/// of every other term id untouched.
proof fn lemma_lframe_update(s1: Seq<(TermId, Listing)>, s2: Seq<(TermId, Listing)>, i: int)
    requires
        lsorted(s1),
        0 <= i < s1.len(),
        s2 == s1.update(i, (s1[i].0, s2[i].1)),
    ensures
        lsorted(s2),
        forall|u: u64| #[trigger] lhas(s2, u) == lhas(s1, u),
        forall|u: u64|
            u != s1[i].0.0 && lhas(s1, u) ==> s2[lidx(s2, u)].1 == s1[#[trigger] lidx(s1, u)].1,
        lhas(s2, s1[i].0.0) && lidx(s2, s1[i].0.0) == i,
        lhas(s1, s1[i].0.0) && lidx(s1, s1[i].0.0) == i,
{
    assert forall|a: int, b: int| 0 <= a < b < s2.len() implies s2[a].0.0 < s2[b].0.0 by {
        assert(s1[a].0.0 < s1[b].0.0);
    }
    assert forall|u: u64| #[trigger] lhas(s2, u) == lhas(s1, u) by {
        if lhas(s1, u) {
            let k = lidx(s1, u);
            assert(s2[k].0.0 == u);
        }
        if lhas(s2, u) {
            let k = lidx(s2, u);
            assert(s1[k].0.0 == u);
        }
    }
    assert forall|u: u64| u != s1[i].0.0 && lhas(s1, u) implies s2[lidx(s2, u)].1 == s1[
        #[trigger] lidx(s1, u)].1 by {
        let k = lidx(s1, u);
        assert(s1[k].0.0 == u);
        assert(k != i);
        assert(s2[k] == s1[k]);
        lemma_lidx_unique(s2, u, k);
    }
    lemma_lidx_unique(s1, s1[i].0.0, i);
    lemma_lidx_unique(s2, s1[i].0.0, i);
}

/// Inserting an entry with a fresh term id leaves the standing and
/// content of every other term id untouched.
proof fn lemma_lframe_insert(s1: Seq<(TermId, Listing)>, s2: Seq<(TermId, Listing)>, j: int)
    requires
        lsorted(s1),
        lsorted(s2),
        0 <= j <= s1.len(),
        s2 == s1.insert(j, s2[j]),
        !lhas(s1, s2[j].0.0),
    ensures
        forall|u: u64| u != s2[j].0.0 ==> #[trigger] lhas(s2, u) == lhas(s1, u),
        forall|u: u64|
            u != s2[j].0.0 && lhas(s1, u) ==> s2[lidx(s2, u)].1 == s1[#[trigger] lidx(s1, u)].1,
        lhas(s2, s2[j].0.0) && lidx(s2, s2[j].0.0) == j,
{
    assert forall|u: u64| u != s2[j].0.0 implies #[trigger] lhas(s2, u) == lhas(s1, u) by {
        if lhas(s1, u) {
            let k = lidx(s1, u);
            if k < j {
                assert(s2[k].0.0 == u);
            } else {
                assert(s2[k + 1].0.0 == u);
            }
        }
        if lhas(s2, u) {
            let k = lidx(s2, u);
            assert(k != j);
            if k < j {
                assert(s1[k].0.0 == u);
            } else {
                assert(s1[k - 1].0.0 == u);
            }
        }
    }
    assert forall|u: u64| u != s2[j].0.0 && lhas(s1, u) implies s2[lidx(s2, u)].1 == s1[
        #[trigger] lidx(s1, u)].1 by {
        let k = lidx(s1, u);
        assert(s1[k].0.0 == u);
        if k < j {
            assert(s2[k] == s1[k]);
            lemma_lidx_unique(s2, u, k);
        } else {
            assert(s2[k + 1] == s1[k]);
            lemma_lidx_unique(s2, u, k + 1);
        }
    }
    lemma_lidx_unique(s2, s2[j].0.0, j);
}

/// A document-id sequence that strictly increases.
pub open spec fn strictly_inc(s: Seq<u32>) -> bool {
    forall|i: int| #![trigger s[i], s[i - 1]] 1 <= i < s.len() ==> s[i - 1] < s[i]
}

/// A strictly increasing sequence grows at least as fast as its index.
proof fn lemma_strict_index_ge(s: Seq<u32>, i: int)
    requires
        strictly_inc(s),
        0 <= i < s.len(),
    ensures
        s[i] >= i,
    decreases i,
{
    if i > 0 {
        lemma_strict_index_ge(s, i - 1);
        assert(s[i - 1] < s[i]);
    }
}

/// In a strictly increasing sequence earlier elements are smaller.
pub proof fn lemma_strict_le(s: Seq<u32>, i: int, j: int)
    requires
        strictly_inc(s),
        0 <= i <= j < s.len(),
    ensures
        s[i] <= s[j],
    decreases j - i,
{
    if i < j {
        lemma_strict_le(s, i, j - 1);
        assert(s[j - 1] < s[j]);
    }
}

/// The central structure: a page cache, one listing per term id, and a
/// vocabulary resolving terms, under a strict document-id discipline.
pub struct Index {
    page_manager: RamPageCache,
    listings: Vec<(TermId, Listing)>,
    vocabulary: SharedVocabulary,
    last_doc_id: DocId,
    doc_count: usize,
}

impl Index {
    /// The document ids indexed under term id `tid`, oldest first; empty
    /// for an unknown id.
    pub closed spec fn listing_seq(&self, tid: u64) -> Seq<u32> {
        if lhas(self.listings@, tid) {
            self.listings@[lidx(self.listings@, tid)].1.history()
        } else {
            Seq::empty()
        }
    }

    /// Whether term id `tid` has a listing in this index.
    pub closed spec fn has_listing(&self, tid: u64) -> bool {
        lhas(self.listings@, tid)
    }

    /// The document ids indexed under `term`; empty for a term this index
    /// has never seen.
    pub closed spec fn term_seq(&self, term: u64) -> Seq<u32> {
        if self.vocabulary.has_term(term) {
            self.listing_seq(self.vocabulary.id_of(term) as u64)
        } else {
            Seq::empty()
        }
    }

    /// The most recently indexed document id; the sentinel at first.
    pub closed spec fn last_doc(&self) -> u32 {
        self.last_doc_id.0
    }

    /// How many documents were indexed.
    pub closed spec fn documents(&self) -> int {
        self.doc_count as int
    }

    /// The vocabulary's terms in order of first sight.
    pub closed spec fn vocab_terms(&self) -> Seq<u64> {
        self.vocabulary.terms()
    }

    /// The vocabulary backing this index.
    pub closed spec fn vocab(&self) -> SharedVocabulary {
        self.vocabulary
    }

    /// How many page ids the cache has issued.
    pub closed spec fn counter(&self) -> int {
        self.page_manager.counter_val()
    }

    /// How many listings the index holds.
    pub closed spec fn num_listings(&self) -> int {
        self.listings@.len() as int
    }

    /// Whether every listing is committed, so that queries see all data.
    pub closed spec fn all_committed(&self) -> bool {
        forall|i: int|
            0 <= i < self.listings@.len() ==> (#[trigger] self.listings@[i]).1.committed()
    }

    /// Index coherence: the cache is sound, the vocabulary is sound, the
    /// listing table is sorted by term id, every listing is coherent with
    /// the cache and strictly increasing below the last document id, and
    /// no two listings share a page.
    pub closed spec fn wf(&self) -> bool {
        &&& self.page_manager.inv()
        &&& self.vocabulary.wf()
        &&& lsorted(self.listings@)
        &&& (self.listings@.len() > 0 ==> self.last_doc_id.0 < u32::MAX)
        &&& forall|i: int|
            0 <= i < self.listings@.len() ==> (#[trigger] self.listings@[i]).0.0
                < self.vocabulary.terms().len()
        &&& forall|i: int|
            0 <= i < self.listings@.len() ==> {
                let l = (#[trigger] self.listings@[i]).1;
                &&& l.wf(&self.page_manager)
                &&& l.history().len() > 0
                &&& strictly_inc(l.history())
                &&& l.history().last() <= self.last_doc_id.0
                &&& l.buffered() < BLOCK_ITEMS
            }
        &&& forall|i: int, j: int|
            0 <= i < j < self.listings@.len() ==> (#[trigger] self.listings@[i]).1.owned().disjoint(
                (#[trigger] self.listings@[j]).1.owned(),
            )
    }

    pub fn new(page_manager: RamPageCache, vocabulary: SharedVocabulary) -> (ix: Index)
        requires
            page_manager.inv(),
            vocabulary.wf(),
        ensures
            ix.wf(),
            forall|t: u64| #[trigger] ix.term_seq(t) == Seq::<u32>::empty(),
            forall|u: u64| !#[trigger] ix.has_listing(u),
            ix.vocab_terms() == vocabulary.terms(),
            ix.last_doc() == u32::MAX,
            ix.documents() == 0,
            ix.counter() == page_manager.counter_val(),
            ix.all_committed(),
    {
        let ix = Index {
            page_manager,
            listings: Vec::new(),
            vocabulary,
            last_doc_id: DocId::none(),
            doc_count: 0,
        };
        proof {
            assert forall|u: u64| !#[trigger] lhas(ix.listings@, u) by {
                if lhas(ix.listings@, u) {
                    let i = lidx(ix.listings@, u);
                    assert(false);
                }
            }
        }
        ix
    }

    /// Position of the entry carrying `tid`, if any.
    fn find_listing(&self, tid: u64) -> (r: Option<usize>)
        requires
            self.wf(),
        ensures
            match r {
                Some(i) => i < self.listings@.len() && self.listings@[i as int].0.0 == tid
                    && lhas(self.listings@, tid) && lidx(self.listings@, tid) == i,
                None => !lhas(self.listings@, tid),
            },
    {
        let mut i: usize = 0;
        while i < self.listings.len()
            invariant
                self.wf(),
                i <= self.listings@.len(),
                forall|j: int| 0 <= j < i ==> (#[trigger] self.listings@[j]).0.0 != tid,
            decreases self.listings@.len() - i,
        {
            if self.listings[i].0.0 == tid {
                proof {
                    lemma_lidx_unique(self.listings@, tid, i as int);
                }
                return Some(i);
            }
            i += 1;
        }
        proof {
            if lhas(self.listings@, tid) {
                let k = lidx(self.listings@, tid);
                assert(self.listings@[k].0.0 == tid);
                assert(false);
            }
        }
        None
    }

    /// Position of the first entry whose term id exceeds `tid`.
    fn upper_bound(&self, tid: u64) -> (r: usize)
        requires
            self.wf(),
        ensures
            r <= self.listings@.len(),
            forall|j: int| 0 <= j < r ==> (#[trigger] self.listings@[j]).0.0 <= tid,
            forall|j: int|
                r <= j < self.listings@.len() ==> (#[trigger] self.listings@[j]).0.0 > tid,
    {
        let mut i: usize = 0;
        while i < self.listings.len()
            invariant
                self.wf(),
                i <= self.listings@.len(),
                forall|j: int| 0 <= j < i ==> (#[trigger] self.listings@[j]).0.0 <= tid,
            decreases self.listings@.len() - i,
        {
            if self.listings[i].0.0 > tid {
                proof {
                    assert forall|j: int|
                        i <= j < self.listings@.len() implies (#[trigger] self.listings@[j]).0.0
                        > tid by {
                        if j > i {
                            assert(self.listings@[i as int].0.0 < self.listings@[j].0.0);
                        }
                    }
                }
                return i;
            }
            i += 1;
        }
        i
    }
}

impl Index {
    /// Indexes one term of one document: the document id joins the term's
    /// listing, which is begun at first sight of the term.  The id must
    /// not precede the last one indexed and must exceed everything the
    /// term's listing already holds.
    #[verifier::rlimit(100)]
    pub fn index_term(&mut self, term: u64, doc_id: DocId)
        requires
            old(self).wf(),
            doc_id.0 < u32::MAX,
            old(self).last_doc() == u32::MAX || doc_id.0 >= old(self).last_doc(),
            old(self).term_seq(term).len() == 0 || old(self).term_seq(term).last() < doc_id.0,
            old(self).vocab_terms().len() < usize::MAX,
            old(self).counter() + 19 <= usize::MAX,
        ensures
            final(self).wf(),
            final(self).term_seq(term) == old(self).term_seq(term).push(doc_id.0),
            forall|t: u64|
                t != term ==> #[trigger] final(self).term_seq(t) == old(self).term_seq(t),
            final(self).last_doc() == doc_id.0,
            final(self).documents() == old(self).documents(),
            final(self).counter() <= old(self).counter() + 2,
            final(self).num_listings() <= old(self).num_listings() + 1,
            final(self).vocab_terms() == old(self).vocab_terms() || final(self).vocab_terms()
                == old(self).vocab_terms().push(term),
    {
        let ghost pre = *old(self);
        let tid = self.vocabulary.get_or_add(term);
        let ghost cpre = self.page_manager;
        let ghost v2 = self.vocabulary;
        let arr = [Posting(doc_id)];
        let postings = vstd::array::array_as_slice(&arr);
        proof {
            assert(postings@ == arr@);
            assert(postings@.len() == 1);
            assert(postings@[0] == Posting(doc_id));
            assert(postings@.map(|q: int, p: Posting| p.0.0) =~= seq![doc_id.0]);
        }
        match self.find_listing(tid.0) {
            Some(i) => {
                let ghost s1 = self.listings@;
                let mut entry = self.listings.remove(i);
                proof {
                    assert(entry == s1[i as int]);
                    assert(pre.vocabulary.has_term(term)) by {
                        if !pre.vocabulary.has_term(term) {
                            assert(tid.0 == pre.vocabulary.terms().len());
                            assert(s1[i as int].0.0 < pre.vocabulary.terms().len());
                        }
                    }
                    assert(pre.vocabulary.id_of(term) as u64 == tid.0);
                    assert(pre.term_seq(term) == entry.1.history());
                    assert(entry.1.history().len() > 0);
                    assert(last_or(entry.1.history(), 0) == entry.1.history().last());
                    assert((pre.listings@[i as int]).1.buffered() < BLOCK_ITEMS);
                    assert(entry.1.history().len() < u32::MAX) by {
                        let h = entry.1.history();
                        lemma_strict_index_ge(h, h.len() - 1);
                        assert(h.last() >= h.len() - 1);
                        assert(h.last() < doc_id.0);
                    }
                }
                entry.1.add(postings, &mut self.page_manager);
                self.listings.insert(i, entry);
                self.last_doc_id = doc_id;
                proof {
                    assert(self.listings@ =~= s1.update(i as int, entry));
                    assert(entry.1.history() =~= s1[i as int].1.history().push(doc_id.0));
                    assert((pre.listings@[i as int]).1.buffered() < BLOCK_ITEMS);
                    assert(self.page_manager.counter_val() <= cpre.counter_val() + 2);
                    self.lemma_index_term_update(pre, cpre, s1, i as int, entry, term, tid, doc_id);
                }
            },
            None => {
                let j = self.upper_bound(tid.0);
                let mut nl = Listing::new();
                nl.add(postings, &mut self.page_manager);
                let ghost s1 = self.listings@;
                self.listings.insert(j, (tid, nl));
                self.last_doc_id = doc_id;
                proof {
                    assert(nl.history() =~= seq![doc_id.0]);
                    assert(self.page_manager.counter_val() <= cpre.counter_val() + 2);
                    self.lemma_index_term_insert(pre, cpre, s1, j as int, (tid, nl), term, tid, doc_id);
                }
            },
        }
    }

    /// After a document id joined the listing at entry `i`, the whole
    /// index is coherent again and only this term's sequence moved.
    #[verifier::rlimit(100)]
    proof fn lemma_index_term_update(
        &self,
        pre: Index,
        cpre: RamPageCache,
        s1: Seq<(TermId, Listing)>,
        i: int,
        entry: (TermId, Listing),
        term: u64,
        tid: TermId,
        doc_id: DocId,
    )
        requires
            pre.wf(),
            doc_id.0 < u32::MAX,
            pre.last_doc() == u32::MAX || doc_id.0 >= pre.last_doc(),
            s1 == pre.listings@,
            cpre == pre.page_manager,
            self.vocabulary.wf(),
            self.vocabulary.has_term(term),
            self.vocabulary.id_of(term) as u64 == tid.0,
            pre.vocabulary.has_term(term),
            pre.vocabulary.id_of(term) as u64 == tid.0,
            self.vocabulary.terms() == pre.vocabulary.terms() || self.vocabulary.terms()
                == pre.vocabulary.terms().push(term),
            0 <= i < s1.len(),
            s1[i].0.0 == tid.0,
            self.listings@ == s1.update(i, entry),
            entry.0 == s1[i].0,
            entry.1.wf(&self.page_manager),
            entry.1.history() == s1[i].1.history().push(doc_id.0),
            s1[i].1.history().last() < doc_id.0,
            entry.1.buffered() < BLOCK_ITEMS,
            self.page_manager.inv(),
            evolves_except(cpre, self.page_manager, s1[i].1.owned()),
            forall|p: u64|
                entry.1.owned().contains(p) ==> s1[i].1.owned().contains(p) || p
                    >= cpre.counter_val(),
            self.last_doc_id == doc_id,
            self.doc_count == pre.doc_count,
        ensures
            self.wf(),
            self.term_seq(term) == pre.term_seq(term).push(doc_id.0),
            forall|t: u64| t != term ==> #[trigger] self.term_seq(t) == pre.term_seq(t),
    {
        let s2 = self.listings@;
        let owned_i = s1[i].1.owned();
        lemma_lframe_update(s1, s2, i);
        assert forall|j: int|
            0 <= j < s2.len() && j != i implies (#[trigger] s2[j]).1.wf(&self.page_manager) by {
            assert(s2[j] == s1[j]);
            assert(s1[j].1.owned().disjoint(owned_i)) by {
                if j < i {
                    assert(s1[j].1.owned().disjoint(s1[i].1.owned()));
                } else {
                    assert(s1[i].1.owned().disjoint(s1[j].1.owned()));
                    assert(s1[j].1.owned().disjoint(s1[i].1.owned())) by {
                        assert forall|p: u64|
                            s1[j].1.owned().contains(p) implies !owned_i.contains(p) by {}
                        assert(s1[j].1.owned().intersect(owned_i) =~= Set::<u64>::empty());
                    }
                }
            }
            lemma_wf_preserved(s1[j].1, cpre, self.page_manager, owned_i);
        }
        assert forall|a: int, b: int|
            0 <= a < b < s2.len() implies (#[trigger] s2[a]).1.owned().disjoint(
            (#[trigger] s2[b]).1.owned(),
        ) by {
            if a != i && b != i {
                assert(s2[a] == s1[a] && s2[b] == s1[b]);
            } else {
                let other: int = if a == i {
                    b
                } else {
                    a
                };
                assert(s2[other] == s1[other]);
                lemma_owned_bounded(s1[other].1, cpre);
                assert(entry.1.owned().intersect(s1[other].1.owned()) =~= Set::<u64>::empty())
                    by {
                    assert forall|p: u64|
                        !(entry.1.owned().intersect(s1[other].1.owned()).contains(p)) by {
                        if entry.1.owned().contains(p) && s1[other].1.owned().contains(p) {
                            if owned_i.contains(p) {
                                if other < i {
                                    assert(s1[other].1.owned().disjoint(owned_i));
                                } else {
                                    assert(owned_i.disjoint(s1[other].1.owned()));
                                }
                            } else {
                                assert(p >= cpre.counter_val());
                                assert(p < cpre.counter_val());
                            }
                        }
                    }
                }
                if a == i {
                    assert(s2[b].1.owned().intersect(s2[a].1.owned()) =~= Set::<
                        u64,
                    >::empty()) by {
                        assert forall|p: u64|
                            !(s2[b].1.owned().intersect(s2[a].1.owned()).contains(p)) by {}
                    }
                    assert(s2[a].1.owned().disjoint(s2[b].1.owned()));
                } else {
                    assert(s2[a].1.owned().disjoint(s2[b].1.owned()));
                }
            }
        }
        assert(strictly_inc(entry.1.history())) by {
            let h1 = s1[i].1.history();
            let h2 = entry.1.history();
            assert forall|q: int| #![trigger h2[q], h2[q - 1]] 1 <= q < h2.len() implies h2[q
                - 1] < h2[q] by {
                if q < h2.len() - 1 {
                    assert(h2[q] == h1[q] && h2[q - 1] == h1[q - 1]);
                } else {
                    assert(h2[q] == doc_id.0);
                    assert(h2[q - 1] == h1[q - 1]);
                    if q - 1 < h1.len() - 1 {
                        lemma_strict_le(h1, q - 1, h1.len() - 1);
                    }
                }
            }
        }
        assert forall|j: int|
            0 <= j < s2.len() implies (#[trigger] s2[j]).1.history().last()
            <= self.last_doc_id.0 by {
            if j == i {
                assert(entry.1.history().last() == doc_id.0);
            } else {
                assert(s2[j] == s1[j]);
                assert(s1[j].1.history().last() <= pre.last_doc_id.0);
                assert(pre.last_doc_id.0 < u32::MAX);
            }
        }
        assert(self.wf());
        assert(self.term_seq(term) == pre.term_seq(term).push(doc_id.0));
        assert forall|t: u64| t != term implies #[trigger] self.term_seq(t) == pre.term_seq(
            t,
        ) by {
            lemma_vocab_stable(pre.vocabulary, self.vocabulary, term, t);
            if self.vocabulary.has_term(t) {
                let u = self.vocabulary.id_of(t) as u64;
                assert(u != tid.0) by {
                    if u == tid.0 {
                        assert(self.vocabulary.has_term(t));
                        assert(0 <= self.vocabulary.id_of(t) < self.vocabulary.terms().len()
                            && self.vocabulary.terms()[self.vocabulary.id_of(t)] == t);
                        assert(self.vocabulary.has_term(term));
                        assert(0 <= self.vocabulary.id_of(term)
                            < self.vocabulary.terms().len() && self.vocabulary.terms()[
                        self.vocabulary.id_of(term)] == term);
                        self.vocabulary.lemma_vocab_len();
                        assert(self.vocabulary.terms().len() <= usize::MAX);
                        assert((self.vocabulary.id_of(t) as u64) == (self.vocabulary.id_of(
                            term,
                        ) as u64));
                        assert(self.vocabulary.id_of(t) == self.vocabulary.id_of(term));
                        assert(t == term);
                    }
                }
                assert(self.listing_seq(u) == pre.listing_seq(u)) by {
                    if lhas(s1, u) {
                        assert(s2[lidx(s2, u)].1 == s1[lidx(s1, u)].1);
                    }
                }
            }
        }
    }

    /// After a brand-new listing for a fresh term id was inserted at
    /// position `j`, the whole index is coherent and only this term's
    /// sequence appeared.
    #[verifier::rlimit(100)]
    proof fn lemma_index_term_insert(
        &self,
        pre: Index,
        cpre: RamPageCache,
        s1: Seq<(TermId, Listing)>,
        j: int,
        entry: (TermId, Listing),
        term: u64,
        tid: TermId,
        doc_id: DocId,
    )
        requires
            pre.wf(),
            doc_id.0 < u32::MAX,
            pre.last_doc() == u32::MAX || doc_id.0 >= pre.last_doc(),
            s1 == pre.listings@,
            cpre == pre.page_manager,
            self.vocabulary.wf(),
            self.vocabulary.has_term(term),
            self.vocabulary.id_of(term) as u64 == tid.0,
            pre.vocabulary.has_term(term) ==> pre.vocabulary.id_of(term) as u64 == tid.0,
            self.vocabulary.terms() == pre.vocabulary.terms() || self.vocabulary.terms()
                == pre.vocabulary.terms().push(term),
            !lhas(s1, tid.0),
            0 <= j <= s1.len(),
            forall|q: int| 0 <= q < j ==> (#[trigger] s1[q]).0.0 <= tid.0,
            forall|q: int| j <= q < s1.len() ==> (#[trigger] s1[q]).0.0 > tid.0,
            self.listings@ == s1.insert(j, entry),
            entry.0 == tid,
            entry.1.wf(&self.page_manager),
            entry.1.history() == seq![doc_id.0],
            entry.1.buffered() < BLOCK_ITEMS,
            self.page_manager.inv(),
            evolves_except(cpre, self.page_manager, Set::<u64>::empty()),
            forall|p: u64|
                entry.1.owned().contains(p) ==> p >= cpre.counter_val(),
            self.last_doc_id == doc_id,
            self.doc_count == pre.doc_count,
        ensures
            self.wf(),
            self.term_seq(term) == pre.term_seq(term).push(doc_id.0),
            forall|t: u64| t != term ==> #[trigger] self.term_seq(t) == pre.term_seq(t),
    {
        let s2 = self.listings@;
        assert forall|q: int| 0 <= q < j implies (#[trigger] s1[q]).0.0 < tid.0 by {
            if s1[q].0.0 == tid.0 {
                assert(lhas(s1, tid.0));
            }
        }
        assert(lsorted(s2)) by {
            assert forall|a: int, b: int| 0 <= a < b < s2.len() implies s2[a].0.0 < s2[b].0.0
                by {
                if a < j && b < j {
                    assert(s2[a] == s1[a] && s2[b] == s1[b]);
                } else if a < j && b == j {
                    assert(s2[a] == s1[a]);
                } else if a < j && b > j {
                    assert(s2[a] == s1[a] && s2[b] == s1[b - 1]);
                } else if a == j {
                    assert(s2[b] == s1[b - 1]);
                } else {
                    assert(s2[a] == s1[a - 1] && s2[b] == s1[b - 1]);
                }
            }
        }
        lemma_lframe_insert(s1, s2, j);
        assert forall|q: int|
            0 <= q < s2.len() && q != j implies (#[trigger] s2[q]).1.wf(&self.page_manager)
            && s2[q].1.history().last() <= self.last_doc_id.0 && s2[q].1.history().len() > 0
            && strictly_inc(s2[q].1.history()) && s2[q].1.buffered() < BLOCK_ITEMS by {
            let qp: int = if q < j {
                q
            } else {
                q - 1
            };
            assert(s2[q] == s1[qp]);
            assert(Set::<u64>::empty().disjoint(s1[qp].1.owned())) by {
                assert(s1[qp].1.owned().disjoint(Set::<u64>::empty())) by {
                    assert(s1[qp].1.owned().intersect(Set::<u64>::empty()) =~= Set::<
                        u64,
                    >::empty());
                }
            }
            lemma_wf_preserved(s1[qp].1, cpre, self.page_manager, Set::<u64>::empty());
            assert(s1[qp].1.history().last() <= pre.last_doc_id.0);
            assert(pre.last_doc_id.0 < u32::MAX);
        }
        assert forall|a: int, b: int|
            0 <= a < b < s2.len() implies (#[trigger] s2[a]).1.owned().disjoint(
            (#[trigger] s2[b]).1.owned(),
        ) by {
            let ap: int = if a <= j {
                a
            } else {
                a - 1
            };
            let bp: int = if b <= j {
                b
            } else {
                b - 1
            };
            if a != j && b != j {
                let app: int = if a < j {
                    a
                } else {
                    a - 1
                };
                let bpp: int = if b < j {
                    b
                } else {
                    b - 1
                };
                assert(s2[a] == s1[app] && s2[b] == s1[bpp]);
                assert(s1[app].1.owned().disjoint(s1[bpp].1.owned()));
            } else {
                let other: int = if a == j {
                    if b < j {
                        b
                    } else {
                        b - 1
                    }
                } else {
                    if a < j {
                        a
                    } else {
                        a - 1
                    }
                };
                lemma_owned_bounded(s1[other].1, cpre);
                assert(entry.1.owned().intersect(s1[other].1.owned()) =~= Set::<u64>::empty())
                    by {
                    assert forall|p: u64|
                        !(entry.1.owned().intersect(s1[other].1.owned()).contains(p)) by {
                        if entry.1.owned().contains(p) && s1[other].1.owned().contains(p) {
                            assert(p >= cpre.counter_val());
                            assert(p < cpre.counter_val());
                        }
                    }
                }
                if a == j {
                    assert(s2[b] == s1[other]);
                    assert(s2[a].1.owned().disjoint(s2[b].1.owned()));
                } else {
                    assert(s2[a] == s1[other]);
                    assert(s1[other].1.owned().intersect(entry.1.owned()) =~= Set::<
                        u64,
                    >::empty()) by {
                        assert forall|p: u64|
                            !(s1[other].1.owned().intersect(entry.1.owned()).contains(p)) by {}
                    }
                    assert(s2[a].1.owned().disjoint(s2[b].1.owned()));
                }
            }
        }
        assert(strictly_inc(entry.1.history()));
        assert(entry.1.history().last() == doc_id.0);
        assert(self.wf());
        assert(pre.term_seq(term) =~= Seq::<u32>::empty());
        assert(self.listing_seq(tid.0) == entry.1.history());
        assert(self.term_seq(term) =~= pre.term_seq(term).push(doc_id.0));
        assert forall|t: u64| t != term implies #[trigger] self.term_seq(t) == pre.term_seq(
            t,
        ) by {
            lemma_vocab_stable(pre.vocabulary, self.vocabulary, term, t);
            if self.vocabulary.has_term(t) {
                let u = self.vocabulary.id_of(t) as u64;
                assert(u != tid.0) by {
                    if u == tid.0 {
                        assert(self.vocabulary.has_term(t));
                        assert(0 <= self.vocabulary.id_of(t) < self.vocabulary.terms().len()
                            && self.vocabulary.terms()[self.vocabulary.id_of(t)] == t);
                        assert(self.vocabulary.has_term(term));
                        assert(0 <= self.vocabulary.id_of(term)
                            < self.vocabulary.terms().len() && self.vocabulary.terms()[
                        self.vocabulary.id_of(term)] == term);
                        self.vocabulary.lemma_vocab_len();
                        assert(self.vocabulary.terms().len() <= usize::MAX);
                        assert((self.vocabulary.id_of(t) as u64) == (self.vocabulary.id_of(
                            term,
                        ) as u64));
                        assert(self.vocabulary.id_of(t) == self.vocabulary.id_of(term));
                        assert(t == term);
                    }
                }
                assert(self.listing_seq(u) == pre.listing_seq(u)) by {
                    if lhas(s1, u) {
                        assert(s2[lidx(s2, u)].1 == s1[lidx(s1, u)].1);
                    } else {
                        assert(!lhas(s2, u));
                    }
                }
            }
        }
    }
}

impl Index {
    /// Membership of `t` in the slice of terms already handed out.
    fn seen_contains(seen: &Vec<u64>, t: u64) -> (r: bool)
        ensures
            r == seen@.contains(t),
    {
        let mut i: usize = 0;
        while i < seen.len()
            invariant
                i <= seen@.len(),
                forall|j: int| 0 <= j < i ==> seen@[j] != t,
            decreases seen@.len() - i,
        {
            if seen[i] == t {
                assert(seen@[i as int] == t);
                return true;
            }
            i += 1;
        }
        proof {
            if seen@.contains(t) {
                let j = choose|j: int| 0 <= j < seen@.len() && seen@[j] == t;
                assert(false);
            }
        }
        false
    }

    /// Indexes one document: a fresh document id is allocated (or the
    /// given one taken), and it joins the listing of every distinct term
    /// of the document.  Returns the id.  An overriding id must exceed
    /// the last one indexed.
    #[verifier::rlimit(100)]
    pub fn index_document(&mut self, document: Vec<u64>, overwrite_doc_id: Option<DocId>) -> (r:
        DocId)
        requires
            old(self).wf(),
            match overwrite_doc_id {
                Some(d) => d.0 < u32::MAX && (old(self).last_doc() == u32::MAX || d.0 > old(
                    self,
                ).last_doc()),
                None => old(self).last_doc() == u32::MAX || old(self).last_doc() + 2
                    <= u32::MAX,
            },
            old(self).documents() < usize::MAX,
            old(self).vocab_terms().len() + document@.len() < usize::MAX,
            old(self).counter() + 2 * document@.len() + 19 <= usize::MAX,
        ensures
            final(self).wf(),
            r.0 == match overwrite_doc_id {
                Some(d) => d.0 as int,
                None => if old(self).last_doc() == u32::MAX {
                    0
                } else {
                    old(self).last_doc() + 1
                },
            },
            forall|t: u64|
                #[trigger] final(self).term_seq(t) == if document@.contains(t) {
                    old(self).term_seq(t).push(r.0)
                } else {
                    old(self).term_seq(t)
                },
            final(self).last_doc() == r.0,
            final(self).documents() == old(self).documents() + 1,
            final(self).counter() <= old(self).counter() + 2 * document@.len(),
            final(self).vocab_terms().len() <= old(self).vocab_terms().len() + document@.len(),
    {
        let ghost pre = *old(self);
        let doc_id = match overwrite_doc_id {
            Some(d) => d,
            None => {
                let mut d = self.last_doc_id;
                d.inc();
                d
            },
        };
        proof {
            assert(doc_id.0 < u32::MAX);
            assert(pre.last_doc() == u32::MAX || doc_id.0 > pre.last_doc());
        }
        self.last_doc_id = doc_id;
        self.doc_count = self.doc_count + 1;
        proof {
            assert forall|i: int|
                0 <= i < self.listings@.len() implies (#[trigger] self.listings@[i]).1.history().last()
                <= self.last_doc_id.0 by {
                assert(pre.listings@[i] == self.listings@[i]);
                assert(pre.listings@[i].1.history().last() <= pre.last_doc_id.0);
                assert(pre.last_doc_id.0 < u32::MAX);
            }
            assert(self.wf());
        }
        let ghost mid = *self;
        let mut seen: Vec<u64> = Vec::new();
        let mut k: usize = 0;
        while k < document.len()
            invariant
                mid.wf(),
                self.wf(),
                pre == *old(self),
                doc_id.0 < u32::MAX,
                pre.last_doc() == u32::MAX || doc_id.0 > pre.last_doc(),
                k <= document@.len(),
                self.last_doc() == doc_id.0,
                self.documents() == pre.documents() + 1,
                forall|t: u64|
                    #[trigger] self.term_seq(t) == if seen@.contains(t) {
                        pre.term_seq(t).push(doc_id.0)
                    } else {
                        pre.term_seq(t)
                    },
                forall|t: u64|
                    #[trigger] seen@.contains(t) == document@.take(k as int).contains(t),
                forall|t: u64|
                    #[trigger] pre.term_seq(t).len() == 0 || pre.term_seq(t).last()
                        <= pre.last_doc(),
                pre.last_doc() == u32::MAX ==> forall|t: u64|
                    #[trigger] pre.term_seq(t).len() == 0,
                self.counter() <= pre.counter() + 2 * k,
                pre.counter() + 2 * document@.len() + 19 <= usize::MAX,
                self.vocab_terms().len() <= pre.vocab_terms().len() + k,
                pre.vocab_terms().len() + document@.len() < usize::MAX,
            decreases document@.len() - k,
        {
            let term = document[k];
            if !Self::seen_contains(&seen, term) {
                proof {
                    if self.term_seq(term).len() > 0 {
                        assert(self.term_seq(term) == pre.term_seq(term));
                        assert(pre.term_seq(term).last() <= pre.last_doc());
                        assert(pre.last_doc() != u32::MAX);
                        assert(self.term_seq(term).last() < doc_id.0);
                    }
                }
                let ghost seen0 = seen@;
                self.index_term(term, doc_id);
                seen.push(term);
                proof {
                    assert(seen@ == seen0.push(term));
                    assert forall|t: u64|
                        #[trigger] seen@.contains(t) == document@.take(k + 1).contains(t) by {
                        if seen@.contains(t) {
                            let j = choose|j: int| 0 <= j < seen@.len() && seen@[j] == t;
                            if j < seen0.len() {
                                assert(seen0[j] == t);
                                assert(seen0.contains(t));
                                assert(document@.take(k as int).contains(t));
                                let m = choose|m: int|
                                    0 <= m < k && #[trigger] document@.take(k as int)[m] == t;
                                assert(document@.take(k + 1)[m] == t);
                                assert(document@.take(k + 1).contains(t));
                            } else {
                                assert(t == term);
                                assert(document@.take(k + 1)[k as int] == term);
                                assert(document@.take(k + 1).contains(t));
                            }
                        }
                        if document@.take(k + 1).contains(t) {
                            let m = choose|m: int|
                                0 <= m < k + 1 && #[trigger] document@.take(k + 1)[m] == t;
                            if m < k {
                                assert(document@.take(k as int)[m] == t);
                                assert(document@.take(k as int).contains(t));
                                assert(seen0.contains(t));
                                let j = choose|j: int| 0 <= j < seen0.len() && seen0[j] == t;
                                assert(seen@[j] == t);
                                assert(seen@.contains(t));
                            } else {
                                assert(t == term);
                                assert(seen@[seen0.len() as int] == term);
                                assert(seen@.contains(t));
                            }
                        }
                    }
                    assert forall|t: u64|
                        #[trigger] self.term_seq(t) == (if seen@.contains(t) {
                            pre.term_seq(t).push(doc_id.0)
                        } else {
                            pre.term_seq(t)
                        }) by {
                        if t == term {
                            assert(seen@[seen0.len() as int] == term);
                            assert(seen@.contains(t));
                        } else {
                            if seen@.contains(t) {
                                let j = choose|j: int|
                                    0 <= j < seen@.len() && seen@[j] == t;
                                assert(j < seen0.len());
                                assert(seen0[j] == t);
                                assert(seen0.contains(t));
                            }
                            if seen0.contains(t) {
                                let j = choose|j: int|
                                    0 <= j < seen0.len() && seen0[j] == t;
                                assert(seen@[j] == t);
                                assert(seen@.contains(t));
                            }
                        }
                    }
                }
            } else {
                proof {
                    assert(seen@.contains(term));
                    assert forall|t: u64|
                        #[trigger] seen@.contains(t) == document@.take(k + 1).contains(t) by {
                        if seen@.contains(t) {
                            assert(document@.take(k as int).contains(t));
                            let m = choose|m: int|
                                0 <= m < k && #[trigger] document@.take(k as int)[m] == t;
                            assert(document@.take(k + 1)[m] == t);
                        }
                        if document@.take(k + 1).contains(t) {
                            let m = choose|m: int|
                                0 <= m < k + 1 && #[trigger] document@.take(k + 1)[m] == t;
                            if m < k {
                                assert(document@.take(k as int)[m] == t);
                                assert(document@.take(k as int).contains(t));
                            } else {
                                assert(t == term);
                            }
                        }
                    }
                }
            }
            k += 1;
        }
        proof {
            assert(document@.take(document@.len() as int) =~= document@);
        }
        doc_id
    }

    /// Checks the document-id discipline first: indexes the document when
    /// the override is admissible, and reports nothing-done otherwise
    /// instead of corrupting the index.
    pub fn try_index_document(&mut self, document: Vec<u64>, overwrite_doc_id: Option<DocId>)
        -> (r: Option<DocId>)
        requires
            old(self).wf(),
            old(self).documents() < usize::MAX,
            old(self).vocab_terms().len() + document@.len() < usize::MAX,
            old(self).counter() + 2 * document@.len() + 19 <= usize::MAX,
        ensures
            final(self).wf(),
            match overwrite_doc_id {
                Some(d) => if d.0 < u32::MAX && (old(self).last_doc() == u32::MAX || d.0 > old(
                    self,
                ).last_doc()) {
                    r == Some(d)
                } else {
                    r is None && *final(self) == *old(self)
                },
                None => if old(self).last_doc() == u32::MAX || old(self).last_doc() + 2
                    <= u32::MAX {
                    r is Some
                } else {
                    r is None && *final(self) == *old(self)
                },
            },
            r is Some ==> final(self).documents() == old(self).documents() + 1 && forall|t: u64|
                #[trigger] final(self).term_seq(t) == if document@.contains(t) {
                    old(self).term_seq(t).push(r.unwrap().0)
                } else {
                    old(self).term_seq(t)
                },
    {
        let admissible = match overwrite_doc_id {
            Some(d) => d.0 < u32::MAX && (self.last_doc_id.0 == u32::MAX || d.0
                > self.last_doc_id.0),
            None => self.last_doc_id.0 == u32::MAX || self.last_doc_id.0 <= u32::MAX - 2,
        };
        if admissible {
            Some(self.index_document(document, overwrite_doc_id))
        } else {
            None
        }
    }
}

impl Index {
    /// Commits every listing, newest term id first, making the whole
    /// index queryable; nothing already indexed changes.
    #[verifier::rlimit(100)]
    pub fn commit(&mut self)
        requires
            old(self).wf(),
            old(self).counter() + 2 * old(self).num_listings() + 18 <= usize::MAX,
        ensures
            final(self).wf(),
            final(self).all_committed(),
            forall|t: u64| #[trigger] final(self).term_seq(t) == old(self).term_seq(t),
            final(self).last_doc() == old(self).last_doc(),
            final(self).documents() == old(self).documents(),
            final(self).vocab_terms() == old(self).vocab_terms(),
            final(self).counter() <= old(self).counter() + 2 * old(self).num_listings(),
    {
        let ghost pre = *old(self);
        let mut i = self.listings.len();
        while i > 0
            invariant
                pre == *old(self),
                pre.wf(),
                self.wf(),
                i <= self.listings@.len(),
                self.listings@.len() == pre.listings@.len(),
                self.vocabulary == pre.vocabulary,
                self.last_doc_id == pre.last_doc_id,
                self.doc_count == pre.doc_count,
                forall|j: int|
                    0 <= j < self.listings@.len() ==> (#[trigger] self.listings@[j]).0
                        == pre.listings@[j].0,
                forall|j: int|
                    0 <= j < self.listings@.len() ==> (#[trigger] self.listings@[j]).1.history()
                        == pre.listings@[j].1.history(),
                forall|j: int|
                    i <= j < self.listings@.len() ==> (#[trigger] self.listings@[j]).1.committed(),
                self.counter() <= pre.counter() + 2 * (pre.listings@.len() - i),
                pre.counter() + 2 * pre.listings@.len() + 18 <= usize::MAX,
            decreases i,
        {
            i = i - 1;
            let ghost s1 = self.listings@;
            let ghost cpre = self.page_manager;
            let mut entry = self.listings.remove(i);
            proof {
                assert(entry == s1[i as int]);
                assert(entry.1.history().len() > 0);
                assert(entry.1.buffered() < BLOCK_ITEMS);
            }
            entry.1.commit(&mut self.page_manager);
            self.listings.insert(i, entry);
            proof {
                assert(self.listings@ =~= s1.update(i as int, entry));
                self.lemma_commit_step(pre, cpre, s1, i as int, entry);
            }
        }
        proof {
            let s1 = pre.listings@;
            let s2 = self.listings@;
            assert forall|t: u64| #[trigger] self.term_seq(t) == pre.term_seq(t) by {
                if self.vocabulary.has_term(t) {
                    let u = self.vocabulary.id_of(t) as u64;
                    if lhas(s1, u) {
                        let k = lidx(s1, u);
                        assert(s1[k].0.0 == u);
                        assert(s2[k].0 == s1[k].0);
                        lemma_lidx_unique(s2, u, k);
                        assert(s2[k].1.history() == s1[k].1.history());
                    } else {
                        if lhas(s2, u) {
                            let k = lidx(s2, u);
                            assert(s1[k].0.0 == u);
                            assert(false);
                        }
                    }
                }
            }
        }
    }

    /// After committing the listing at entry `i` in place, the index is
    /// coherent and nothing observable moved.
    #[verifier::rlimit(100)]
    proof fn lemma_commit_step(
        &self,
        pre: Index,
        cpre: RamPageCache,
        s1: Seq<(TermId, Listing)>,
        i: int,
        entry: (TermId, Listing),
    )
        requires
            pre.wf(),
            self.vocabulary == pre.vocabulary,
            self.last_doc_id == pre.last_doc_id,
            self.doc_count == pre.doc_count,
            lsorted(s1),
            cpre.inv(),
            0 <= i < s1.len(),
            forall|j: int| 0 <= j < s1.len() ==> (#[trigger] s1[j]).1.wf(&cpre),
            forall|j: int|
                0 <= j < s1.len() ==> (#[trigger] s1[j]).1.history().len() > 0 && strictly_inc(
                    s1[j].1.history(),
                ) && s1[j].1.history().last() <= pre.last_doc_id.0 && s1[j].1.buffered()
                    < BLOCK_ITEMS && s1[j].0.0 < pre.vocabulary.terms().len(),
            forall|a: int, b: int|
                0 <= a < b < s1.len() ==> (#[trigger] s1[a]).1.owned().disjoint(
                    (#[trigger] s1[b]).1.owned(),
                ),
            s1.len() > 0 ==> pre.last_doc_id.0 < u32::MAX,
            self.listings@ == s1.update(i, entry),
            entry.0 == s1[i].0,
            entry.1.wf(&self.page_manager),
            entry.1.history() == s1[i].1.history(),
            entry.1.committed(),
            entry.1.buffered() == 0,
            self.page_manager.inv(),
            evolves_except(cpre, self.page_manager, s1[i].1.owned()),
            forall|p: u64|
                entry.1.owned().contains(p) ==> s1[i].1.owned().contains(p) || p
                    >= cpre.counter_val(),
            self.listings@.len() == pre.listings@.len(),
        ensures
            self.wf(),
            forall|j: int|
                0 <= j < self.listings@.len() ==> (#[trigger] self.listings@[j]).1.history()
                    == s1[j].1.history(),
            forall|j: int|
                0 <= j < self.listings@.len() && j != i ==> (#[trigger] self.listings@[j])
                    == s1[j],
            forall|j: int|
                0 <= j < self.listings@.len() && j != i
                    ==> (#[trigger] self.listings@[j]).1.committed() == s1[j].1.committed(),
    {
        let s2 = self.listings@;
        let owned_i = s1[i].1.owned();
        assert forall|a: int, b: int| 0 <= a < b < s2.len() implies s2[a].0.0 < s2[b].0.0 by {
            assert(s1[a].0.0 < s1[b].0.0);
        }
        assert forall|j: int|
            0 <= j < s2.len() && j != i implies (#[trigger] s2[j]).1.wf(&self.page_manager)
            && s2[j] == s1[j] by {
            assert(s2[j] == s1[j]);
            assert(s1[j].1.owned().disjoint(owned_i)) by {
                if j < i {
                    assert(s1[j].1.owned().disjoint(s1[i].1.owned()));
                } else {
                    assert(s1[i].1.owned().disjoint(s1[j].1.owned()));
                    assert(s1[j].1.owned().intersect(owned_i) =~= Set::<u64>::empty()) by {
                        assert forall|p: u64|
                            !(s1[j].1.owned().intersect(owned_i).contains(p)) by {}
                    }
                }
            }
            lemma_wf_preserved(s1[j].1, cpre, self.page_manager, owned_i);
        }
        assert forall|a: int, b: int|
            0 <= a < b < s2.len() implies (#[trigger] s2[a]).1.owned().disjoint(
            (#[trigger] s2[b]).1.owned(),
        ) by {
            if a != i && b != i {
                assert(s2[a] == s1[a] && s2[b] == s1[b]);
            } else {
                let other: int = if a == i {
                    b
                } else {
                    a
                };
                assert(s2[other] == s1[other]);
                lemma_owned_bounded(s1[other].1, cpre);
                assert(entry.1.owned().intersect(s1[other].1.owned()) =~= Set::<u64>::empty())
                    by {
                    assert forall|p: u64|
                        !(entry.1.owned().intersect(s1[other].1.owned()).contains(p)) by {
                        if entry.1.owned().contains(p) && s1[other].1.owned().contains(p) {
                            if owned_i.contains(p) {
                                if other < i {
                                    assert(s1[other].1.owned().disjoint(owned_i));
                                } else {
                                    assert(owned_i.disjoint(s1[other].1.owned()));
                                }
                            } else {
                                assert(p >= cpre.counter_val());
                                assert(p < cpre.counter_val());
                            }
                        }
                    }
                }
                if a == i {
                    assert(s2[b].1.owned().intersect(s2[a].1.owned()) =~= Set::<
                        u64,
                    >::empty()) by {
                        assert forall|p: u64|
                            !(s2[b].1.owned().intersect(s2[a].1.owned()).contains(p)) by {}
                    }
                    assert(s2[a].1.owned().disjoint(s2[b].1.owned()));
                } else {
                    assert(s2[a].1.owned().disjoint(s2[b].1.owned()));
                }
            }
        }
        assert(self.wf());
    }

    /// The postings of the given term: an iterator over the whole
    /// listing, or over nothing when this index never saw the term.
    pub fn query_atom<'a>(&'a self, atom: u64) -> (r: PostingIterator<'a>)
        requires
            self.wf(),
            self.all_committed(),
        ensures
            r.wf(),
            r.position() == 0,
            r.full_seq() == self.term_seq(atom),
    {
        match self.vocabulary.get(atom) {
            Some(tid) => self.query_term(&tid),
            None => {
                proof {
                    assert(self.term_seq(atom) =~= Seq::<u32>::empty());
                }
                PostingIterator::empty_iter()
            },
        }
    }

    /// The postings of the given term id, an iterator over nothing when
    /// no listing carries it — with a shared vocabulary another index may
    /// know the id without this one holding data for it.
    pub fn query_term<'a>(&'a self, term_id: &TermId) -> (r: PostingIterator<'a>)
        requires
            self.wf(),
            self.all_committed(),
        ensures
            r.wf(),
            r.position() == 0,
            r.full_seq() == self.listing_seq(term_id.0),
    {
        match self.find_listing(term_id.0) {
            Some(i) => {
                let entry = &self.listings[i];
                proof {
                    assert(self.listings@[i as int].1.committed());
                }
                let d = entry.1.posting_decoder(&self.page_manager);
                PostingIterator::from_decoder(d)
            },
            None => {
                proof {
                    assert(self.listing_seq(term_id.0) =~= Seq::<u32>::empty());
                }
                PostingIterator::empty_iter()
            },
        }
    }

    /// In how many documents the term id occurs: the length of its
    /// listing, zero for an unknown id.
    pub fn term_df(&self, term_id: &TermId) -> (n: usize)
        requires
            self.wf(),
        ensures
            n == self.listing_seq(term_id.0).len(),
    {
        match self.find_listing(term_id.0) {
            Some(i) => {
                let entry = &self.listings[i];
                proof {
                    crate::listing::lemma_wf_local(self.listings@[i as int].1, self.page_manager);
                }
                entry.1.len()
            },
            None => {
                proof {
                    assert(self.listing_seq(term_id.0) =~= Seq::<u32>::empty());
                }
                0
            },
        }
    }

    /// Every term the vocabulary knows, with its id.
    pub fn iterate_terms(&self) -> (r: Vec<(u64, TermId)>)
        requires
            self.wf(),
        ensures
            r@.len() == self.vocab_terms().len(),
            forall|i: int|
                0 <= i < r@.len() ==> (#[trigger] r@[i]).0 == self.vocab_terms()[i] && r@[i].1.0
                    == i,
    {
        self.vocabulary.iterate_terms()
    }
}

} // verus!
