use vstd::prelude::*;

verus! {

/// The dense identifier a vocabulary assigns to a term at first sight;
/// stable for the vocabulary's lifetime.
#[derive(Debug, PartialEq, Eq, Structural, PartialOrd, Ord, Hash, Copy, Clone)]
pub struct TermId(pub u64);

/// A term-to-id mapping that can be handed to several indices: each copy
/// starts from the same assignments.  Ids are issued densely, in order of
/// first sight.
#[derive(Debug, Clone)]
pub struct SharedVocabulary {
    entries: Vec<(u64, TermId)>,
}

/// A vocabulary backed by any map-like store.
pub trait Vocabulary {
    /// Whether the store is in a state fit for lookups.
    spec fn vocab_wf(&self) -> bool;

    fn get_or_add(&mut self, term: u64) -> TermId
        requires
            old(self).vocab_wf(),
    ;

    fn get(&self, term: u64) -> Option<TermId>
        requires
            self.vocab_wf(),
    ;
}

/// A vocabulary whose term/id pairs can be walked.
pub trait TermIterator {
    spec fn iter_wf(&self) -> bool;

    fn iterate_terms(&self) -> Vec<(u64, TermId)>
        requires
            self.iter_wf(),
    ;
}

impl SharedVocabulary {
    /// The terms seen so far, in order of first sight; a term's id is its
    /// position here.
    pub closed spec fn terms(&self) -> Seq<u64> {
        self.entries@.map(|i: int, e: (u64, TermId)| e.0)
    }

    /// Ids are dense: the entry at position `i` carries id `i`, and no
    /// term occurs twice.
    pub closed spec fn wf(&self) -> bool {
        &&& self.entries@.len() <= usize::MAX
        &&& forall|i: int|
            0 <= i < self.entries@.len() ==> (#[trigger] self.entries@[i]).1.0 == i
        &&& forall|i: int, j: int|
            0 <= i < j < self.entries@.len() ==> self.entries@[i].0 != self.entries@[j].0
    }

    /// Whether the vocabulary knows `term`.
    pub open spec fn has_term(&self, term: u64) -> bool {
        self.terms().contains(term)
    }

    /// The id assigned to a known term: its position of first sight.
    pub open spec fn id_of(&self, term: u64) -> int {
        self.terms().index_of(term)
    }

    pub fn new() -> (v: SharedVocabulary)
        ensures
            v.wf(),
            v.terms() == Seq::<u64>::empty(),
    {
        let v = SharedVocabulary { entries: Vec::new() };
        proof {
            assert(v.terms() =~= Seq::<u64>::empty());
        }
        v
    }

    /// Looks the term up without changing anything.
    pub fn get(&self, term: u64) -> (r: Option<TermId>)
        requires
            self.wf(),
        ensures
            self.has_term(term) ==> r == Some(TermId(self.id_of(term) as u64)),
            !self.has_term(term) ==> r is None,
    {
        let mut i: usize = 0;
        while i < self.entries.len()
            invariant
                self.wf(),
                i <= self.entries@.len(),
                forall|j: int| 0 <= j < i ==> (#[trigger] self.entries@[j]).0 != term,
            decreases self.entries@.len() - i,
        {
            if self.entries[i].0 == term {
                proof {
                    assert(self.terms()[i as int] == term);
                    assert(self.has_term(term));
                    let k = self.id_of(term);
                    assert(self.terms()[k] == term);
                    assert(self.entries@[k].0 == term);
                    if k != i {
                        assert(false);
                    }
                    assert(self.entries@[i as int].1.0 == i);
                }
                return Some(self.entries[i].1);
            }
            i += 1;
        }
        proof {
            if self.has_term(term) {
                let k = self.id_of(term);
                assert(self.terms()[k] == term);
                assert(self.entries@[k].0 == term);
                assert(false);
            }
        }
        None
    }

    /// Resolves the term, assigning the next dense id at first sight.
    pub fn get_or_add(&mut self, term: u64) -> (r: TermId)
        requires
            old(self).wf(),
            old(self).terms().len() < usize::MAX,
        ensures
            final(self).wf(),
            old(self).has_term(term) ==> r == TermId(old(self).id_of(term) as u64)
                && final(self).terms() == old(self).terms(),
            !old(self).has_term(term) ==> r == TermId(old(self).terms().len() as u64)
                && final(self).terms() == old(self).terms().push(term),
            final(self).has_term(term),
            final(self).id_of(term) as u64 == r.0,
            r.0 < final(self).terms().len(),
    {
        match self.get(term) {
            Some(tid) => {
                proof {
                    assert(self.terms()[self.id_of(term)] == term);
                }
                tid
            },
            None => {
                let id = TermId(self.entries.len() as u64);
                self.entries.push((term, id));
                proof {
                    let n = old(self).entries@.len() as int;
                    assert(self.entries@[n] == (term, id));
                    assert(self.terms() =~= old(self).terms().push(term));
                    assert forall|i: int, j: int|
                        0 <= i < j < self.entries@.len() implies self.entries@[i].0
                        != self.entries@[j].0 by {
                        if j < n {
                        } else {
                            assert(self.entries@[j].0 == term);
                            if i < n {
                                assert(old(self).terms()[i] == self.entries@[i].0);
                                assert(!old(self).has_term(term));
                            }
                        }
                    }
                    assert(self.terms()[n] == term);
                    assert(self.has_term(term));
                    let k = self.id_of(term);
                    assert(self.terms()[k] == term);
                    if k != n {
                        assert(old(self).terms()[k] == term);
                        assert(old(self).has_term(term));
                        assert(false);
                    }
                }
                id
            },
        }
    }

    /// Every term with its id, in order of first sight.
    pub fn iterate_terms(&self) -> (r: Vec<(u64, TermId)>)
        requires
            self.wf(),
        ensures
            r@.len() == self.terms().len(),
            forall|i: int|
                0 <= i < r@.len() ==> (#[trigger] r@[i]).0 == self.terms()[i] && r@[i].1.0 == i,
    {
        let mut r: Vec<(u64, TermId)> = Vec::new();
        let mut i: usize = 0;
        while i < self.entries.len()
            invariant
                self.wf(),
                i <= self.entries@.len(),
                r@ == self.entries@.take(i as int),
            decreases self.entries@.len() - i,
        {
            r.push(self.entries[i]);
            i += 1;
        }
        proof {
            assert(r@ =~= self.entries@);
        }
        r
    }
}

impl SharedVocabulary {
    /// The term table is addressable.
    pub proof fn lemma_vocab_len(&self)
        requires
            self.wf(),
        ensures
            self.terms().len() <= usize::MAX,
    {
    }

    /// No term occurs at two positions.
    pub proof fn lemma_terms_unique(&self, i: int, j: int)
        requires
            self.wf(),
            0 <= i < self.terms().len(),
            0 <= j < self.terms().len(),
            self.terms()[i] == self.terms()[j],
        ensures
            i == j,
    {
        assert(self.entries@[i].0 == self.terms()[i]);
        assert(self.entries@[j].0 == self.terms()[j]);
        if i < j {
            assert(false);
        }
        if j < i {
            assert(false);
        }
    }
}

/// Growing a vocabulary by one term leaves every other term's standing
/// and id untouched.
pub proof fn lemma_vocab_stable(v1: SharedVocabulary, v2: SharedVocabulary, term: u64, t: u64)
    requires
        v1.wf(),
        v2.wf(),
        t != term,
        v2.terms() == v1.terms() || v2.terms() == v1.terms().push(term),
    ensures
        v2.has_term(t) == v1.has_term(t),
        v1.has_term(t) ==> v2.id_of(t) == v1.id_of(t),
{
    let n = v1.terms().len() as int;
    if v2.terms() == v1.terms().push(term) {
        if v1.has_term(t) {
            let k = v1.id_of(t);
            assert(v1.terms()[k] == t);
            assert(v2.terms()[k] == t);
            assert(v2.has_term(t));
            let k2 = v2.id_of(t);
            assert(v2.terms()[k2] == t);
            v2.lemma_terms_unique(k, k2);
        }
        if v2.has_term(t) {
            let k = v2.id_of(t);
            assert(v2.terms()[k] == t);
            if k == n {
                assert(v2.terms()[n] == term);
                assert(false);
            }
            assert(v1.terms()[k] == t);
            assert(v1.has_term(t));
        }
    } else {
        if v1.has_term(t) {
            let k = v1.id_of(t);
            assert(v2.terms()[k] == t);
            assert(v2.has_term(t));
            let k2 = v2.id_of(t);
            assert(v2.terms()[k2] == t);
            v2.lemma_terms_unique(k, k2);
        }
        if v2.has_term(t) {
            let k = v2.id_of(t);
            assert(v1.terms()[k] == t);
            assert(v1.has_term(t));
        }
    }
}

impl Vocabulary for SharedVocabulary {
    open spec fn vocab_wf(&self) -> bool {
        self.wf() && self.terms().len() < usize::MAX
    }

    fn get_or_add(&mut self, term: u64) -> TermId {
        SharedVocabulary::get_or_add(self, term)
    }

    fn get(&self, term: u64) -> Option<TermId> {
        SharedVocabulary::get(self, term)
    }
}

impl TermIterator for SharedVocabulary {
    open spec fn iter_wf(&self) -> bool {
        self.wf()
    }

    fn iterate_terms(&self) -> Vec<(u64, TermId)> {
        SharedVocabulary::iterate_terms(self)
    }
}

} // verus!
