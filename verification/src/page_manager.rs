use vstd::prelude::*;

use crate::counter::Counter;
use crate::page::{Block, BlockId, Page, PageId, UnfullPage, PAGESIZE};

verus! {

broadcast use vstd::array::group_array_axioms;

/// The backing store: an append-only sequence of pages addressed by
/// 0-based page id, the in-memory model of a single page file.
#[derive(Debug)]
pub struct PageManager {
    pages: Vec<Page>,
}

impl View for PageManager {
    type V = Seq<Page>;

    closed spec fn view(&self) -> Seq<Page> {
        self.pages@
    }
}

impl PageManager {
    pub fn new() -> (m: PageManager)
        ensures
            m@ == Seq::<Page>::empty(),
    {
        let m = PageManager { pages: Vec::new() };
        proof {
            assert(m@ =~= Seq::<Page>::empty());
        }
        m
    }

    /// Writes `page` at position `pid`, extending the store with empty
    /// pages if it does not reach that far yet.
    pub fn store_at(&mut self, pid: PageId, page: Page)
        requires
            pid.0 < usize::MAX,
        ensures
            final(self)@.len() == if old(self)@.len() > pid.0 {
                old(self)@.len() as int
            } else {
                pid.0 + 1
            },
            final(self)@[pid.0 as int] == page,
            forall|q: int|
                0 <= q < old(self)@.len() && q != pid.0 ==> final(self)@[q] == old(self)@[q],
    {
        let idx = pid.0 as usize;
        while self.pages.len() <= idx
            invariant
                idx < usize::MAX,
                self.pages@.len() >= old(self)@.len(),
                self.pages@.len() == old(self)@.len() || self.pages@.len() <= idx + 1,
                forall|q: int|
                    0 <= q < old(self)@.len() ==> #[trigger] self.pages@[q] == old(self)@[q],
            decreases idx + 1 - self.pages@.len(),
        {
            self.pages.push(Page::empty());
        }
        self.pages[idx] = page;
    }

    /// Reads the page at position `pid`.  Positions never written hold
    /// empty pages; positions beyond the store are a caller error.
    pub fn load(&self, pid: PageId) -> (p: Page)
        requires
            pid.0 < self@.len(),
        ensures
            p == self@[pid.0 as int],
    {
        let n = self.pages.len();
        proof {
            assert(pid.0 < n);
        }
        self.pages[pid.0 as usize]
    }

    pub fn len(&self) -> (n: usize)
        ensures
            n == self@.len(),
    {
        self.pages.len()
    }
}

/// Whether some entry of a construction list carries page id `pid`.
spec fn chas(s: Seq<(PageId, Page)>, pid: u64) -> bool {
    exists|i: int| 0 <= i < s.len() && s[i].0.0 == pid
}

/// The index of the entry carrying `pid`.
spec fn cidx(s: Seq<(PageId, Page)>, pid: u64) -> int {
    choose|i: int| 0 <= i < s.len() && s[i].0.0 == pid
}

/// The page carried by the entry with id `pid`.
spec fn cat(s: Seq<(PageId, Page)>, pid: u64) -> Page {
    s[cidx(s, pid)].1
}

/// Entries carry strictly increasing page ids.
spec fn csorted(s: Seq<(PageId, Page)>) -> bool {
    forall|i: int, j: int| 0 <= i < j < s.len() ==> s[i].0.0 < s[j].0.0
}

/// In a sorted construction list the id picks out one entry.
proof fn lemma_cidx_unique(s: Seq<(PageId, Page)>, pid: u64, i: int)
    requires
        csorted(s),
        0 <= i < s.len(),
        s[i].0.0 == pid,
    ensures
        chas(s, pid),
        cidx(s, pid) == i,
        cat(s, pid) == s[i].1,
{
    assert(chas(s, pid));
    let k = cidx(s, pid);
    assert(0 <= k < s.len() && s[k].0.0 == pid);
    if k != i {
        assert(false);
    }
}

/// A write-through page cache: mutable construction pages being filled by
/// listings, in front of the backing store that holds everything already
/// flushed.
#[derive(Debug)]
pub struct RamPageCache {
    counter: Counter,
    construction: Vec<(PageId, Page)>,
    store: PageManager,
}

impl RamPageCache {
    /// Cache soundness: construction pages carry strictly increasing ids,
    /// all below the allocation counter, and the counter stays within
    /// addressable range.
    pub closed spec fn inv(&self) -> bool {
        &&& csorted(self.construction@)
        &&& forall|i: int|
            0 <= i < self.construction@.len() ==> #[trigger] self.construction@[i].0.0
                < self.counter@
        &&& self.counter@ <= usize::MAX
        &&& self.store@.len() <= self.counter@
    }

    /// Number of page ids handed out so far.
    pub closed spec fn counter_val(&self) -> int {
        self.counter@ as int
    }

    /// Whether `pid` names a construction page.
    pub closed spec fn constr_has(&self, pid: u64) -> bool {
        chas(self.construction@, pid)
    }

    /// The content of construction page `pid`.
    pub closed spec fn constr_at(&self, pid: u64) -> Page {
        cat(self.construction@, pid)
    }

    /// The backing store contents.
    pub closed spec fn store_view(&self) -> Seq<Page> {
        self.store@
    }

    /// Number of pages the backing store reaches.
    pub open spec fn store_len(&self) -> int {
        self.store_view().len() as int
    }

    /// The content of flushed page `pid`.
    pub open spec fn store_at(&self, pid: u64) -> Page {
        self.store_view()[pid as int]
    }

    pub fn new(store: PageManager) -> (c: RamPageCache)
        requires
            store@.len() == 0,
        ensures
            c.inv(),
            c.counter_val() == 0,
            forall|p: u64| !c.constr_has(p),
            c.store_view() == store@,
    {
        RamPageCache { counter: Counter::new(), construction: Vec::new(), store }
    }

    /// Index of `pid` in the construction vector.
    fn find(&self, pid: PageId) -> (r: Option<usize>)
        requires
            self.inv(),
        ensures
            match r {
                Some(i) => i < self.construction@.len() && self.construction@[i as int].0 == pid
                    && self.constr_has(pid.0) && cidx(self.construction@, pid.0) == i,
                None => !self.constr_has(pid.0),
            },
    {
        let mut i: usize = 0;
        while i < self.construction.len()
            invariant
                self.inv(),
                i <= self.construction@.len(),
                forall|j: int| 0 <= j < i ==> #[trigger] self.construction@[j].0.0 != pid.0,
            decreases self.construction@.len() - i,
        {
            if self.construction[i].0.0 == pid.0 {
                proof {
                    lemma_cidx_unique(self.construction@, pid.0, i as int);
                }
                return Some(i);
            }
            i += 1;
        }
        None
    }

    /// Allocates a brand-new construction page whose first block is
    /// `block`, and returns its freshly-issued id.
    pub fn store_block(&mut self, block: Block) -> (pid: PageId)
        requires
            old(self).inv(),
            old(self).counter_val() < usize::MAX,
        ensures
            final(self).inv(),
            pid.0 == old(self).counter_val(),
            final(self).counter_val() == old(self).counter_val() + 1,
            final(self).constr_has(pid.0),
            !old(self).constr_has(pid.0),
            final(self).constr_at(pid.0).0@[0] == block,
            forall|p: u64|
                p != pid.0 ==> #[trigger] final(self).constr_has(p) == old(self).constr_has(p),
            forall|p: u64|
                p != pid.0 && old(self).constr_has(p) ==> #[trigger] final(self).constr_at(p)
                    == old(self).constr_at(p),
            final(self).store_view() == old(self).store_view(),
    {
        let id = self.counter.retrieve_and_inc();
        let mut page = Page::empty();
        page.0[0] = block;
        let pid = PageId(id);
        self.construction.push((pid, page));
        proof {
            let s1 = old(self).construction@;
            let s2 = self.construction@;
            let n = s1.len() as int;
            assert(s2[n] == (pid, page));
            lemma_cidx_unique(s2, pid.0, n);
            if chas(s1, pid.0) {
                let i = cidx(s1, pid.0);
                assert(0 <= i < s1.len() && s1[i].0.0 == pid.0);
                assert(false);
            }
            assert forall|p: u64| p != pid.0 implies #[trigger] chas(s2, p) == chas(s1, p) by {
                if chas(s1, p) {
                    let i = cidx(s1, p);
                    assert(0 <= i < s1.len() && s1[i].0.0 == p);
                    assert(s2[i].0.0 == p);
                }
                if chas(s2, p) {
                    let i = cidx(s2, p);
                    assert(0 <= i < s2.len() && s2[i].0.0 == p);
                    assert(i < n);
                    assert(s1[i].0.0 == p);
                }
            }
            assert forall|p: u64| p != pid.0 && chas(s1, p) implies #[trigger] cat(s2, p) == cat(
                s1,
                p,
            ) by {
                let i = cidx(s1, p);
                assert(0 <= i < s1.len() && s1[i].0.0 == p);
                assert(s2[i].0.0 == p);
                lemma_cidx_unique(s2, p, i);
                lemma_cidx_unique(s1, p, i);
            }
        }
        pid
    }

    /// Updates one block of a construction page.
    pub fn store_in_place(&mut self, pid: PageId, block_id: BlockId, block: Block)
        requires
            old(self).inv(),
            old(self).constr_has(pid.0),
            block_id.0 < PAGESIZE,
        ensures
            final(self).inv(),
            final(self).counter_val() == old(self).counter_val(),
            final(self).constr_has(pid.0),
            final(self).constr_at(pid.0).0@ == old(self).constr_at(pid.0).0@.update(
                block_id.0 as int,
                block,
            ),
            forall|p: u64| #[trigger] final(self).constr_has(p) == old(self).constr_has(p),
            forall|p: u64|
                p != pid.0 && old(self).constr_has(p) ==> #[trigger] final(self).constr_at(p)
                    == old(self).constr_at(p),
            final(self).store_view() == old(self).store_view(),
    {
        let i = match self.find(pid) {
            Some(i) => i,
            None => {
                proof {
                    assert(false);
                }
                0
            },
        };
        let mut page = self.construction[i].1;
        proof {
            lemma_cidx_unique(self.construction@, pid.0, i as int);
        }
        page.0[block_id.0 as usize] = block;
        self.construction[i] = (pid, page);
        proof {
            let s1 = old(self).construction@;
            let s2 = self.construction@;
            assert(s2 == s1.update(i as int, (pid, page)));
            assert(csorted(s2)) by {
                assert forall|a: int, b: int| 0 <= a < b < s2.len() implies s2[a].0.0 < s2[b].0.0
                    by {
                    assert(s1[a].0.0 < s1[b].0.0);
                    assert(s2[a].0.0 == s1[a].0.0);
                    assert(s2[b].0.0 == s1[b].0.0);
                }
            }
            lemma_cidx_unique(s2, pid.0, i as int);
            assert forall|p: u64| #[trigger] chas(s2, p) == chas(s1, p) by {
                if chas(s1, p) {
                    let k = cidx(s1, p);
                    assert(0 <= k < s1.len() && s1[k].0.0 == p);
                    assert(s2[k].0.0 == p);
                }
                if chas(s2, p) {
                    let k = cidx(s2, p);
                    assert(0 <= k < s2.len() && s2[k].0.0 == p);
                    assert(s1[k].0.0 == p);
                }
            }
            assert forall|p: u64| p != pid.0 && chas(s1, p) implies #[trigger] cat(s2, p) == cat(
                s1,
                p,
            ) by {
                let k = cidx(s1, p);
                assert(0 <= k < s1.len() && s1[k].0.0 == p);
                assert(k != i);
                assert(s2[k] == s1[k]);
                lemma_cidx_unique(s1, p, k);
                lemma_cidx_unique(s2, p, k);
            }
        }
    }

    /// Moves a finished construction page to the backing store; readers
    /// see it from now on, writers no longer may.
    pub fn flush_page(&mut self, pid: PageId)
        requires
            old(self).inv(),
            old(self).constr_has(pid.0),
        ensures
            final(self).inv(),
            final(self).counter_val() == old(self).counter_val(),
            !final(self).constr_has(pid.0),
            forall|p: u64|
                p != pid.0 ==> #[trigger] final(self).constr_has(p) == old(self).constr_has(p),
            forall|p: u64|
                p != pid.0 && old(self).constr_has(p) ==> #[trigger] final(self).constr_at(p)
                    == old(self).constr_at(p),
            final(self).store_len() == if old(self).store_len() > pid.0 {
                old(self).store_len()
            } else {
                pid.0 + 1
            },
            final(self).store_at(pid.0) == old(self).constr_at(pid.0),
            forall|q: int|
                0 <= q < old(self).store_len() && q != pid.0 ==> final(self).store_view()[q] == old(
                    self,
                ).store_view()[q],
    {
        let i = match self.find(pid) {
            Some(i) => i,
            None => {
                proof {
                    assert(false);
                }
                0
            },
        };
        let entry = self.construction.remove(i);
        proof {
            let s1 = old(self).construction@;
            let s2 = self.construction@;
            lemma_cidx_unique(s1, pid.0, i as int);
            assert(entry.1 == cat(s1, pid.0));
            assert(csorted(s2)) by {
                assert forall|a: int, b: int| 0 <= a < b < s2.len() implies s2[a].0.0 < s2[b].0.0
                    by {
                    if b < i {
                        assert(s2[a] == s1[a] && s2[b] == s1[b]);
                    } else if a < i {
                        assert(s2[a] == s1[a] && s2[b] == s1[b + 1]);
                    } else {
                        assert(s2[a] == s1[a + 1] && s2[b] == s1[b + 1]);
                    }
                }
            }
            if chas(s2, pid.0) {
                let k = cidx(s2, pid.0);
                assert(0 <= k < s2.len() && s2[k].0.0 == pid.0);
                if k < i {
                    assert(s1[k].0.0 == pid.0);
                    lemma_cidx_unique(s1, pid.0, k);
                } else {
                    assert(s1[k + 1].0.0 == pid.0);
                    lemma_cidx_unique(s1, pid.0, k + 1);
                }
                assert(false);
            }
            assert forall|p: u64| p != pid.0 implies #[trigger] chas(s2, p) == chas(s1, p) by {
                if chas(s1, p) {
                    let k = cidx(s1, p);
                    assert(0 <= k < s1.len() && s1[k].0.0 == p);
                    assert(k != i);
                    if k < i {
                        assert(s2[k].0.0 == p);
                    } else {
                        assert(s2[k - 1] == s1[k]);
                        assert(s2[k - 1].0.0 == p);
                    }
                }
                if chas(s2, p) {
                    let k = cidx(s2, p);
                    assert(0 <= k < s2.len() && s2[k].0.0 == p);
                    if k < i {
                        assert(s1[k].0.0 == p);
                    } else {
                        assert(s1[k + 1].0.0 == p);
                    }
                }
            }
            assert forall|p: u64| p != pid.0 && chas(s1, p) implies #[trigger] cat(s2, p) == cat(
                s1,
                p,
            ) by {
                let k = cidx(s1, p);
                assert(0 <= k < s1.len() && s1[k].0.0 == p);
                assert(k != i);
                if k < i {
                    assert(s2[k] == s1[k]);
                    lemma_cidx_unique(s2, p, k);
                } else {
                    assert(s2[k - 1] == s1[k]);
                    lemma_cidx_unique(s2, p, k - 1);
                }
                lemma_cidx_unique(s1, p, k);
            }
        }
        self.store.store_at(pid, entry.1);
    }

    /// Publishes the first `next_free_block_id` blocks of a construction
    /// page, shifted one slot so the page's first block stays reserved.
    /// The construction entry remains, so the same page can be extended
    /// and flushed again later.
    pub fn flush_unfull(&mut self, pid: PageId, next_free_block_id: BlockId) -> (u: UnfullPage)
        requires
            old(self).inv(),
            old(self).constr_has(pid.0),
            1 <= next_free_block_id.0 < PAGESIZE,
        ensures
            final(self).inv(),
            final(self).counter_val() == old(self).counter_val(),
            u == UnfullPage(pid, BlockId(1), BlockId((next_free_block_id.0 + 1) as u16)),
            forall|p: u64| #[trigger] final(self).constr_has(p) == old(self).constr_has(p),
            forall|p: u64|
                old(self).constr_has(p) ==> #[trigger] final(self).constr_at(p) == old(
                    self,
                ).constr_at(p),
            final(self).store_len() == if old(self).store_len() > pid.0 {
                old(self).store_len()
            } else {
                pid.0 + 1
            },
            forall|j: int|
                0 <= j < next_free_block_id.0 ==> #[trigger] final(self).store_at(pid.0).0@[j + 1]
                    == old(self).constr_at(pid.0).0@[j],
            forall|q: int|
                0 <= q < old(self).store_len() && q != pid.0 ==> final(self).store_view()[q] == old(
                    self,
                ).store_view()[q],
    {
        let i = match self.find(pid) {
            Some(i) => i,
            None => {
                proof {
                    assert(false);
                }
                0
            },
        };
        let src = self.construction[i].1;
        proof {
            lemma_cidx_unique(self.construction@, pid.0, i as int);
        }
        let mut shifted = Page::empty();
        let n = next_free_block_id.0 as usize;
        let mut j: usize = 0;
        while j < n
            invariant
                n < PAGESIZE,
                j <= n,
                forall|q: int| 0 <= q < j ==> #[trigger] shifted.0@[q + 1] == src.0@[q],
            decreases n - j,
        {
            let b = src.0[j];
            shifted.0[j + 1] = b;
            j += 1;
        }
        self.store.store_at(pid, shifted);
        UnfullPage::new(pid, BlockId(1), BlockId(next_free_block_id.0 + 1))
    }

    /// Reads a flushed page; reading a page that was never flushed is a
    /// caller error.
    pub fn get_page(&self, pid: PageId) -> (p: Page)
        requires
            self.inv(),
            pid.0 < self.store_len(),
        ensures
            p == self.store_at(pid.0),
    {
        self.store.load(pid)
    }
}

/// How a cache may change under operations that act for the owner of the
/// pages in `owned`: the allocator only advances, and every page outside
/// `owned` that existed before — whether still under construction or
/// already flushed — is untouched.
pub open spec fn evolves_except(c1: RamPageCache, c2: RamPageCache, owned: Set<u64>) -> bool {
    &&& c2.counter_val() >= c1.counter_val()
    &&& c2.store_len() >= c1.store_len()
    &&& forall|p: u64|
        p < c1.counter_val() && !owned.contains(p) ==> #[trigger] c2.constr_has(p)
            == c1.constr_has(p)
    &&& forall|p: u64|
        p < c1.counter_val() && !owned.contains(p) && c1.constr_has(p) ==> #[trigger] c2.constr_at(
            p,
        ) == c1.constr_at(p)
    &&& forall|q: int|
        0 <= q < c1.store_len() && !owned.contains(q as u64) ==> #[trigger] c2.store_view()[q]
            == c1.store_view()[q]
}

/// Composing two evolutions where the second one's exceptions are either
/// exceptions of the first or pages that did not exist at its start.
pub proof fn lemma_evolves_compose_grow(
    c0: RamPageCache,
    c1: RamPageCache,
    c2: RamPageCache,
    owned0: Set<u64>,
    owned1: Set<u64>,
)
    requires
        evolves_except(c0, c1, owned0),
        evolves_except(c1, c2, owned1),
        forall|p: u64|
            owned1.contains(p) ==> owned0.contains(p) || p >= c0.counter_val(),
        c0.store_len() <= c0.counter_val(),
    ensures
        evolves_except(c0, c2, owned0),
{
    assert forall|p: u64| p < c0.counter_val() && !owned0.contains(p) implies #[trigger] c2
        .constr_has(p) == c0.constr_has(p) by {
        assert(!owned1.contains(p));
        assert(c1.constr_has(p) == c0.constr_has(p));
    }
    assert forall|p: u64|
        p < c0.counter_val() && !owned0.contains(p) && c0.constr_has(p) implies #[trigger] c2
        .constr_at(p) == c0.constr_at(p) by {
        assert(!owned1.contains(p));
        assert(c1.constr_has(p) == c0.constr_has(p));
        assert(c1.constr_at(p) == c0.constr_at(p));
    }
    assert forall|q: int|
        0 <= q < c0.store_len() && !owned0.contains(q as u64) implies #[trigger] c2.store_view()[q]
        == c0.store_view()[q] by {
        assert((q as u64) < c0.counter_val());
        assert(!owned1.contains(q as u64));
        assert(c1.store_view()[q] == c0.store_view()[q]);
    }
}

impl RamPageCache {
    /// The backing store never reaches past the allocation counter.
    pub proof fn lemma_inv_store_len(&self)
        requires
            self.inv(),
        ensures
            self.store_len() <= self.counter_val(),
    {
    }
}

} // verus!
