use vstd::prelude::*;

use crate::page::{Block, BlockId, Page, PageId, Pages, PAGESIZE};
use crate::page_manager::RamPageCache;

verus! {

broadcast use vstd::array::group_array_axioms;

/// The block that position `i` of a listing's extent denotes, read from
/// the backing store: full pages first, then the published range of the
/// unfull tail page, whose blocks sit shifted by its `from` offset.
pub open spec fn extent_block(c: &RamPageCache, pages: Pages, i: int) -> Block {
    let pg = i / (PAGESIZE as int);
    let off = i % (PAGESIZE as int);
    if pg < pages.0@.len() {
        c.store_at(pages.0@[pg].0).0@[off]
    } else {
        let u = pages.1.unwrap();
        c.store_at(u.0.0).0@[off + u.1.0]
    }
}

/// Every block of a listing's extent, in order.
pub open spec fn extent_blocks(c: &RamPageCache, pages: Pages) -> Seq<Block> {
    Seq::new(pages.block_count() as nat, |i: int| extent_block(c, pages, i))
}

/// Reads a listing's blocks out of the page cache in order, with support
/// for skipping forward without touching the pages in between.
pub struct BlockIter<'a> {
    cache: &'a RamPageCache,
    pages: Pages,
    current_page: (PageId, Page),
    page_index: usize,
    ptr: usize,
}

impl<'a> BlockIter<'a> {
    /// The iterator reads sound pages: every page of the extent is
    /// flushed, the extent is addressable, and the cached page (when one
    /// is cached) holds what the store holds.
    pub closed spec fn wf(&self) -> bool {
        &&& self.cache.inv()
        &&& self.pages.wf()
        &&& self.pages.block_count() <= usize::MAX
        &&& forall|i: int|
            0 <= i < self.pages.0@.len() ==> #[trigger] self.pages.0@[i].0
                < self.cache.store_len()
        &&& match self.pages.1 {
            Some(u) => u.0.0 < self.cache.store_len(),
            None => true,
        }
        &&& (self.page_index == usize::MAX || (self.page_index < self.pages.spec_len()
            && self.pages.spec_get(self.page_index as int) == Some(self.current_page.0)
            && self.current_page.1 == self.cache.store_at(self.current_page.0.0)))
    }

    /// The cache the iterator reads from.
    pub closed spec fn cache_of(&self) -> &'a RamPageCache {
        self.cache
    }

    /// The extent the iterator walks.
    pub closed spec fn pages_of(&self) -> Pages {
        self.pages
    }

    /// Number of blocks consumed or skipped so far.
    pub closed spec fn pos(&self) -> int {
        self.ptr as int
    }

    pub fn new(cache: &'a RamPageCache, pages: Pages) -> (it: BlockIter<'a>)
        requires
            cache.inv(),
            pages.wf(),
            pages.block_count() <= usize::MAX,
            forall|i: int|
                0 <= i < pages.0@.len() ==> #[trigger] pages.0@[i].0 < cache.store_len(),
            match pages.1 {
                Some(u) => u.0.0 < cache.store_len(),
                None => true,
            },
        ensures
            it.wf(),
            it.cache_of() == cache,
            it.pages_of() == pages,
            it.pos() == 0,
    {
        BlockIter {
            cache,
            pages,
            current_page: (PageId::none(), Page::empty()),
            page_index: usize::MAX,
            ptr: 0,
        }
    }

    /// The page of the extent that the position falls into.
    fn calc_page_index(&self) -> (pg: usize)
        ensures
            pg == self.pos() / (PAGESIZE as int),
    {
        self.ptr / PAGESIZE
    }

    /// Fetches the page under the position into the one-page cache;
    /// yields nothing when the position lies past the extent.
    fn get_page(&mut self) -> (r: Option<()>)
        requires
            old(self).wf(),
        ensures
            final(self).wf(),
            final(self).pages_of() == old(self).pages_of(),
            final(self).cache_of() == old(self).cache_of(),
            final(self).pos() == old(self).pos(),
            match r {
                Some(_) => final(self).page_index == old(self).pos() / (PAGESIZE as int)
                    && final(self).page_index < old(self).pages_of().spec_len(),
                None => old(self).pos() / (PAGESIZE as int) >= old(self).pages_of().spec_len()
                    && *final(self) == *old(self),
            },
    {
        let target = self.calc_page_index();
        let page_id = match self.pages.get(target) {
            Some(p) => p,
            None => {
                return None;
            },
        };
        let page = self.cache.get_page(page_id);
        self.page_index = target;
        self.current_page = (page_id, page);
        proof {
            assert(target < self.pages.spec_len());
            assert(target < usize::MAX);
        }
        Some(())
    }

    /// The block position within the current page, honouring the offset
    /// and bound of an unfull tail page; nothing when the position lies
    /// past the published range.
    fn calc_block_index(&self) -> (r: Option<BlockId>)
        requires
            self.wf(),
            self.page_index < self.pages_of().spec_len(),
            self.page_index == self.pos() / (PAGESIZE as int),
        ensures
            match r {
                Some(b) => self.pos() < self.pages_of().block_count() && b.0 < PAGESIZE && (if self
                    .page_index < self.pages_of().0@.len() {
                    b.0 == self.pos() % (PAGESIZE as int)
                } else {
                    b.0 == self.pos() % (PAGESIZE as int) + self.pages_of().1.unwrap().1.0
                }),
                None => self.pos() >= self.pages_of().block_count(),
            },
    {
        let off = (self.ptr % PAGESIZE) as u16;
        if self.page_index == self.pages.len() - 1 && self.pages.has_unfull() {
            let u = match self.pages.unfull() {
                Some(u) => u,
                None => {
                    proof {
                        assert(false);
                    }
                    return None;
                },
            };
            let res = off + u.1.0;
            proof {
                let full_len = self.pages.0@.len() as int;
                assert(self.page_index == full_len);
                assert(self.pos() / (PAGESIZE as int) == full_len);
                assert(self.pos() == full_len * (PAGESIZE as int) + self.pos() % (
                PAGESIZE as int)) by (nonlinear_arith)
                    requires
                        self.pos() / (PAGESIZE as int) == full_len,
                        self.pos() % (PAGESIZE as int) == self.pos() - (self.pos() / (
                        PAGESIZE as int)) * (PAGESIZE as int),
                ;
            }
            if res >= u.2.0 {
                None
            } else {
                Some(BlockId(res))
            }
        } else {
            proof {
                let full_len = self.pages.0@.len() as int;
                assert(self.page_index < full_len);
                assert(self.pos() == (self.pos() / (PAGESIZE as int)) * (PAGESIZE as int)
                    + self.pos() % (PAGESIZE as int)) by (nonlinear_arith)
                    requires
                        self.pos() % (PAGESIZE as int) == self.pos() - (self.pos() / (
                        PAGESIZE as int)) * (PAGESIZE as int),
                ;
                assert(self.pos() < (self.page_index + 1) * (PAGESIZE as int))
                    by (nonlinear_arith)
                    requires
                        self.pos() == (self.pos() / (PAGESIZE as int)) * (PAGESIZE as int)
                            + self.pos() % (PAGESIZE as int),
                        self.page_index == self.pos() / (PAGESIZE as int),
                        0 <= self.pos() % (PAGESIZE as int) < (PAGESIZE as int),
                ;
                assert((self.page_index + 1) * (PAGESIZE as int) <= full_len * (
                PAGESIZE as int)) by (nonlinear_arith)
                    requires
                        self.page_index + 1 <= full_len,
                        (PAGESIZE as int) > 0,
                ;
                assert(full_len * (PAGESIZE as int) <= self.pages.block_count());
            }
            Some(BlockId(off))
        }
    }

    /// Yields the block at the current position and advances, or nothing
    /// once the position lies past the extent.
    pub fn next(&mut self) -> (r: Option<Block>)
        requires
            old(self).wf(),
        ensures
            final(self).wf(),
            final(self).pages_of() == old(self).pages_of(),
            final(self).cache_of() == old(self).cache_of(),
            old(self).pos() < old(self).pages_of().block_count() ==> r == Some(
                extent_blocks(old(self).cache_of(), old(self).pages_of())[old(self).pos()],
            ) && final(self).pos() == old(self).pos() + 1,
            old(self).pos() >= old(self).pages_of().block_count() ==> r is None
                && final(self).pos() == old(self).pos(),
    {
        let target = self.calc_page_index();
        if target != self.page_index {
            match self.get_page() {
                Some(_) => {},
                None => {
                    proof {
                        let pg = old(self).pos() / (PAGESIZE as int);
                        let full_len = self.pages.0@.len() as int;
                        assert(pg >= self.pages.spec_len());
                        assert(self.pos() >= self.pages.block_count()) by (nonlinear_arith)
                            requires
                                pg == self.pos() / (PAGESIZE as int),
                                pg >= self.pages.spec_len(),
                                self.pages.block_count() <= self.pages.spec_len() * (
                                PAGESIZE as int),
                                self.pos() >= pg * (PAGESIZE as int),
                                (PAGESIZE as int) > 0,
                        ;
                    }
                    return None;
                },
            }
        }
        proof {
            assert(self.page_index < self.pages.spec_len());
            assert(self.page_index == self.pos() / (PAGESIZE as int));
        }
        match self.calc_block_index() {
            Some(b) => {
                let block = self.current_page.1.block(b);
                proof {
                    assert(block == extent_block(self.cache, self.pages, self.pos())) by {
                        let pg = self.pos() / (PAGESIZE as int);
                        if pg < self.pages.0@.len() {
                            assert(self.current_page.0 == self.pages.0@[pg]);
                        } else {
                            assert(self.current_page.0 == self.pages.1.unwrap().0);
                        }
                    }
                    assert(extent_blocks(self.cache, self.pages)[self.pos()] == extent_block(
                        self.cache,
                        self.pages,
                        self.pos(),
                    ));
                }
                self.ptr = self.ptr + 1;
                Some(block)
            },
            None => None,
        }
    }

    /// Advances the position by `by` blocks without reading anything; the
    /// next read fetches whatever page the new position falls into.
    pub fn skip_blocks(&mut self, by: usize)
        requires
            old(self).wf(),
            old(self).pos() + by <= usize::MAX,
        ensures
            final(self).wf(),
            final(self).pages_of() == old(self).pages_of(),
            final(self).cache_of() == old(self).cache_of(),
            final(self).pos() == old(self).pos() + by,
    {
        self.ptr = self.ptr + by;
    }
}

} // verus!
