use vstd::prelude::*;

use crate::compressor::{
    codable_from, decode_block, last_or, NaiveCompressor, BLOCK_ITEMS,
};
use crate::page::{BlockId, Block, PageId, Pages, UnfullPage, PAGESIZE};
use crate::page_manager::{evolves_except, RamPageCache};
use crate::block_iter::{extent_block, extent_blocks, BlockIter};
use crate::posting::{Posting, PostingDecoder};
use crate::ring_buffer::BiasedRingBuffer;

verus! {

/// One listing's worth of blocks decodes, block by block, to a history of
/// document ids.  Each block is delta-coded against its bias; the first
/// bias is `base` and every later one is the last id of the block before
/// it.
#[verifier::opaque]
pub open spec fn blocks_encode(blocks: Seq<Block>, biases: Seq<u32>, hist: Seq<u32>, base: u32) -> bool
    decreases blocks.len(),
{
    if blocks.len() == 0 {
        biases.len() == 0 && hist.len() == 0
    } else {
        let d = decode_block(blocks[0], base);
        &&& biases.len() == blocks.len()
        &&& biases[0] == base
        &&& d.len() >= 1
        &&& d.len() <= hist.len()
        &&& d == hist.take(d.len() as int)
        &&& blocks_encode(blocks.skip(1), biases.skip(1), hist.skip(d.len() as int), d.last())
    }
}

/// Appending one freshly coded block extends the coded history by what
/// the block decodes to.
pub proof fn lemma_blocks_encode_push(
    blocks: Seq<Block>,
    biases: Seq<u32>,
    hist: Seq<u32>,
    base: u32,
    nb: Block,
    d2: Seq<u32>,
)
    requires
        blocks_encode(blocks, biases, hist, base),
        decode_block(nb, last_or(hist, base)) == d2,
        d2.len() >= 1,
    ensures
        blocks_encode(blocks.push(nb), biases.push(last_or(hist, base)), hist + d2, base),
    decreases blocks.len(),
{
    reveal(blocks_encode);
    if blocks.len() == 0 {
        assert(hist.len() == 0);
        assert(last_or(hist, base) == base);
        let b2 = blocks.push(nb);
        let i2 = biases.push(base);
        let h2 = hist + d2;
        assert(b2[0] == nb);
        assert(i2[0] == base);
        assert(h2 =~= d2);
        assert(d2 == h2.take(d2.len() as int));
        assert(b2.skip(1) =~= Seq::<Block>::empty());
        assert(i2.skip(1) =~= Seq::<u32>::empty());
        assert(h2.skip(d2.len() as int) =~= Seq::<u32>::empty());
        assert(blocks_encode(b2.skip(1), i2.skip(1), h2.skip(d2.len() as int), d2.last()));
        assert(blocks_encode(b2, i2, h2, base));
    } else {
        let d = decode_block(blocks[0], base);
        let hist1 = hist.skip(d.len() as int);
        assert(last_or(hist, base) == last_or(hist1, d.last())) by {
            assert(hist.len() >= d.len() >= 1);
            if hist1.len() == 0 {
                assert(d == hist.take(d.len() as int));
                assert(hist.last() == d.last());
            } else {
                assert(hist1.last() == hist.last());
            }
        }
        lemma_blocks_encode_push(blocks.skip(1), biases.skip(1), hist1, d.last(), nb, d2);
        let b2 = blocks.push(nb);
        let i2 = biases.push(last_or(hist, base));
        let h2 = hist + d2;
        assert(b2[0] == blocks[0]);
        assert(i2[0] == biases[0]);
        assert(h2.take(d.len() as int) =~= hist.take(d.len() as int));
        assert(b2.skip(1) =~= blocks.skip(1).push(nb));
        assert(i2.skip(1) =~= biases.skip(1).push(last_or(hist1, d.last())));
        assert(h2.skip(d.len() as int) =~= hist1 + d2);
        assert(h2.take(d.len() as int) == d);
        assert(decode_block(b2[0], base) == d);
        assert(blocks_encode(b2.skip(1), i2.skip(1), h2.skip(d.len() as int), d.last()));
        assert(blocks_encode(b2, i2, h2, base));
    }
}

/// In a strictly increasing page list every id is at least its position.
proof fn lemma_sorted_index(s: Seq<PageId>, i: int)
    requires
        forall|a: int, b: int| 0 <= a < b < s.len() ==> s[a].0 < s[b].0,
        0 <= i < s.len(),
    ensures
        s[i].0 >= i,
    decreases i,
{
    if i > 0 {
        lemma_sorted_index(s, i - 1);
    }
}

/// A growable sequence of postings for one term: compressed block by
/// block into the page cache, with one bias recorded per block and the
/// uncompressed tail waiting in a ring buffer.
pub struct Listing {
    pages: Pages,
    bias_list: Vec<Posting>,
    len: u32,
    posting_buffer: BiasedRingBuffer,
    next_block: u16,
    history: Ghost<Seq<u32>>,
}

impl Listing {
    /// Every document id this listing has ever been handed, in order.
    pub closed spec fn history(&self) -> Seq<u32> {
        self.history@
    }

    /// The page ids this listing owns; no other listing may share them.
    pub closed spec fn owned(&self) -> Set<u64> {
        Set::new(
            |p: u64|
                (exists|i: int| 0 <= i < self.pages.0@.len() && self.pages.0@[i].0 == p) || match self
                    .pages
                    .1 {
                    Some(u) => u.0.0 == p,
                    None => false,
                },
        )
    }

    /// Whether the listing has been committed: it holds postings, nothing
    /// is buffered and no page is open, so every posting is readable
    /// through the cache.
    pub closed spec fn committed(&self) -> bool {
        self.history@.len() > 0 && self.posting_buffer@.len() == 0 && self.next_block == PAGESIZE
    }

    /// The bias (delta base) of each compressed block.
    pub closed spec fn bias_vals(&self) -> Seq<u32> {
        self.bias_list@.map(|i: int, p: Posting| p.0.0)
    }

    /// Number of compressed blocks shipped so far.
    pub closed spec fn num_blocks(&self) -> int {
        self.bias_list@.len() as int
    }

    /// Number of postings already compressed into blocks.
    pub closed spec fn shipped(&self) -> int {
        self.history@.len() - self.posting_buffer@.len()
    }

    /// Number of postings still waiting in the ring buffer.
    pub closed spec fn buffered(&self) -> nat {
        self.posting_buffer@.len()
    }

    /// The content of the `i`-th compressed block, read from wherever it
    /// currently lives: the backing store for flushed pages, the
    /// construction cache for the page still being filled.
    pub closed spec fn shipped_block(&self, c: &RamPageCache, i: int) -> Block {
        let pg = i / (PAGESIZE as int);
        let off = i % (PAGESIZE as int);
        if pg < self.pages.0@.len() {
            if self.pages.1 is None && self.next_block < PAGESIZE && pg == self.pages.0@.len() - 1 {
                c.constr_at(self.pages.0@[pg].0).0@[off]
            } else {
                c.store_at(self.pages.0@[pg].0).0@[off]
            }
        } else {
            c.constr_at(self.pages.1.unwrap().0.0).0@[off]
        }
    }

    /// All compressed blocks, in shipping order.
    pub closed spec fn shipped_blocks(&self, c: &RamPageCache) -> Seq<Block> {
        Seq::new(self.num_blocks() as nat, |i: int| self.shipped_block(c, i))
    }

    /// Where the listing's pages stand in the cache: full pages flushed
    /// (except an open last page under construction), pids fresh, ordered
    /// and consistent with the block count.
    pub closed spec fn geometry(&self, c: &RamPageCache) -> bool {
        let full = self.pages.0@;
        &&& forall|i: int, j: int| 0 <= i < j < full.len() ==> full[i].0 < full[j].0
        &&& forall|i: int| 0 <= i < full.len() ==> #[trigger] full[i].0 < c.counter_val()
        &&& full.len() < usize::MAX
        &&& match self.pages.1 {
            None => {
                &&& if self.next_block < PAGESIZE {
                    &&& full.len() >= 1
                    &&& 1 <= self.next_block
                    &&& self.num_blocks() == (PAGESIZE as int) * (full.len() - 1)
                        + self.next_block
                    &&& c.constr_has(full.last().0)
                    &&& forall|i: int|
                        0 <= i < full.len() - 1 ==> #[trigger] full[i].0 < c.store_len()
                } else {
                    &&& self.next_block == PAGESIZE
                    &&& self.num_blocks() == (PAGESIZE as int) * full.len()
                    &&& forall|i: int| 0 <= i < full.len() ==> #[trigger] full[i].0 < c.store_len()
                }
            },
            Some(u) => {
                let m = u.2.0 - u.1.0;
                &&& self.next_block == PAGESIZE
                &&& self.posting_buffer@.len() == 0
                &&& u.1.0 == 1
                &&& 1 <= m <= PAGESIZE - 1
                &&& self.num_blocks() == (PAGESIZE as int) * full.len() + m
                &&& c.constr_has(u.0.0)
                &&& u.0.0 < c.counter_val()
                &&& u.0.0 < c.store_len()
                &&& forall|i: int| 0 <= i < full.len() ==> #[trigger] full[i].0 < c.store_len()
                &&& forall|i: int| 0 <= i < full.len() ==> #[trigger] full[i].0 < u.0.0
                &&& forall|off: int|
                    0 <= off < m ==> #[trigger] c.store_at(u.0.0).0@[off + 1] == c.constr_at(
                        u.0.0,
                    ).0@[off]
            },
        }
    }

    /// The cache-independent half of the listing's coherence: its history
    /// is codable and split between shipped blocks and the ring buffer.
    pub closed spec fn local_wf(&self) -> bool {
        let hist = self.history@;
        &&& self.len == hist.len()
        &&& hist.len() <= u32::MAX
        &&& codable_from(0, hist)
        &&& self.posting_buffer@.len() <= hist.len()
        &&& self.posting_buffer@ == hist.skip(self.shipped())
        &&& self.posting_buffer.spec_base() == last_or(hist.take(self.shipped()), 0)
        &&& 1 <= self.next_block <= PAGESIZE
        &&& self.pages.wf()
    }

    /// The listing's full coherence with a cache: its history is codable,
    /// split between shipped blocks and the ring buffer, and the shipped
    /// blocks decode back to exactly the shipped prefix.
    pub closed spec fn wf(&self, c: &RamPageCache) -> bool {
        &&& self.local_wf()
        &&& blocks_encode(
            self.shipped_blocks(c),
            self.bias_vals(),
            self.history@.take(self.shipped()),
            0,
        )
        &&& self.geometry(c)
    }

    pub fn new() -> (l: Listing)
        ensures
            l.history() == Seq::<u32>::empty(),
            forall|c: RamPageCache| #[trigger] l.wf(&c),
            l.owned() == Set::<u64>::empty(),
            !l.committed(),
            l.buffered() == 0,
    {
        let l = Listing {
            pages: Pages::new(),
            bias_list: Vec::new(),
            len: 0,
            posting_buffer: BiasedRingBuffer::new(),
            next_block: PAGESIZE as u16,
            history: Ghost(Seq::empty()),
        };
        proof {
            assert(l.owned() =~= Set::<u64>::empty());
            assert forall|c: RamPageCache| #[trigger] l.wf(&c) by {
                reveal(blocks_encode);
                assert(l.shipped_blocks(&c) =~= Seq::<Block>::empty());
                assert(l.bias_vals() =~= Seq::<u32>::empty());
                assert(l.history@.skip(0) =~= l.history@);
                assert(l.history@.take(0) =~= Seq::<u32>::empty());
            }
        }
        l
    }

    /// Number of page entries the listing owns, the unfull tail included.
    pub closed spec fn page_count_spec(&self) -> int {
        self.pages.spec_len()
    }

    /// The postings not yet compressed, front first.
    pub closed spec fn buffer_view(&self) -> Seq<u32> {
        self.posting_buffer@
    }

    /// The position of the most recently shipped block within its page.
    pub closed spec fn last_block_val(&self) -> int {
        if self.next_block == PAGESIZE {
            match self.pages.1 {
                Some(u) => u.2.0 - u.1.0 - 1,
                None => PAGESIZE - 1,
            }
        } else {
            self.next_block - 1
        }
    }

    /// How many postings the listing holds in total.
    pub fn len(&self) -> (n: usize)
        requires
            self.local_wf(),
        ensures
            n == self.history().len(),
    {
        self.len as usize
    }

    /// Number of pages this listing has begun, its unfull tail included.
    pub fn page_count(&self) -> (n: usize)
        requires
            self.local_wf(),
        ensures
            n == self.page_count_spec(),
    {
        self.pages.len()
    }

    /// The ring buffer of postings not yet compressed.
    pub fn posting_buffer(&self) -> (b: &BiasedRingBuffer)
        ensures
            b@ == self.buffer_view(),
    {
        &self.posting_buffer
    }

    /// Hands one compressed block to the cache, recording its bias: a new
    /// page is begun when none is open, the page is flushed when the block
    /// completes it.
    fn ship(&mut self, cache: &mut RamPageCache, bias: Posting, block: Block)
        requires
            old(self).local_wf(),
            old(self).geometry(old(cache)),
            old(cache).inv(),
            old(self).pages.1 is None,
            old(cache).counter_val() + 2 <= usize::MAX,
        ensures
            final(self).local_wf(),
            final(self).geometry(final(cache)),
            final(cache).inv(),
            final(self).pages.1 is None,
            final(self).history() == old(self).history(),
            final(self).buffer_view() == old(self).buffer_view(),
            final(self).posting_buffer == old(self).posting_buffer,
            final(self).len == old(self).len,
            final(self).bias_vals() == old(self).bias_vals().push(bias.0.0),
            final(self).num_blocks() == old(self).num_blocks() + 1,
            final(self).shipped_blocks(final(cache)) == old(self).shipped_blocks(
                old(cache),
            ).push(block),
            evolves_except(*old(cache), *final(cache), old(self).owned()),
            final(cache).counter_val() <= old(cache).counter_val() + 1,
            forall|p: u64|
                final(self).owned().contains(p) ==> old(self).owned().contains(p) || p >= old(
                    cache,
                ).counter_val(),
    {
        let ghost nb0 = self.num_blocks();
        let ghost blocks0 = self.shipped_blocks(cache);
        let ghost full0 = self.pages.0@;
        if self.next_block == PAGESIZE as u16 {
            // no page is open: begin a fresh one with this block first
            proof {
                if full0.len() > 0 {
                    lemma_sorted_index(full0, full0.len() - 1);
                }
            }
            let pid = cache.store_block(block);
            self.pages.0.push(pid);
            self.bias_list.push(bias);
            self.next_block = 1;
            proof {
                assert(self.bias_vals() =~= old(self).bias_vals().push(bias.0.0));
                assert(self.pages.0@ == full0.push(pid));
                assert forall|i: int| 0 <= i < full0.len() implies #[trigger] full0[i].0
                    < pid.0 by {}
                assert(self.num_blocks() == (PAGESIZE as int) * (self.pages.0@.len() - 1) + 1);
                assert(self.geometry(cache));
                assert forall|i: int| 0 <= i < nb0 + 1 implies #[trigger] self.shipped_blocks(
                    cache,
                )[i] == blocks0.push(block)[i] by {
                    let pg = i / (PAGESIZE as int);
                    let off = i % (PAGESIZE as int);
                    if i < nb0 {
                        assert(pg < full0.len());
                        assert(self.pages.0@[pg] == full0[pg]);
                        assert(self.shipped_block(cache, i) == old(self).shipped_block(
                            old(cache),
                            i,
                        ));
                    } else {
                        assert(i == (PAGESIZE as int) * full0.len());
                        assert(pg == full0.len() && off == 0) by (nonlinear_arith)
                            requires
                                i == (PAGESIZE as int) * full0.len(),
                                pg == i / (PAGESIZE as int),
                                off == i % (PAGESIZE as int),
                                full0.len() >= 0,
                        ;
                        assert(self.shipped_block(cache, i) == cache.constr_at(pid.0).0@[0]);
                    }
                }
                assert(self.shipped_blocks(cache) =~= blocks0.push(block));
                assert(evolves_except(*old(cache), *cache, old(self).owned()));
                assert forall|p: u64| self.owned().contains(p) implies old(self).owned().contains(
                    p,
                ) || p >= old(cache).counter_val() by {
                    if p != pid.0 {
                        let i = choose|i: int|
                            0 <= i < self.pages.0@.len() && self.pages.0@[i].0 == p;
                        assert(full0[i].0 == p);
                    }
                }
            }
        } else {
            // extend the open page in place
            let l = self.pages.0.len();
            let pid = self.pages.0[l - 1];
            let slot = self.next_block;
            cache.store_in_place(pid, BlockId(slot), block);
            self.bias_list.push(bias);
            self.next_block = slot + 1;
            let ghost mid_cache = *cache;
            proof {
                assert(self.bias_vals() =~= old(self).bias_vals().push(bias.0.0));
                assert(self.owned() =~= old(self).owned());
            }
            if self.next_block == PAGESIZE as u16 {
                // the block completed its page: retire it to the store
                cache.flush_page(pid);
                proof {
                    assert(self.num_blocks() == (PAGESIZE as int) * self.pages.0@.len());
                    assert(self.geometry(cache));
                    assert forall|i: int| 0 <= i < nb0 + 1 implies #[trigger] self.shipped_blocks(
                        cache,
                    )[i] == blocks0.push(block)[i] by {
                        let pg = i / (PAGESIZE as int);
                        let off = i % (PAGESIZE as int);
                        assert(nb0 + 1 == (PAGESIZE as int) * full0.len());
                        assert(pg < full0.len() && (pg == full0.len() - 1 ==> off <= slot))
                            by (nonlinear_arith)
                            requires
                                0 <= i < (PAGESIZE as int) * full0.len(),
                                nb0 + 1 == (PAGESIZE as int) * full0.len(),
                                slot == PAGESIZE - 1,
                                pg == i / (PAGESIZE as int),
                                off == i % (PAGESIZE as int),
                                0 <= off < (PAGESIZE as int),
                                i == pg * (PAGESIZE as int) + off,
                        ;
                        if pg < full0.len() - 1 {
                            assert(self.shipped_block(cache, i) == old(self).shipped_block(
                                old(cache),
                                i,
                            ));
                        } else {
                            assert(cache.store_at(pid.0) == mid_cache.constr_at(pid.0));
                            if i < nb0 {
                                assert(off < slot);
                                assert(self.shipped_block(cache, i) == old(cache).constr_at(
                                    pid.0,
                                ).0@[off]);
                            } else {
                                assert(off == slot);
                                assert(self.shipped_block(cache, i) == block);
                            }
                        }
                    }
                    assert(self.shipped_blocks(cache) =~= blocks0.push(block));
                    assert(evolves_except(*old(cache), *cache, old(self).owned())) by {
                        assert(old(self).owned().contains(pid.0));
                    }
                }
            } else {
                proof {
                    assert(self.num_blocks() == (PAGESIZE as int) * (self.pages.0@.len() - 1)
                        + self.next_block);
                    assert(self.geometry(cache));
                    assert forall|i: int| 0 <= i < nb0 + 1 implies #[trigger] self.shipped_blocks(
                        cache,
                    )[i] == blocks0.push(block)[i] by {
                        let pg = i / (PAGESIZE as int);
                        let off = i % (PAGESIZE as int);
                        assert(nb0 == (PAGESIZE as int) * (full0.len() - 1) + slot);
                        assert((pg < full0.len() - 1 && i < nb0) || (pg == full0.len() - 1 && off
                            <= slot && i == (PAGESIZE as int) * (full0.len() - 1) + off))
                            by (nonlinear_arith)
                            requires
                                0 <= i <= nb0,
                                nb0 == (PAGESIZE as int) * (full0.len() - 1) + slot,
                                0 <= slot < (PAGESIZE as int),
                                full0.len() >= 1,
                                pg == i / (PAGESIZE as int),
                                off == i % (PAGESIZE as int),
                                0 <= off < (PAGESIZE as int),
                                i == pg * (PAGESIZE as int) + off,
                        ;
                        if pg < full0.len() - 1 {
                            assert(self.shipped_block(cache, i) == old(self).shipped_block(
                                old(cache),
                                i,
                            ));
                        } else {
                            assert(self.shipped_block(cache, i) == cache.constr_at(pid.0).0@[off]);
                            if off < slot {
                                assert(i < nb0);
                                assert(cache.constr_at(pid.0).0@[off] == old(cache).constr_at(
                                    pid.0,
                                ).0@[off]);
                            } else {
                                assert(off == slot && i == nb0);
                                assert(cache.constr_at(pid.0).0@[off] == block);
                            }
                        }
                    }
                    assert(self.shipped_blocks(cache) =~= blocks0.push(block));
                    assert(evolves_except(*old(cache), *cache, old(self).owned())) by {
                        assert(old(self).owned().contains(pid.0));
                    }
                }
            }
        }
    }

    /// Pops one block's worth of postings, codes them, and ships the
    /// block; does nothing when less than a full block is buffered.
    #[verifier::rlimit(100)]
    fn ship_one(&mut self, cache: &mut RamPageCache) -> (did: bool)
        requires
            old(self).wf(old(cache)),
            old(cache).inv(),
            old(self).buffered() > 0 ==> old(self).pages.1 is None,
            old(cache).counter_val() + 2 <= usize::MAX,
        ensures
            old(self).buffered() < BLOCK_ITEMS ==> !did && *final(self) == *old(self)
                && *final(cache) == *old(cache),
            old(self).buffered() >= BLOCK_ITEMS ==> {
                &&& did
                &&& final(self).buffered() == old(self).buffered() - BLOCK_ITEMS
            },
            final(self).wf(final(cache)),
            final(cache).inv(),
            final(self).history() == old(self).history(),
            final(self).len == old(self).len,
            final(self).pages.1 is None || old(self).buffered() < BLOCK_ITEMS,
            evolves_except(*old(cache), *final(cache), old(self).owned()),
            final(cache).counter_val() <= old(cache).counter_val() + 1,
            forall|p: u64|
                final(self).owned().contains(p) ==> old(self).owned().contains(p) || p >= old(
                    cache,
                ).counter_val(),
    {
        let ghost hist = self.history@;
        let ghost pre = *self;
        let ghost cpre = *cache;
        let ghost sh = self.shipped();
        let bias = self.posting_buffer.base();
        proof {
            crate::compressor::lemma_codable_prefix(0, hist, sh);
        }
        let r = NaiveCompressor::compress(&mut self.posting_buffer);
        match r {
            Some(block) => {
                let ghost mid = *self;
                let ghost d = decode_block(block, bias.0.0);
                proof {
                    // the sixteen postings that left the buffer are the
                    // next slice of the history
                    assert(hist.skip(sh).take(BLOCK_ITEMS as int) =~= hist.subrange(
                        sh,
                        sh + BLOCK_ITEMS,
                    ));
                    assert(hist.take(sh + BLOCK_ITEMS).skip(sh) =~= hist.subrange(
                        sh,
                        sh + BLOCK_ITEMS,
                    ));
                    assert(mid.posting_buffer@ =~= hist.skip(sh + BLOCK_ITEMS));
                    assert(mid.shipped() == sh + BLOCK_ITEMS);
                    assert(mid.posting_buffer.spec_base() == hist.skip(sh)[BLOCK_ITEMS - 1]);
                    assert(hist.take(sh + BLOCK_ITEMS).len() > 0);
                    assert(hist.take(sh + BLOCK_ITEMS).last() == hist[sh + BLOCK_ITEMS - 1]);
                    assert(mid.local_wf());
                    assert(mid.geometry(cache));
                }
                self.ship(cache, bias, block);
                proof {
                    assert(d == hist.skip(sh).take(BLOCK_ITEMS as int));
                    assert(bias.0.0 == last_or(hist.take(sh), 0));
                    lemma_blocks_encode_push(
                        pre.shipped_blocks(&cpre),
                        pre.bias_vals(),
                        hist.take(sh),
                        0,
                        block,
                        d,
                    );
                    assert(mid.shipped_blocks(&cpre) =~= pre.shipped_blocks(&cpre));
                    assert(self.shipped_blocks(cache) == mid.shipped_blocks(&cpre).push(block));
                    assert(hist.take(sh) + d =~= hist.take(sh + BLOCK_ITEMS));
                    assert(blocks_encode(
                        self.shipped_blocks(cache),
                        self.bias_vals(),
                        hist.take(self.shipped()),
                        0,
                    ));
                    assert(self.wf(cache));
                }
                true
            },
            None => {
                false
            },
        }
    }

    /// Codes whatever tail is left in the buffer into one final short
    /// block and ships it.
    #[verifier::rlimit(100)]
    fn ship_tail(&mut self, cache: &mut RamPageCache)
        requires
            old(self).wf(old(cache)),
            old(cache).inv(),
            1 <= old(self).buffered() <= BLOCK_ITEMS,
            old(self).pages.1 is None,
            old(cache).counter_val() + 2 <= usize::MAX,
        ensures
            final(self).wf(final(cache)),
            final(cache).inv(),
            final(self).history() == old(self).history(),
            final(self).len == old(self).len,
            final(self).buffered() == 0,
            final(self).pages.1 is None,
            evolves_except(*old(cache), *final(cache), old(self).owned()),
            final(cache).counter_val() <= old(cache).counter_val() + 1,
            forall|p: u64|
                final(self).owned().contains(p) ==> old(self).owned().contains(p) || p >= old(
                    cache,
                ).counter_val(),
    {
        let ghost hist = self.history@;
        let ghost pre = *self;
        let ghost cpre = *cache;
        let ghost sh = self.shipped();
        let bias = self.posting_buffer.base();
        proof {
            crate::compressor::lemma_codable_prefix(0, hist, sh);
        }
        let block = NaiveCompressor::force_compress(&mut self.posting_buffer);
        let ghost mid = *self;
        let ghost d = decode_block(block, bias.0.0);
        proof {
            assert(d == hist.skip(sh));
            assert(mid.posting_buffer@ =~= hist.skip(hist.len() as int));
            assert(mid.shipped() == hist.len());
            assert(hist.skip(sh).last() == hist.last());
            assert(hist.take(hist.len() as int) =~= hist);
            assert(mid.posting_buffer.spec_base() == hist.last());
            assert(last_or(hist.take(mid.shipped()), 0) == hist.last());
            assert(mid.local_wf());
            assert(mid.geometry(cache));
        }
        self.ship(cache, bias, block);
        proof {
            lemma_blocks_encode_push(
                pre.shipped_blocks(&cpre),
                pre.bias_vals(),
                hist.take(sh),
                0,
                block,
                d,
            );
            assert(mid.shipped_blocks(&cpre) =~= pre.shipped_blocks(&cpre));
            assert(self.shipped_blocks(cache) == mid.shipped_blocks(&cpre).push(block));
            assert(hist.take(sh) + d =~= hist);
            assert(hist.take(self.shipped()) =~= hist);
            assert(blocks_encode(
                self.shipped_blocks(cache),
                self.bias_vals(),
                hist.take(self.shipped()),
                0,
            ));
            assert(self.wf(cache));
        }
    }

    /// Compresses buffered postings block by block and ships each one;
    /// with `force`, the remaining tail is coded into a final short block.
    fn compress_and_ship(&mut self, cache: &mut RamPageCache, force: bool)
        requires
            old(self).wf(old(cache)),
            old(cache).inv(),
            old(self).buffered() > 0 ==> old(self).pages.1 is None,
            old(cache).counter_val() + old(self).buffered() + 2 <= usize::MAX,
        ensures
            final(self).wf(final(cache)),
            final(cache).inv(),
            final(self).history() == old(self).history(),
            final(self).len == old(self).len,
            force ==> final(self).buffered() == 0,
            !force ==> final(self).buffered() < BLOCK_ITEMS,
            evolves_except(*old(cache), *final(cache), old(self).owned()),
            final(cache).counter_val() + 2 <= usize::MAX,
            16 * (final(cache).counter_val() - old(cache).counter_val()) <= old(self).buffered()
                - final(self).buffered() + 16,
            forall|p: u64|
                final(self).owned().contains(p) ==> old(self).owned().contains(p) || p >= old(
                    cache,
                ).counter_val(),
    {
        let ghost c0 = *old(cache);
        let ghost owned0 = old(self).owned();
        loop
            invariant
                c0 == *old(cache),
                c0.inv(),
                owned0 == old(self).owned(),
                self.wf(cache),
                cache.inv(),
                self.history@ == old(self).history@,
                self.len == old(self).len,
                self.buffered() > 0 ==> self.pages.1 is None,
                self.buffered() <= old(self).buffered(),
                cache.counter_val() + self.buffered() + 2 <= usize::MAX,
                16 * (cache.counter_val() - c0.counter_val()) <= old(self).buffered()
                    - self.buffered(),
                evolves_except(c0, *cache, owned0),
                forall|p: u64|
                    self.owned().contains(p) ==> owned0.contains(p) || p >= c0.counter_val(),
            ensures
                self.wf(cache),
                cache.inv(),
                self.history@ == old(self).history@,
                self.len == old(self).len,
                self.buffered() < BLOCK_ITEMS,
                self.buffered() > 0 ==> self.pages.1 is None,
                cache.counter_val() + self.buffered() + 2 <= usize::MAX,
                16 * (cache.counter_val() - c0.counter_val()) <= old(self).buffered()
                    - self.buffered(),
                evolves_except(c0, *cache, owned0),
                forall|p: u64|
                    self.owned().contains(p) ==> owned0.contains(p) || p >= c0.counter_val(),
            decreases self.buffered(),
        {
            let ghost pre = *self;
            let ghost cpre = *cache;
            let did = self.ship_one(cache);
            proof {
                c0.lemma_inv_store_len();
                crate::page_manager::lemma_evolves_compose_grow(
                    c0,
                    cpre,
                    *cache,
                    owned0,
                    pre.owned(),
                );
            }
            if !did {
                break;
            }
        }
        if force && self.posting_buffer.count() > 0 {
            let ghost pre = *self;
            let ghost cpre = *cache;
            self.ship_tail(cache);
            proof {
                c0.lemma_inv_store_len();
                crate::page_manager::lemma_evolves_compose_grow(
                    c0,
                    cpre,
                    *cache,
                    owned0,
                    pre.owned(),
                );
            }
        }
    }

    /// Buffers one posting that continues the listing's order.
    #[verifier::rlimit(100)]
    fn push_one(&mut self, cache: &RamPageCache, p: Posting)
        requires
            old(self).wf(cache),
            old(self).pages.1 is None,
            old(self).history@.len() < u32::MAX,
            p.0.0 < u32::MAX,
            last_or(old(self).history@, 0) <= p.0.0,
        ensures
            final(self).wf(cache),
            final(self).pages.1 is None,
            final(self).history@ == old(self).history@.push(p.0.0),
            final(self).len == old(self).len + 1,
            final(self).buffered() == old(self).buffered() + 1,
            final(self).shipped() == old(self).shipped(),
            final(self).owned() == old(self).owned(),
            final(self).pages == old(self).pages,
    {
        let ghost hist = self.history@;
        let ghost sh = self.shipped();
        self.posting_buffer.push_back(p);
        self.len = self.len + 1;
        self.history = Ghost(self.history@.push(p.0.0));
        proof {
            let hist1 = self.history@;
            let v = p.0.0;
            assert(codable_from(0, hist1)) by {
                assert forall|i: int| 0 <= i < hist1.len() implies #[trigger] hist1[i]
                    < u32::MAX by {
                    if i < hist.len() {
                        assert(hist1[i] == hist[i]);
                    } else {
                        assert(hist1[i] == v);
                    }
                }
                assert forall|i: int|
                    0 <= i < hist1.len() implies (if i == 0 {
                    0u32
                } else {
                    hist1[i - 1]
                }) <= #[trigger] hist1[i] by {
                    if i < hist.len() {
                        assert(hist1[i] == hist[i]);
                        if i > 0 {
                            assert(hist1[i - 1] == hist[i - 1]);
                        }
                    } else {
                        assert(hist1[i] == v);
                        if i > 0 {
                            assert(hist1[i - 1] == hist.last());
                            assert(hist.last() == last_or(hist, 0));
                        }
                    }
                }
            }
            assert(self.shipped() == sh);
            assert(self.posting_buffer@ =~= hist1.skip(sh));
            assert(hist1.take(sh) =~= hist.take(sh));
            assert(self.posting_buffer.spec_base() == last_or(hist1.take(sh), 0));
            assert(self.shipped_blocks(cache) =~= old(self).shipped_blocks(cache));
            assert(self.geometry(cache));
            assert(self.owned() =~= old(self).owned());
            assert(self.wf(cache));
        }
    }

    /// Appends postings to the listing.  They must continue the listing's
    /// non-decreasing document-id order and stay below the sentinel.
    /// Whole blocks' worth of them are compressed and shipped to the
    /// cache right away; the tail stays buffered until the next call or
    /// the commit.
    #[verifier::rlimit(100)]
    pub fn add(&mut self, postings: &[Posting], cache: &mut RamPageCache)
        requires
            old(self).wf(old(cache)),
            old(cache).inv(),
            codable_from(
                last_or(old(self).history(), 0),
                postings@.map(|i: int, p: Posting| p.0.0),
            ),
            old(self).history().len() + postings@.len() <= u32::MAX,
            old(cache).counter_val() + old(self).buffered() + postings@.len() + 2 <= usize::MAX,
        ensures
            final(self).wf(final(cache)),
            final(cache).inv(),
            final(self).history() == old(self).history() + postings@.map(
                |i: int, p: Posting| p.0.0,
            ),
            final(self).buffered() < BLOCK_ITEMS,
            evolves_except(*old(cache), *final(cache), old(self).owned()),
            final(cache).counter_val() + 2 <= usize::MAX,
            16 * (final(cache).counter_val() - old(cache).counter_val()) <= old(self).buffered()
                + postings@.len() - final(self).buffered() + 16,
            forall|p: u64|
                final(self).owned().contains(p) ==> old(self).owned().contains(p) || p >= old(
                    cache,
                ).counter_val(),
    {
        let ghost hist0 = self.history@;
        let ghost vals = postings@.map(|i: int, p: Posting| p.0.0);
        if postings.len() > 0 {
            self.reopen_if_committed(cache);
        }
        let ghost resumed = *self;
        proof {
            assert(hist0 + vals.take(0) =~= hist0);
        }
        let mut k: usize = 0;
        while k < postings.len()
            invariant
                vals == postings@.map(|i: int, p: Posting| p.0.0),
                self.wf(cache),
                cache.inv(),
                *cache == *old(cache),
                k <= postings@.len(),
                postings@.len() > 0 ==> self.pages.1 is None,
                self.history@ == hist0 + vals.take(k as int),
                hist0.len() + postings@.len() <= u32::MAX,
                codable_from(last_or(hist0, 0), vals),
                self.buffered() == resumed.buffered() + k,
                self.owned() == old(self).owned(),
            decreases postings@.len() - k,
        {
            let p = postings[k];
            proof {
                assert(vals.len() == postings@.len());
                assert(vals[k as int] == p.0.0);
                assert(vals[k as int] < u32::MAX);
                assert(self.history@ =~= hist0 + vals.take(k as int));
                if k == 0 {
                    assert(last_or(self.history@, 0) == last_or(hist0, 0));
                    assert(last_or(hist0, 0) <= vals[0]);
                } else {
                    assert(self.history@.last() == vals[k - 1]);
                    assert(vals[k - 1] <= vals[k as int]);
                }
            }
            self.push_one(cache, p);
            proof {
                assert(self.history@ =~= hist0 + vals.take(k + 1));
            }
            k += 1;
        }
        proof {
            assert(vals.take(postings@.len() as int) =~= vals);
        }
        self.compress_and_ship(cache, false);
        proof {
            assert(evolves_except(*old(cache), *cache, old(self).owned()));
        }
    }

    /// A committed listing's partial last page is taken up again so new
    /// blocks continue where the published range ends.
    #[verifier::rlimit(100)]
    fn reopen_if_committed(&mut self, cache: &RamPageCache)
        requires
            old(self).wf(cache),
            cache.counter_val() + 2 <= usize::MAX,
        ensures
            final(self).wf(cache),
            final(self).pages.1 is None,
            final(self).history@ == old(self).history@,
            final(self).len == old(self).len,
            final(self).posting_buffer == old(self).posting_buffer,
            final(self).bias_list == old(self).bias_list,
            final(self).shipped_blocks(cache) == old(self).shipped_blocks(cache),
            final(self).owned() == old(self).owned(),
    {
        let u_opt = self.pages.1;
        match u_opt {
            None => {},
            Some(u) => {
                self.pages.0.push(u.0);
                self.pages.1 = None;
                self.next_block = u.2.0 - u.1.0;
                proof {
                    let full0 = old(self).pages.0@;
                    let m = u.2.0 - u.1.0;
                    assert(self.pages.0@ == full0.push(u.0));
                    if full0.len() > 0 {
                        lemma_sorted_index(full0, full0.len() - 1);
                        assert(full0.last().0 < u.0.0);
                    }
                    assert(self.pages.0@.len() <= u.0.0 + 1);
                    assert(self.pages.0@.len() < usize::MAX);
                    assert(self.num_blocks() == (PAGESIZE as int) * (self.pages.0@.len() - 1)
                        + m);
                    assert(self.geometry(cache));
                    assert forall|i: int| 0 <= i < self.num_blocks() implies #[trigger] self
                        .shipped_block(cache, i) == old(self).shipped_block(cache, i) by {
                        let pg = i / (PAGESIZE as int);
                        let off = i % (PAGESIZE as int);
                        assert((pg < full0.len() && i < (PAGESIZE as int) * full0.len()) || (pg
                            == full0.len() && i >= (PAGESIZE as int) * full0.len()))
                            by (nonlinear_arith)
                            requires
                                0 <= i < (PAGESIZE as int) * full0.len() + m,
                                0 < m < (PAGESIZE as int),
                                pg == i / (PAGESIZE as int),
                                off == i % (PAGESIZE as int),
                                0 <= off < (PAGESIZE as int),
                                i == pg * (PAGESIZE as int) + off,
                        ;
                        if pg < full0.len() {
                            assert(self.pages.0@[pg] == full0[pg]);
                        } else {
                            assert(self.pages.0@[pg].0 == u.0.0);
                        }
                    }
                    assert(self.shipped_blocks(cache) =~= old(self).shipped_blocks(cache));
                    assert forall|p: u64| self.owned().contains(p) == old(self).owned().contains(
                        p,
                    ) by {
                        if old(self).owned().contains(p) {
                            if p == u.0.0 {
                                assert(self.pages.0@[full0.len() as int].0 == p);
                            } else {
                                let i = choose|i: int|
                                    0 <= i < full0.len() && full0[i].0 == p;
                                assert(self.pages.0@[i].0 == p);
                            }
                        }
                        if self.owned().contains(p) {
                            let i = choose|i: int|
                                0 <= i < self.pages.0@.len() && self.pages.0@[i].0 == p;
                            if i < full0.len() {
                                assert(full0[i].0 == p);
                            } else {
                                assert(p == u.0.0);
                            }
                        }
                    }
                    assert(self.owned() =~= old(self).owned());
                    assert(self.wf(cache));
                }
            },
        }
    }

    /// Drains the buffer into one final block and makes every page of
    /// the listing readable: a partial last page is published through an
    /// unfull-page descriptor that records its block range.
    #[verifier::rlimit(100)]
    pub fn commit(&mut self, cache: &mut RamPageCache)
        requires
            old(self).wf(old(cache)),
            old(cache).inv(),
            old(self).history().len() > 0,
            old(cache).counter_val() + old(self).buffered() + 2 <= usize::MAX,
        ensures
            final(self).wf(final(cache)),
            final(cache).inv(),
            final(self).committed(),
            final(self).buffered() == 0,
            final(self).history() == old(self).history(),
            evolves_except(*old(cache), *final(cache), old(self).owned()),
            final(cache).counter_val() + 2 <= usize::MAX,
            16 * (final(cache).counter_val() - old(cache).counter_val()) <= old(self).buffered()
                + 16,
            forall|p: u64|
                final(self).owned().contains(p) ==> old(self).owned().contains(p) || p >= old(
                    cache,
                ).counter_val(),
    {
        let ghost c0 = *old(cache);
        let ghost owned0 = old(self).owned();
        self.compress_and_ship(cache, true);
        let ghost mid = *self;
        let ghost cmid = *cache;
        if self.next_block < PAGESIZE as u16 {
            self.publish_unfull(cache);
            proof {
                c0.lemma_inv_store_len();
                crate::page_manager::lemma_evolves_compose_grow(
                    c0,
                    cmid,
                    *cache,
                    owned0,
                    mid.owned(),
                );
            }
        }
    }

    /// Publishes the partial last page through `flush_unfull`, recording
    /// the returned block range as the listing's unfull tail.
    #[verifier::rlimit(100)]
    fn publish_unfull(&mut self, cache: &mut RamPageCache)
        requires
            old(self).wf(old(cache)),
            old(cache).inv(),
            old(self).buffered() == 0,
            old(self).next_block < PAGESIZE,
        ensures
            final(self).wf(final(cache)),
            final(cache).inv(),
            final(self).history@ == old(self).history@,
            final(self).len == old(self).len,
            final(self).buffered() == 0,
            final(self).next_block == PAGESIZE,
            evolves_except(*old(cache), *final(cache), old(self).owned()),
            final(cache).counter_val() == old(cache).counter_val(),
            final(self).owned() == old(self).owned(),
    {
        let ghost mid = *old(self);
        let ghost cmid = *old(cache);
        {
            let l = self.pages.0.len();
            let pid = self.pages.0[l - 1];
            let nb = self.next_block;
            let u = cache.flush_unfull(pid, BlockId(nb));
            self.pages.0.pop();
            self.pages.1 = Some(u);
            self.next_block = PAGESIZE as u16;
            proof {
                let full0 = mid.pages.0@;
                assert(self.pages.0@ =~= full0.take(full0.len() - 1));
                assert(u == UnfullPage(pid, BlockId(1), BlockId((nb + 1) as u16)));
                assert(self.num_blocks() == (PAGESIZE as int) * self.pages.0@.len() + nb);
                assert forall|i: int| 0 <= i < self.pages.0@.len() implies #[trigger] self
                    .pages
                    .0@[i].0 < u.0.0 by {
                    assert(self.pages.0@[i] == full0[i]);
                }
                assert(self.geometry(cache));
                assert forall|i: int| 0 <= i < self.num_blocks() implies #[trigger] self
                    .shipped_block(cache, i) == mid.shipped_block(&cmid, i) by {
                    let pg = i / (PAGESIZE as int);
                    let off = i % (PAGESIZE as int);
                    assert((pg < full0.len() - 1 && i < (PAGESIZE as int) * (full0.len() - 1))
                        || (pg == full0.len() - 1 && i >= (PAGESIZE as int) * (full0.len()
                        - 1))) by (nonlinear_arith)
                        requires
                            0 <= i < (PAGESIZE as int) * (full0.len() - 1) + nb,
                            0 < nb < (PAGESIZE as int),
                            full0.len() >= 1,
                            pg == i / (PAGESIZE as int),
                            off == i % (PAGESIZE as int),
                            0 <= off < (PAGESIZE as int),
                            i == pg * (PAGESIZE as int) + off,
                    ;
                    if pg < full0.len() - 1 {
                        assert(self.pages.0@[pg] == full0[pg]);
                        assert(full0[pg].0 < pid.0);
                        let q = full0[pg].0 as int;
                        assert(cache.store_view()[q] == cmid.store_view()[q]);
                    } else {
                        assert(self.shipped_block(cache, i) == cache.constr_at(pid.0).0@[off]);
                        assert(cache.constr_at(pid.0) == cmid.constr_at(pid.0));
                    }
                }
                assert(self.shipped_blocks(cache) =~= mid.shipped_blocks(&cmid));
                assert(self.wf(cache));
                assert(self.owned() =~= mid.owned()) by {
                    assert forall|p: u64| self.owned().contains(p) == mid.owned().contains(
                        p,
                    ) by {
                        if mid.owned().contains(p) {
                            let i = choose|i: int|
                                0 <= i < full0.len() && full0[i].0 == p;
                            if i < full0.len() - 1 {
                                assert(self.pages.0@[i].0 == p);
                            } else {
                                assert(p == u.0.0);
                            }
                        }
                        if self.owned().contains(p) {
                            if p == u.0.0 {
                                assert(full0[full0.len() - 1].0 == p);
                            } else {
                                let i = choose|i: int|
                                    0 <= i < self.pages.0@.len() && self.pages.0@[i].0 == p;
                                assert(full0[i].0 == p);
                            }
                        }
                    }
                }
            }
        }
    }

    /// Opens a decoder over the committed listing: it will stream back
    /// exactly the document ids that were added, in order.
    #[verifier::rlimit(100)]
    pub fn posting_decoder<'a>(&self, cache: &'a RamPageCache) -> (d: PostingDecoder<'a>)
        requires
            self.wf(cache),
            cache.inv(),
            self.committed(),
        ensures
            d.wf(),
            d.full_seq() == self.history(),
            d.position() == 0,
    {
        let pages = self.pages.duplicate();
        let mut biases: Vec<Posting> = Vec::new();
        let mut i: usize = 0;
        while i < self.bias_list.len()
            invariant
                i <= self.bias_list@.len(),
                biases@ == self.bias_list@.take(i as int),
            decreases self.bias_list@.len() - i,
        {
            biases.push(self.bias_list[i]);
            i += 1;
        }
        proof {
            assert(biases@ =~= self.bias_list@);
            assert(pages.block_count() == self.num_blocks());
        }
        let it = BlockIter::new(cache, pages);
        proof {
            assert forall|i2: int| 0 <= i2 < self.num_blocks() implies #[trigger] extent_block(
                cache,
                pages,
                i2,
            ) == self.shipped_block(cache, i2) by {
                let pg = i2 / (PAGESIZE as int);
                let off = i2 % (PAGESIZE as int);
                match self.pages.1 {
                    None => {
                        assert(pg < self.pages.0@.len());
                    },
                    Some(u) => {
                        let m = u.2.0 - u.1.0;
                        assert((pg < self.pages.0@.len() && i2 < (PAGESIZE as int) * (
                        self.pages.0@.len() as int)) || (pg == self.pages.0@.len() && i2 >= (
                        PAGESIZE as int) * (self.pages.0@.len() as int))) by (nonlinear_arith)
                            requires
                                0 <= i2 < (PAGESIZE as int) * (self.pages.0@.len() as int) + m,
                                0 < m < (PAGESIZE as int),
                                pg == i2 / (PAGESIZE as int),
                                off == i2 % (PAGESIZE as int),
                                0 <= off < (PAGESIZE as int),
                                i2 == pg * (PAGESIZE as int) + off,
                        ;
                        if pg == self.pages.0@.len() {
                            assert(off < m);
                            assert(cache.store_at(u.0.0).0@[off + 1] == cache.constr_at(
                                u.0.0,
                            ).0@[off]);
                        }
                    },
                }
            }
            assert(extent_blocks(cache, pages) =~= self.shipped_blocks(cache));
            assert(self.history@.take(self.shipped()) =~= self.history@);
            assert(biases@.map(|k: int, p: Posting| p.0.0) =~= self.bias_vals());
        }
        PostingDecoder::new(it, biases, self.len, Ghost(self.history@))
    }

    /// The position of the most recently shipped block within the current
    /// page, or the last position of a page when no block was shipped to
    /// an open page yet.
    pub fn last_block_id(&self) -> (b: BlockId)
        requires
            self.local_wf(),
        ensures
            b.0 == self.last_block_val(),
    {
        if self.next_block == PAGESIZE as u16 {
            match self.pages.1 {
                Some(u) => BlockId(u.2.0 - u.1.0 - 1),
                None => BlockId::last(),
            }
        } else {
            BlockId(self.next_block - 1)
        }
    }
}

/// The number of postings coded by the first `j` blocks of a chain that
/// starts from `base`.
pub open spec fn chain_off(blocks: Seq<Block>, base: u32, j: int) -> int
    decreases j when j >= 0
{
    if j <= 0 || blocks.len() == 0 {
        0
    } else {
        let d = decode_block(blocks[0], base);
        d.len() + chain_off(blocks.skip(1), last_or(d, base), j - 1)
    }
}

/// Skipping whole blocks of a coded chain lands at the chain offset: the
/// remaining blocks code the rest of the history, re-based on the last
/// skipped id, and the bias recorded for the next block names that id.
pub proof fn lemma_encode_skip(blocks: Seq<Block>, biases: Seq<u32>, h: Seq<u32>, base: u32, j: int)
    requires
        blocks_encode(blocks, biases, h, base),
        0 <= j <= blocks.len(),
    ensures
        j <= chain_off(blocks, base, j) <= h.len(),
        blocks_encode(
            blocks.skip(j),
            biases.skip(j),
            h.skip(chain_off(blocks, base, j)),
            last_or(h.take(chain_off(blocks, base, j)), base),
        ),
        j < blocks.len() ==> biases[j] == last_or(h.take(chain_off(blocks, base, j)), base),
    decreases j,
{
    reveal(blocks_encode);
    if j == 0 {
        assert(blocks.skip(0) =~= blocks);
        assert(biases.skip(0) =~= biases);
        assert(h.skip(0) =~= h);
        assert(h.take(0) =~= Seq::<u32>::empty());
    } else {
        let d = decode_block(blocks[0], base);
        let m0 = d.len() as int;
        assert(last_or(d, base) == d.last());
        lemma_encode_skip(blocks.skip(1), biases.skip(1), h.skip(m0), d.last(), j - 1);
        let m1 = chain_off(blocks.skip(1), d.last(), j - 1);
        let m = chain_off(blocks, base, j);
        assert(m == m0 + m1);
        assert(blocks.skip(1).skip(j - 1) =~= blocks.skip(j));
        assert(biases.skip(1).skip(j - 1) =~= biases.skip(j));
        assert(h.skip(m0).skip(m1) =~= h.skip(m));
        assert(last_or(h.take(m), base) == last_or(h.skip(m0).take(m1), d.last())) by {
            if m1 == 0 {
                assert(h.take(m) =~= h.take(m0));
                assert(h.take(m0) == d);
                assert(h.take(m).last() == d.last());
            } else {
                assert(h.skip(m0).take(m1).last() == h[m0 + m1 - 1]);
                assert(h.take(m).last() == h[m - 1]);
            }
        }
        if j < blocks.len() {
            assert(biases.skip(1)[j - 1] == biases[j as int]);
        }
    }
}

/// Along a coded chain of a codable history, the recorded biases never
/// decrease, and none falls below the chain's starting base.
#[verifier::rlimit(100)]
pub proof fn lemma_biases_sorted(blocks: Seq<Block>, biases: Seq<u32>, h: Seq<u32>, base: u32)
    requires
        blocks_encode(blocks, biases, h, base),
        codable_from(base, h),
    ensures
        forall|i: int| 0 <= i < biases.len() ==> base <= #[trigger] biases[i],
        forall|i: int, j: int| 0 <= i <= j < biases.len() ==> biases[i] <= biases[j],
    decreases blocks.len(),
{
    reveal(blocks_encode);
    if blocks.len() > 0 {
        let d = decode_block(blocks[0], base);
        let m0 = d.len() as int;
        assert(d == h.take(m0));
        assert(base <= d.last()) by {
            crate::compressor::lemma_codable_le(base, h, 0, m0 - 1);
            assert(d.last() == h[m0 - 1]);
        }
        crate::compressor::lemma_codable_prefix(base, h, m0);
        assert(last_or(h.take(m0), base) == d.last());
        lemma_biases_sorted(blocks.skip(1), biases.skip(1), h.skip(m0), d.last());
        assert forall|i: int| 0 <= i < biases.len() implies base <= #[trigger] biases[i] by {
            if i > 0 {
                assert(biases.skip(1)[i - 1] == biases[i]);
                assert(d.last() <= biases[i]);
            }
        }
        assert forall|i: int, j: int| 0 <= i <= j < biases.len() implies biases[i]
            <= biases[j] by {
            if i > 0 {
                assert(biases.skip(1)[i - 1] == biases[i]);
                assert(biases.skip(1)[j - 1] == biases[j]);
            } else if j > 0 {
                assert(biases.skip(1)[j - 1] == biases[j]);
                assert(d.last() <= biases[j]);
            }
        }
    }
}

/// Coherence with any cache includes the listing's own bookkeeping.
pub proof fn lemma_wf_local(l: Listing, c: RamPageCache)
    requires
        l.wf(&c),
    ensures
        l.local_wf(),
{
}

/// Every page a coherent listing owns was issued by the cache's counter.
pub proof fn lemma_owned_bounded(l: Listing, c: RamPageCache)
    requires
        l.wf(&c),
    ensures
        forall|p: u64| #[trigger] l.owned().contains(p) ==> p < c.counter_val(),
{
    assert forall|p: u64| #[trigger] l.owned().contains(p) implies p < c.counter_val() by {
        if exists|i: int| 0 <= i < l.pages.0@.len() && l.pages.0@[i].0 == p {
            let i = choose|i: int| 0 <= i < l.pages.0@.len() && l.pages.0@[i].0 == p;
            assert(l.pages.0@[i].0 < c.counter_val());
        } else {
            assert(l.pages.1.unwrap().0.0 == p);
        }
    }
}

/// A listing is untouched by cache traffic on behalf of other owners:
/// its coherence and its blocks survive any evolution whose exceptions
/// are disjoint from the pages it owns.
#[verifier::rlimit(100)]
pub proof fn lemma_wf_preserved(l: Listing, c1: RamPageCache, c2: RamPageCache, s: Set<u64>)
    requires
        l.wf(&c1),
        evolves_except(c1, c2, s),
        l.owned().disjoint(s),
    ensures
        l.wf(&c2),
        l.shipped_blocks(&c2) == l.shipped_blocks(&c1),
{
    let full = l.pages.0@;
    assert forall|i: int| 0 <= i < full.len() implies #[trigger] full[i].0
        < c2.counter_val() by {
        assert(full[i].0 < c1.counter_val());
    }
    assert forall|i: int| 0 <= i < full.len() implies !s.contains(#[trigger] full[i].0) by {
        assert(l.owned().contains(full[i].0));
    }
    assert forall|i: int|
        0 <= i < full.len() && full[i].0 < c1.store_len() implies #[trigger] c2.store_view()[
        full[i].0 as int] == c1.store_view()[full[i].0 as int] by {
        assert(!s.contains(full[i].0));
    }
    match l.pages.1 {
        None => {
            if l.next_block < PAGESIZE {
                let lp = full.last();
                assert(l.owned().contains(lp.0));
                assert(!s.contains(lp.0));
                assert(c2.constr_has(lp.0) == c1.constr_has(lp.0));
                assert(c2.constr_at(lp.0) == c1.constr_at(lp.0));
            }
        },
        Some(u) => {
            assert(l.owned().contains(u.0.0));
            assert(!s.contains(u.0.0));
            assert(c2.constr_has(u.0.0) == c1.constr_has(u.0.0));
            assert(c2.constr_at(u.0.0) == c1.constr_at(u.0.0));
            assert(c2.store_view()[u.0.0 as int] == c1.store_view()[u.0.0 as int]);
            assert forall|off: int| 0 <= off < u.2.0 - u.1.0 implies #[trigger] c2.store_at(
                u.0.0,
            ).0@[off + 1] == c2.constr_at(u.0.0).0@[off] by {
                assert(c1.store_at(u.0.0).0@[off + 1] == c1.constr_at(u.0.0).0@[off]);
            }
        },
    }
    assert(l.geometry(&c2));
    assert forall|i: int| 0 <= i < l.num_blocks() implies #[trigger] l.shipped_block(&c2, i)
        == l.shipped_block(&c1, i) by {
        let pg = i / (PAGESIZE as int);
        if 0 <= pg < full.len() {
            assert(!s.contains(full[pg].0));
            if !(l.pages.1 is None && l.next_block < PAGESIZE && pg == full.len() - 1) {
                assert(full[pg].0 < c1.store_len());
            } else {
                assert(c2.constr_at(full[pg].0) == c1.constr_at(full[pg].0));
            }
        }
    }
    assert(l.shipped_blocks(&c2) =~= l.shipped_blocks(&c1));
    assert(l.wf(&c2));
}

} // verus!
