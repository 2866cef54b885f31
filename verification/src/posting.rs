use vstd::prelude::*;

use crate::block_iter::{extent_blocks, BlockIter};
use crate::page::Block;
use crate::compressor::{codable_from, decode_block, last_or, NaiveCompressor, BLOCK_ITEMS};
use crate::listing::blocks_encode;
use crate::ring_buffer::BiasedRingBuffer;
use crate::utils::{Baseable, SeekingIterator};

verus! {

/// The identifier of a document.  Ids issued by one index are strictly
/// monotonically increasing; the maximum representable value is the
/// sentinel "no document yet".
#[derive(Debug, PartialEq, Eq, Structural, PartialOrd, Ord, Hash, Copy, Clone)]
pub struct DocId(pub u32);

/// One occurrence of a term in a document.  Currently a plain wrapper
/// around the document id; it is delta-codable via an additive base.
#[derive(Debug, PartialEq, Eq, Structural, PartialOrd, Ord, Hash, Copy, Clone)]
pub struct Posting(pub DocId);

impl DocId {
    /// The sentinel id meaning "no document yet".
    pub fn none() -> (d: DocId)
        ensures
            d.0 == u32::MAX,
    {
        DocId(u32::MAX)
    }

    /// Advances to the next id; the sentinel wraps around to zero.
    pub fn inc(&mut self)
        ensures
            final(self).0 == if old(self).0 == u32::MAX {
                0u32
            } else {
                (old(self).0 + 1) as u32
            },
    {
        if self.0 == u32::MAX {
            self.0 = 0;
        } else {
            self.0 = self.0 + 1;
        }
    }
}

impl Baseable for DocId {
    open spec fn base_val(&self) -> int {
        self.0 as int
    }

    fn add_base(&mut self, other: &Self) {
        self.0 = self.0 + other.0;
    }

    fn sub_base(&mut self, other: &Self) {
        self.0 = self.0 - other.0;
    }
}

impl Posting {
    /// The posting of the sentinel document id.
    pub fn none() -> (p: Posting)
        ensures
            p.0.0 == u32::MAX,
    {
        Posting(DocId(u32::MAX))
    }

    pub fn doc_id(&self) -> (d: DocId)
        ensures
            d == self.0,
    {
        self.0
    }
}

impl Default for Posting {
    fn default() -> (p: Self)
        ensures
            p.0.0 == 0,
    {
        Posting(DocId(0))
    }
}

impl Baseable for Posting {
    open spec fn base_val(&self) -> int {
        self.0.0 as int
    }

    fn add_base(&mut self, other: &Self) {
        self.0.add_base(&other.0);
    }

    fn sub_base(&mut self, other: &Self) {
        self.0.sub_base(&other.0);
    }
}

/// The position of the first element of `s` at or past `from` that is at
/// least `t`; the length of `s` when no such element exists.
pub open spec fn seek_index(s: Seq<u32>, from: int, t: u32) -> int
    decreases s.len() - from when from <= s.len()
{
    if from < 0 || from >= s.len() {
        s.len() as int
    } else if s[from] >= t {
        from
    } else {
        seek_index(s, from + 1, t)
    }
}

/// What `seek_index` finds: nothing before it qualifies, and it qualifies
/// itself when it lies inside the sequence.
pub proof fn lemma_seek_index(s: Seq<u32>, from: int, t: u32)
    requires
        0 <= from <= s.len(),
    ensures
        from <= seek_index(s, from, t) <= s.len(),
        forall|m: int| from <= m < seek_index(s, from, t) ==> s[m] < t,
        seek_index(s, from, t) < s.len() ==> s[seek_index(s, from, t)] >= t,
    decreases s.len() - from,
{
    if from < s.len() && s[from] < t {
        lemma_seek_index(s, from + 1, t);
    }
}

/// A qualifying element at `j` with nothing qualifying before it pins
/// `seek_index` down.
pub proof fn lemma_seek_index_exact(s: Seq<u32>, from: int, t: u32, j: int)
    requires
        0 <= from <= j <= s.len(),
        forall|m: int| from <= m < j ==> s[m] < t,
        j < s.len() ==> s[j] >= t,
    ensures
        seek_index(s, from, t) == if j < s.len() {
            j
        } else {
            s.len() as int
        },
    decreases j - from,
{
    if from < j {
        assert(s[from] < t);
        lemma_seek_index_exact(s, from + 1, t, j);
    }
}

/// Nothing qualifying lies between two positions, so seeking from either
/// finds the same element.
pub proof fn lemma_seek_skip(s: Seq<u32>, a: int, b: int, t: u32)
    requires
        0 <= a <= b <= s.len(),
        forall|m: int| a <= m < b ==> s[m] < t,
    ensures
        seek_index(s, a, t) == seek_index(s, b, t),
    decreases b - a,
{
    if a < b {
        assert(s[a] < t);
        lemma_seek_skip(s, a + 1, b, t);
    }
}

/// Bias values along a chain, read at absolute positions from `k` on,
/// never decrease.
#[verifier::rlimit(100)]
proof fn lemma_vals_sorted_abs(vals: Seq<u32>, k: int, blocks: Seq<Block>, h: Seq<u32>, base: u32)
    requires
        0 <= k <= vals.len(),
        blocks_encode(blocks, vals.skip(k), h, base),
        codable_from(base, h),
    ensures
        forall|i: int, j: int|
            k <= i <= j < vals.len() ==> #[trigger] vals[i] <= #[trigger] vals[j],
{
    crate::listing::lemma_biases_sorted(blocks, vals.skip(k), h, base);
    assert forall|i: int, j: int|
        k <= i <= j < vals.len() implies #[trigger] vals[i] <= #[trigger] vals[j] by {
        assert(vals.skip(k)[i - k] == vals[i]);
        assert(vals.skip(k)[j - k] == vals[j]);
    }
}

/// Skipping `j` whole blocks of a chain that codes the history from
/// `done` on lands at the chain offset: everything skipped stays below
/// the bias of the block landed on, and the remaining blocks still code
/// the rest.
#[verifier::rlimit(100)]
proof fn lemma_skip_chain(
    blocks: Seq<Block>,
    biases: Seq<u32>,
    hist: Seq<u32>,
    done: int,
    j: int,
    t: u32,
)
    requires
        0 <= done <= hist.len(),
        codable_from(0, hist),
        blocks_encode(blocks, biases, hist.skip(done), last_or(hist.take(done), 0)),
        1 <= j < blocks.len(),
        biases[j] < t,
    ensures
        ({
            let m = crate::listing::chain_off(blocks, last_or(hist.take(done), 0), j);
            &&& 1 <= m <= hist.len() - done
            &&& blocks_encode(
                blocks.skip(j),
                biases.skip(j),
                hist.skip(done + m),
                last_or(hist.take(done + m), 0),
            )
            &&& forall|q: int| done <= q < done + m ==> #[trigger] hist[q] < t
        }),
{
    let base0 = last_or(hist.take(done), 0);
    let h = hist.skip(done);
    crate::listing::lemma_encode_skip(blocks, biases, h, base0, j);
    let m = crate::listing::chain_off(blocks, base0, j);
    assert(h.skip(m) =~= hist.skip(done + m));
    assert(h.take(m).last() == hist[done + m - 1]);
    assert(last_or(h.take(m), base0) == hist[done + m - 1]);
    assert(hist.take(done + m).last() == hist[done + m - 1]);
    assert(last_or(hist.take(done + m), 0) == hist[done + m - 1]);
    assert(biases[j] == hist[done + m - 1]);
    assert forall|q: int| done <= q < done + m implies #[trigger] hist[q] < t by {
        crate::compressor::lemma_codable_le(0, hist, q, done + m - 1);
    }
}

/// Wraps the decoder in an enum, so that a query for an unknown term can
/// hand back an iterator over nothing.
pub enum PostingIterator<'a> {
    Empty,
    Decoder(PostingDecoder<'a>),
}

/// Streams postings out of a listing's blocks: linear iteration plus
/// seeking, decompressing one block at a time into a ring buffer.
pub struct PostingDecoder<'a> {
    posting_buffer: BiasedRingBuffer,
    bias_list: Vec<Posting>,
    bias_pos: usize,
    blocks: BlockIter<'a>,
    len: u32,
    hist: Ghost<Seq<u32>>,
    idx: Ghost<int>,
}

impl<'a> PostingDecoder<'a> {
    /// The whole document-id sequence the decoder walks.
    pub closed spec fn full_seq(&self) -> Seq<u32> {
        self.hist@
    }

    /// How many postings have been yielded or skipped already.
    pub closed spec fn position(&self) -> int {
        self.idx@
    }

    /// The postings not yet yielded.
    pub open spec fn remaining(&self) -> Seq<u32> {
        self.full_seq().skip(self.position())
    }

    /// The bias recorded for each block.
    closed spec fn bias_vals(&self) -> Seq<u32> {
        self.bias_list@.map(|k: int, p: Posting| p.0.0)
    }

    /// Decoder coherence: the buffer holds the next slice of the
    /// sequence, and the blocks not yet decompressed code exactly the
    /// rest, each against its recorded bias.
    pub closed spec fn wf(&self) -> bool {
        let hist = self.hist@;
        let done = self.idx@ + self.posting_buffer@.len();
        &&& self.blocks.wf()
        &&& codable_from(0, hist)
        &&& self.len == hist.len()
        &&& hist.len() <= u32::MAX
        &&& 0 <= self.idx@
        &&& done <= hist.len()
        &&& self.bias_pos <= self.bias_list@.len()
        &&& self.blocks.pages_of().block_count() == self.bias_list@.len()
        &&& self.blocks.pos() == self.bias_pos
        &&& self.posting_buffer@ == hist.subrange(self.idx@, done)
        &&& blocks_encode(
            extent_blocks(self.blocks.cache_of(), self.blocks.pages_of()).skip(
                self.bias_pos as int,
            ),
            self.bias_list@.map(|i: int, p: Posting| p.0.0).skip(self.bias_pos as int),
            hist.skip(done),
            last_or(hist.take(done), 0),
        )
    }

    pub fn new(
        blocks: BlockIter<'a>,
        bias_list: Vec<Posting>,
        len: u32,
        hist: Ghost<Seq<u32>>,
    ) -> (d: PostingDecoder<'a>)
        requires
            blocks.wf(),
            blocks.pos() == 0,
            codable_from(0, hist@),
            len == hist@.len(),
            hist@.len() <= u32::MAX,
            blocks.pages_of().block_count() == bias_list@.len(),
            blocks_encode(
                extent_blocks(blocks.cache_of(), blocks.pages_of()),
                bias_list@.map(|i: int, p: Posting| p.0.0),
                hist@,
                0,
            ),
        ensures
            d.wf(),
            d.full_seq() == hist@,
            d.position() == 0,
    {
        let d = PostingDecoder {
            posting_buffer: BiasedRingBuffer::new(),
            bias_list,
            bias_pos: 0,
            blocks,
            len,
            hist,
            idx: Ghost(0),
        };
        proof {
            assert(d.posting_buffer@ =~= hist@.subrange(0, 0));
            assert(hist@.skip(0) =~= hist@);
            assert(hist@.take(0) =~= Seq::<u32>::empty());
            assert(extent_blocks(d.blocks.cache_of(), d.blocks.pages_of()).skip(0)
                =~= extent_blocks(d.blocks.cache_of(), d.blocks.pages_of()));
            assert(d.bias_list@.map(|i: int, p: Posting| p.0.0).skip(0) =~= d.bias_list@.map(
                |i: int, p: Posting| p.0.0,
            ));
        }
        d
    }

    /// The exact number of postings the decoder yields in total.
    pub fn len(&self) -> (n: usize)
        requires
            self.wf(),
        ensures
            n == self.full_seq().len(),
    {
        self.len as usize
    }

    /// The exact remaining size bounds, as an iterator would report them.
    pub fn size_hint(&self) -> (r: (usize, Option<usize>))
        requires
            self.wf(),
        ensures
            r.0 == self.full_seq().len(),
            r.1 == Some(self.full_seq().len() as usize),
    {
        (self.len as usize, Some(self.len as usize))
    }

    /// Refills the ring buffer from the next block, if any posting
    /// remains to be decoded.
    #[verifier::rlimit(100)]
    fn refill(&mut self)
        requires
            old(self).wf(),
            old(self).posting_buffer@.len() == 0,
        ensures
            final(self).wf(),
            final(self).full_seq() == old(self).full_seq(),
            final(self).position() == old(self).position(),
            final(self).position() < final(self).full_seq().len()
                ==> final(self).posting_buffer@.len() > 0,
    {
        let ghost hist = self.hist@;
        let ghost k = self.bias_pos as int;
        let ghost blocks0 = extent_blocks(self.blocks.cache_of(), self.blocks.pages_of());
        let ghost biases0 = self.bias_list@.map(|i: int, p: Posting| p.0.0);
        let r = self.blocks.next();
        match r {
            Some(block) => {
                proof {
                    reveal(crate::listing::blocks_encode);
                    assert(blocks0.skip(k).len() > 0);
                    assert(block == blocks0.skip(k)[0]);
                    assert(self.bias_pos < self.bias_list@.len());
                }
                let bias = self.bias_list[self.bias_pos];
                let n = self.bias_list.len();
                proof {
                    assert(self.bias_pos < n);
                }
                self.bias_pos = self.bias_pos + 1;
                self.posting_buffer.set_base(bias);
                proof {
                    assert(biases0.skip(k)[0] == biases0[k]);
                    assert(biases0[k] == bias.0.0);
                }
                let ghost d = decode_block(block, bias.0.0);
                NaiveCompressor::decompress(block, &mut self.posting_buffer);
                proof {
                    let done0 = self.idx@;
                    assert(d.len() >= 1);
                    assert(d == hist.skip(done0).take(d.len() as int));
                    assert(self.posting_buffer@ =~= d);
                    assert(hist.skip(done0).take(d.len() as int) =~= hist.subrange(
                        done0,
                        done0 + d.len(),
                    ));
                    assert(blocks0.skip(k).skip(1) =~= blocks0.skip(k + 1));
                    assert(biases0.skip(k).skip(1) =~= biases0.skip(k + 1));
                    assert(hist.skip(done0).skip(d.len() as int) =~= hist.skip(
                        done0 + d.len(),
                    ));
                    assert(d.last() == hist[done0 + d.len() - 1]);
                    assert(hist.take(done0 + d.len()).len() > 0);
                    assert(hist.take(done0 + d.len()).last() == hist[done0 + d.len() - 1]);
                    assert(last_or(hist.take(done0 + d.len()), 0) == d.last());
                    assert(self.wf());
                }
            },
            None => {
                proof {
                    reveal(crate::listing::blocks_encode);
                    assert(self.blocks.pos() >= blocks0.len());
                    assert(k == blocks0.len());
                    assert(blocks0.skip(k).len() == 0);
                    assert(hist.skip(self.idx@).len() == 0);
                }
            },
        }
    }

    /// Yields the next posting in document order, or nothing once the
    /// listing is exhausted.
    pub fn next(&mut self) -> (r: Option<Posting>)
        requires
            old(self).wf(),
        ensures
            final(self).wf(),
            final(self).full_seq() == old(self).full_seq(),
            old(self).position() < old(self).full_seq().len() ==> r == Some(
                Posting(DocId(old(self).full_seq()[old(self).position()])),
            ) && final(self).position() == old(self).position() + 1,
            old(self).position() >= old(self).full_seq().len() ==> r is None
                && final(self).position() == old(self).position(),
    {
        if self.posting_buffer.is_empty() {
            self.refill();
        }
        let r = self.posting_buffer.pop_front();
        proof {
            let hist = self.hist@;
            if self.posting_buffer@.len() + 1 <= hist.len() - self.idx@ && r is Some {
                assert(hist.subrange(self.idx@, self.idx@ + self.posting_buffer@.len() + 1)[0]
                    == hist[self.idx@]);
            }
        }
        match r {
            Some(p) => {
                proof {
                    let hist = self.hist@;
                    let done = self.idx@ + self.posting_buffer@.len() + 1;
                    assert(self.posting_buffer@ =~= hist.subrange(self.idx@ + 1, done));
                    self.idx@ = self.idx@ + 1;
                }
                Some(p)
            },
            None => {
                None
            },
        }
    }
}

impl<'a> PostingDecoder<'a> {
    /// Finds the leftmost not-yet-consumed bias at or above `t` by binary
    /// search; biases never decrease along the chain.
    #[verifier::rlimit(100)]
    fn bias_search(&self, t: u32) -> (bi: usize)
        requires
            self.wf(),
        ensures
            self.bias_pos <= bi <= self.bias_list@.len(),
            forall|i: int| self.bias_pos <= i < bi ==> #[trigger] self.bias_vals()[i] < t,
            bi < self.bias_list@.len() ==> self.bias_vals()[bi as int] >= t,
    {
        let ghost vals = self.bias_vals();
        proof {
            let hist = self.hist@;
            let done = self.idx@ + self.posting_buffer@.len();
            crate::compressor::lemma_codable_prefix(0, hist, done);
            lemma_vals_sorted_abs(
                vals,
                self.bias_pos as int,
                extent_blocks(self.blocks.cache_of(), self.blocks.pages_of()).skip(
                    self.bias_pos as int,
                ),
                hist.skip(done),
                last_or(hist.take(done), 0),
            );
        }
        let mut lo = self.bias_pos;
        let mut hi = self.bias_list.len();
        while lo < hi
            invariant
                vals == self.bias_vals(),
                self.bias_pos <= lo <= hi <= self.bias_list@.len(),
                vals.len() == self.bias_list@.len(),
                forall|i: int, j: int|
                    self.bias_pos <= i <= j < vals.len() ==> #[trigger] vals[i] <= #[trigger] vals[
                    j],
                forall|i: int| self.bias_pos <= i < lo ==> #[trigger] vals[i] < t,
                forall|i: int| hi <= i < vals.len() ==> #[trigger] vals[i] >= t,
            decreases hi - lo,
        {
            let mid = lo + (hi - lo) / 2;
            if self.bias_list[mid].0.0 < t {
                proof {
                    assert forall|i: int| self.bias_pos <= i < mid + 1 implies #[trigger] vals[i]
                        < t by {
                        assert(vals[i] <= vals[mid as int]);
                    }
                }
                lo = mid + 1;
            } else {
                proof {
                    assert forall|i: int| mid <= i < vals.len() implies #[trigger] vals[i]
                        >= t by {
                        assert(vals[mid as int] <= vals[i]);
                    }
                }
                hi = mid;
            }
        }
        lo
    }

    /// Yields the first remaining posting whose document id is at least
    /// the given one, skipping whole blocks whose biases show they end
    /// before the target; nothing when no remaining posting qualifies.
    #[verifier::rlimit(100)]
    pub fn next_seek(&mut self, other: &Posting) -> (r: Option<Posting>)
        requires
            old(self).wf(),
        ensures
            final(self).wf(),
            final(self).full_seq() == old(self).full_seq(),
            ({
                let j = seek_index(old(self).full_seq(), old(self).position(), other.0.0);
                &&& j < old(self).full_seq().len() ==> r == Some(
                    Posting(DocId(old(self).full_seq()[j])),
                ) && final(self).position() == j + 1
                &&& j >= old(self).full_seq().len() ==> r is None && final(self).position()
                    == old(self).full_seq().len()
            }),
    {
        let t = other.0.0;
        let ghost hist = self.hist@;
        let ghost idx0 = self.idx@;
        let ghost vals = self.bias_vals();
        let bi = self.bias_search(t);
        let index = bi - self.bias_pos;
        if index > 0 {
            let ghost k = self.bias_pos as int;
            let ghost done = self.idx@ + self.posting_buffer@.len();
            let ghost base0 = last_or(hist.take(done), 0);
            proof {
                // the first remaining bias precedes the target, and it is
                // the last id before the undecoded blocks, so everything
                // buffered precedes the target too
                reveal(crate::listing::blocks_encode);
                assert(k < self.bias_list@.len());
                assert(vals[k] == base0);
                assert(vals[k] < t);
                assert forall|m: int| idx0 <= m < done implies #[trigger] hist[m] < t by {
                    crate::compressor::lemma_codable_le(0, hist, m, done - 1);
                    assert(hist.take(done).last() == hist[done - 1]);
                }
            }
            self.posting_buffer.flush();
            proof {
                self.idx@ = done;
                assert(self.posting_buffer@ =~= hist.subrange(done, done));
            }
            if index > 1 {
                let ghost blocks0 = extent_blocks(
                    self.blocks.cache_of(),
                    self.blocks.pages_of(),
                );
                let ghost m = crate::listing::chain_off(blocks0.skip(k), base0, index - 1);
                proof {
                    assert(vals.skip(k)[index - 1] == vals[k + index - 1]);
                    assert(vals[k + index - 1] < t);
                    lemma_skip_chain(
                        blocks0.skip(k),
                        vals.skip(k),
                        hist,
                        done,
                        index - 1,
                        t,
                    );
                    assert(blocks0.skip(k).skip(index - 1) =~= blocks0.skip(k + index - 1));
                    assert(vals.skip(k).skip(index - 1) =~= vals.skip(k + index - 1));
                }
                self.blocks.skip_blocks(index - 1);
                self.bias_pos = self.bias_pos + (index - 1);
                proof {
                    self.idx@ = done + m;
                    assert(self.posting_buffer@ =~= hist.subrange(done + m, done + m));
                    assert(self.wf());
                }
            }
        }
        let ghost mid_idx = self.idx@;
        let r = self.seek_scan(t);
        proof {
            lemma_seek_skip(hist, idx0, mid_idx, t);
        }
        r
    }

    /// Scans forward linearly until a posting reaches the target.
    #[verifier::rlimit(100)]
    fn seek_scan(&mut self, t: u32) -> (r: Option<Posting>)
        requires
            old(self).wf(),
        ensures
            final(self).wf(),
            final(self).full_seq() == old(self).full_seq(),
            ({
                let j = seek_index(old(self).full_seq(), old(self).position(), t);
                &&& j < old(self).full_seq().len() ==> r == Some(
                    Posting(DocId(old(self).full_seq()[j])),
                ) && final(self).position() == j + 1
                &&& j >= old(self).full_seq().len() ==> r is None && final(self).position()
                    == old(self).full_seq().len()
            }),
    {
        let ghost hist = self.hist@;
        let ghost idx0 = self.idx@;
        loop
            invariant
                self.wf(),
                hist == old(self).hist@,
                idx0 == old(self).idx@,
                self.hist@ == hist,
                0 <= idx0 <= self.idx@,
                self.idx@ <= hist.len(),
                forall|m: int| idx0 <= m < self.idx@ ==> #[trigger] hist[m] < t,
            decreases hist.len() - self.idx@,
        {
            let ghost before = self.idx@;
            let r = self.next();
            match r {
                Some(v) => {
                    if v.0.0 >= t {
                        proof {
                            lemma_seek_index_exact(hist, idx0, t, before);
                        }
                        return Some(v);
                    }
                },
                None => {
                    proof {
                        lemma_seek_index_exact(hist, idx0, t, hist.len() as int);
                    }
                    return None;
                },
            }
        }
    }
}

impl<'a> SeekingIterator for PostingDecoder<'a> {
    type Item = Posting;

    open spec fn seek_wf(&self) -> bool {
        self.wf()
    }

    fn next_seek(&mut self, other: &Posting) -> Option<Posting> {
        PostingDecoder::next_seek(self, other)
    }
}

impl<'a> PostingIterator<'a> {
    /// Sound in either form: an empty iterator, or a coherent decoder.
    pub closed spec fn wf(&self) -> bool {
        match self {
            PostingIterator::Empty => true,
            PostingIterator::Decoder(d) => d.wf(),
        }
    }

    /// The whole document-id sequence behind the iterator.
    pub closed spec fn full_seq(&self) -> Seq<u32> {
        match self {
            PostingIterator::Empty => Seq::empty(),
            PostingIterator::Decoder(d) => d.full_seq(),
        }
    }

    /// How many postings were yielded or skipped already.
    pub closed spec fn position(&self) -> int {
        match self {
            PostingIterator::Empty => 0,
            PostingIterator::Decoder(d) => d.position(),
        }
    }

    /// The postings not yet yielded.
    pub open spec fn remaining(&self) -> Seq<u32> {
        self.full_seq().skip(self.position())
    }

    /// An iterator over nothing.
    pub fn empty_iter() -> (r: PostingIterator<'a>)
        ensures
            r.wf(),
            r.full_seq() == Seq::<u32>::empty(),
            r.position() == 0,
    {
        PostingIterator::Empty
    }

    /// An iterator over a whole decoder.
    pub fn from_decoder(d: PostingDecoder<'a>) -> (r: PostingIterator<'a>)
        requires
            d.wf(),
        ensures
            r.wf(),
            r.full_seq() == d.full_seq(),
            r.position() == d.position(),
    {
        PostingIterator::Decoder(d)
    }

    /// Yields the next posting, or nothing for an empty iterator or an
    /// exhausted decoder.
    pub fn next(&mut self) -> (r: Option<Posting>)
        requires
            old(self).wf(),
        ensures
            final(self).wf(),
            final(self).full_seq() == old(self).full_seq(),
            old(self).position() < old(self).full_seq().len() ==> r == Some(
                Posting(DocId(old(self).full_seq()[old(self).position()])),
            ) && final(self).position() == old(self).position() + 1,
            old(self).position() >= old(self).full_seq().len() ==> r is None
                && final(self).position() == old(self).position(),
    {
        match self {
            PostingIterator::Empty => None,
            PostingIterator::Decoder(decoder) => decoder.next(),
        }
    }

    /// The exact size bounds, as an iterator would report them.
    pub fn size_hint(&self) -> (r: (usize, Option<usize>))
        requires
            self.wf(),
        ensures
            r.0 == self.full_seq().len(),
            r.1 == Some(r.0),
    {
        match self {
            PostingIterator::Empty => (0, Some(0)),
            PostingIterator::Decoder(decoder) => decoder.size_hint(),
        }
    }

    /// Drains the iterator into a vector of the remaining postings.
    pub fn collect_vec(self) -> (r: Vec<Posting>)
        requires
            self.wf(),
        ensures
            r@.map(|i: int, p: Posting| p.0.0) == self.remaining(),
    {
        let mut it = self;
        let ghost full = it.full_seq();
        let ghost start = it.position();
        let mut r: Vec<Posting> = Vec::new();
        loop
            invariant
                it.wf(),
                it.full_seq() == full,
                start <= it.position() <= full.len(),
                0 <= start,
                r@.len() == it.position() - start,
                forall|q: int| 0 <= q < r@.len() ==> #[trigger] r@[q].0.0 == full[start + q],
            ensures
                it.position() == full.len(),
                r@.len() == full.len() - start,
                forall|q: int| 0 <= q < r@.len() ==> #[trigger] r@[q].0.0 == full[start + q],
            decreases full.len() - it.position(),
        {
            let ghost pos0 = it.position();
            match it.next() {
                Some(p) => {
                    r.push(p);
                    proof {
                        assert(p.0.0 == full[pos0]);
                    }
                },
                None => {
                    break;
                },
            }
        }
        proof {
            assert(r@.map(|i: int, p: Posting| p.0.0) =~= full.skip(start));
        }
        r
    }
}

/// Seeking twice with rising targets is the same as seeking once: when a
/// seek yields an id below the next target, the follow-up seek lands
/// exactly where a fresh scan for that target from the starting position
/// would land.  Successive seeks thus filter the stream as a linear
/// iteration would.
pub proof fn lemma_seek_successive(s: Seq<u32>, from: int, t1: u32, t2: u32)
    requires
        0 <= from <= s.len(),
        seek_index(s, from, t1) < s.len(),
        s[seek_index(s, from, t1)] < t2,
    ensures
        seek_index(s, seek_index(s, from, t1) + 1, t2) == seek_index(s, from, t2),
{
    let j1 = seek_index(s, from, t1);
    lemma_seek_index(s, from, t1);
    assert forall|m: int| from <= m < j1 + 1 implies s[m] < t2 by {
        if m < j1 {
            assert(s[m] < t1);
            assert(t1 <= s[j1]);
        }
    }
    lemma_seek_skip(s, from, j1 + 1, t2);
}

/// Seeking past the end leaves nothing: an empty seek leaves the stream
/// at its end, and from there every further step or seek stays empty,
/// whatever its target.
pub proof fn lemma_seek_exhausted(s: Seq<u32>, t: u32)
    ensures
        seek_index(s, s.len() as int, t) == s.len(),
{
    lemma_seek_index(s, s.len() as int, t);
}

/// Every element of `a` that `b` holds is counted; with `b` covering all
/// of `a` the count is `a`'s full length.
pub proof fn lemma_inter_all(a: Seq<u32>, b: Seq<u32>)
    requires
        forall|m: int| 0 <= m < a.len() ==> b.contains(#[trigger] a[m]),
    ensures
        inter_count(a, b) == a.len(),
    decreases a.len(),
{
    if a.len() > 0 {
        assert(b.contains(a[0]));
        assert forall|m: int| 0 <= m < a.skip(1).len() implies b.contains(
            #[trigger] a.skip(1)[m],
        ) by {
            assert(a.skip(1)[m] == a[m + 1]);
        }
        lemma_inter_all(a.skip(1), b);
    }
}

/// A stream shares every posting with itself: the intersection of equal
/// listings has exactly their common length.
pub proof fn lemma_self_intersection(s: Seq<u32>)
    ensures
        inter_count(s, s) == s.len(),
{
    assert forall|m: int| 0 <= m < s.len() implies s.contains(#[trigger] s[m]) by {}
    lemma_inter_all(s, s);
}

/// Size below which an intersection is counted exactly rather than
/// estimated from a sample.
pub const SAMPLING_THRESHOLD: usize = 200;

/// How many of `a`'s elements occur in `b`; for strictly increasing
/// sequences this is the size of their intersection as sets.
pub open spec fn inter_count(a: Seq<u32>, b: Seq<u32>) -> int
    decreases a.len(),
{
    if a.len() == 0 {
        0
    } else {
        (if b.contains(a[0]) {
            1int
        } else {
            0int
        }) + inter_count(a.skip(1), b)
    }
}

/// Appending an element adds its membership to the count.
pub proof fn lemma_inter_push(s: Seq<u32>, b: Seq<u32>, x: u32)
    ensures
        inter_count(s.push(x), b) == inter_count(s, b) + (if b.contains(x) {
            1int
        } else {
            0int
        }),
    decreases s.len(),
{
    if s.len() == 0 {
        assert(s.push(x)[0] == x);
        assert(s.push(x).skip(1) =~= Seq::<u32>::empty());
        assert(inter_count(Seq::<u32>::empty(), b) == 0);
        assert(inter_count(s.push(x), b) == (if b.contains(x) {
            1int
        } else {
            0int
        }) + inter_count(s.push(x).skip(1), b));
    } else {
        assert(s.push(x).skip(1) =~= s.skip(1).push(x));
        lemma_inter_push(s.skip(1), b, x);
        assert(s.push(x)[0] == s[0]);
        assert(inter_count(s.push(x), b) == (if b.contains(s[0]) {
            1int
        } else {
            0int
        }) + inter_count(s.skip(1).push(x), b));
        assert(inter_count(s, b) == (if b.contains(s[0]) {
            1int
        } else {
            0int
        }) + inter_count(s.skip(1), b));
    }
}

/// The count never exceeds the number of elements counted over.
pub proof fn lemma_inter_le(a: Seq<u32>, b: Seq<u32>)
    ensures
        0 <= inter_count(a, b) <= a.len(),
    decreases a.len(),
{
    if a.len() > 0 {
        lemma_inter_le(a.skip(1), b);
    }
}

/// Elements absent from `b` leave the count unchanged.
proof fn lemma_inter_range_none(a: Seq<u32>, b: Seq<u32>, from: int, to: int)
    requires
        0 <= from <= to <= a.len(),
        forall|m: int| from <= m < to ==> !b.contains(#[trigger] a[m]),
    ensures
        inter_count(a.take(to), b) == inter_count(a.take(from), b),
    decreases to - from,
{
    if from < to {
        lemma_inter_range_none(a, b, from, to - 1);
        assert(a.take(to) =~= a.take(to - 1).push(a[to - 1]));
        lemma_inter_push(a.take(to - 1), b, a[to - 1]);
    }
}

/// With everything before `jb` below `x`, membership of `x` in a strictly
/// increasing sequence is decided at the seek position.
proof fn lemma_member_seek(b: Seq<u32>, jb: int, x: u32)
    requires
        crate::index::strictly_inc(b),
        0 <= jb <= b.len(),
        forall|m: int| 0 <= m < jb ==> b[m] < x,
    ensures
        b.contains(x) == (seek_index(b, jb, x) < b.len() && b[seek_index(b, jb, x)] == x),
{
    lemma_seek_index(b, jb, x);
    let si = seek_index(b, jb, x);
    if b.contains(x) {
        let m = choose|m: int| 0 <= m < b.len() && b[m] == x;
        assert(m >= jb);
        assert(m >= si);
        if m > si {
            crate::index::lemma_strict_le(b, si, m);
            assert(b[si] < b[m] || b[si] == b[m]);
            if b[si] != b[m] {
                assert(b[si] >= x);
                assert(b[si] < x || b[si] <= b[m]);
            }
            assert(b[si] <= x);
            assert(b[si] == x);
        }
    }
    if si < b.len() && b[si] == x {
        assert(b.contains(x));
    }
}

/// Counts the common document ids of two strictly increasing posting
/// streams exactly, walking the shorter one and seeking in the other.
#[verifier::rlimit(100)]
pub fn intersection_size<'a, 'b>(
    shorter: &mut PostingDecoder<'a>,
    longer: &mut PostingDecoder<'b>,
) -> (n: usize)
    requires
        old(shorter).wf(),
        old(longer).wf(),
        crate::index::strictly_inc(old(shorter).full_seq()),
        crate::index::strictly_inc(old(longer).full_seq()),
    ensures
        n == inter_count(old(shorter).remaining(), old(longer).remaining()),
{
    let ghost fa = shorter.full_seq();
    let ghost fb = longer.full_seq();
    let ghost a0 = shorter.position();
    let ghost b0 = longer.position();
    let ghost ar = fa.skip(a0);
    let ghost br = fb.skip(b0);
    let mut count: usize = 0;
    let mut focus = match shorter.next() {
        Some(x) => x,
        None => {
            proof {
                assert(ar.len() == 0);
            }
            return 0;
        },
    };
    proof {
        assert(ar.take(0) =~= Seq::<u32>::empty());
        assert(focus.0.0 == fa[a0]);
    }
    loop
        invariant
            shorter.wf(),
            longer.wf(),
            shorter.full_seq() == fa,
            longer.full_seq() == fb,
            crate::index::strictly_inc(fa),
            crate::index::strictly_inc(fb),
            ar == fa.skip(a0),
            br == fb.skip(b0),
            ar == old(shorter).remaining(),
            br == old(longer).remaining(),
            0 <= a0 < shorter.position() <= fa.len(),
            0 <= b0 <= longer.position() <= fb.len(),
            focus.0.0 == fa[shorter.position() - 1],
            count == inter_count(ar.take(shorter.position() - 1 - a0), br),
            count <= shorter.position() - 1 - a0,
            forall|m: int| b0 <= m < longer.position() ==> fb[m] < focus.0.0,
        ensures
            count == inter_count(ar, br),
        decreases fa.len() + fb.len() - shorter.position() - longer.position(),
    {
        let ghost ia = shorter.position();
        let ghost jb = longer.position();
        let r = match longer.next_seek(&focus) {
            Some(r) => r,
            None => {
                proof {
                    lemma_seek_index(fb, jb, focus.0.0);
                    // nothing at or past the focus remains in the other
                    // stream, so no remaining id of the shorter one occurs
                    assert forall|m: int| ia - 1 - a0 <= m < ar.len() implies !br.contains(
                        #[trigger] ar[m],
                    ) by {
                        crate::index::lemma_strict_le(fa, ia - 1, a0 + m);
                        assert(ar[m] >= focus.0.0);
                        if br.contains(ar[m]) {
                            let q = choose|q: int| 0 <= q < br.len() && br[q] == ar[m];
                            assert(fb[b0 + q] == ar[m]);
                            if b0 + q < jb {
                                assert(fb[b0 + q] < focus.0.0);
                            } else {
                                assert(fb[b0 + q] < focus.0.0);
                            }
                        }
                    }
                    lemma_inter_range_none(ar, br, ia - 1 - a0, ar.len() as int);
                    assert(ar.take(ar.len() as int) =~= ar);
                }
                return count;
            },
        };
        let ghost j0 = seek_index(fb, jb, focus.0.0);
        proof {
            lemma_seek_index(fb, jb, focus.0.0);
            assert(r.0.0 == fb[j0]);
            assert(r.0.0 >= focus.0.0);
            assert forall|m: int| 0 <= m < j0 - b0 implies #[trigger] fb[b0 + m]
                < focus.0.0 by {}
            assert forall|m: int| 0 <= m < jb - b0 implies br[m] < focus.0.0 by {
                assert(br[m] == fb[b0 + m]);
            }
            assert(crate::index::strictly_inc(br)) by {
                assert forall|q: int|
                    #![trigger br[q], br[q - 1]]
                    1 <= q < br.len() implies br[q - 1] < br[q] by {
                    assert(br[q] == fb[b0 + q] && br[q - 1] == fb[b0 + q - 1]);
                }
            }
            lemma_member_seek(br, jb - b0, focus.0.0);
            assert(seek_index(br, jb - b0, focus.0.0) == j0 - b0) by {
                lemma_seek_index_shift(fb, b0, jb, focus.0.0);
            }
        }
        if r.0.0 == focus.0.0 {
            proof {
                assert(br.contains(focus.0.0));
                assert(ar.take(ia - a0) =~= ar.take(ia - 1 - a0).push(focus.0.0));
                lemma_inter_push(ar.take(ia - 1 - a0), br, focus.0.0);
                lemma_inter_le(ar.take(ia - 1 - a0), br);
            }
            count = count + 1;
            focus = match shorter.next() {
                Some(x) => x,
                None => {
                    proof {
                        assert(ar.take(ia - a0) =~= ar);
                    }
                    return count;
                },
            };
            proof {
                assert(shorter.position() == ia + 1);
                assert(focus.0.0 == fa[ia]);
                assert(longer.position() == j0 + 1);
                assert(fb[j0] == r.0.0);
                assert(r.0.0 == fa[ia - 1]);
                assert forall|m: int|
                    b0 <= m < longer.position() implies fb[m] < focus.0.0 by {
                    crate::index::lemma_strict_le(fb, m, j0);
                    assert(fb[m] <= fb[j0]);
                    assert(fa[ia - 1] < fa[ia]);
                }
            }
            continue;
        }
        // the other stream jumped past the focus: everything of the
        // shorter stream strictly below the landing id is not common
        proof {
            lemma_member_seek(br, jb - b0, focus.0.0);
            assert(!br.contains(focus.0.0));
            assert(ar.take(ia - a0) =~= ar.take(ia - 1 - a0).push(focus.0.0));
            lemma_inter_push(ar.take(ia - 1 - a0), br, focus.0.0);
        }
        let ghost ia2 = shorter.position();
        focus = match shorter.next_seek(&r) {
            Some(x) => x,
            None => {
                proof {
                    lemma_seek_index(fa, ia2, r.0.0);
                    assert forall|m: int| ia - a0 <= m < ar.len() implies !br.contains(
                        #[trigger] ar[m],
                    ) by {
                        assert(ar[m] == fa[a0 + m]);
                        assert(fa[a0 + m] < r.0.0);
                        crate::index::lemma_strict_le(fa, ia, a0 + m);
                        assert(ar[m] > focus.0.0 || ar[m] == fa[ia]);
                        assert(ar[m] >= fa[ia]);
                        assert(fa[ia] > fa[ia - 1]);
                        if br.contains(ar[m]) {
                            let q = choose|q: int| 0 <= q < br.len() && br[q] == ar[m];
                            if b0 + q < j0 {
                                assert(fb[b0 + q] < focus.0.0);
                                assert(focus.0.0 == fa[ia - 1]);
                            } else {
                                crate::index::lemma_strict_le(fb, j0, b0 + q);
                                assert(fb[b0 + q] >= r.0.0);
                            }
                        }
                    }
                    lemma_inter_range_none(ar, br, ia - a0, ar.len() as int);
                    assert(ar.take(ar.len() as int) =~= ar);
                }
                return count;
            },
        };
        let ghost k0 = seek_index(fa, ia2, r.0.0);
        proof {
            lemma_seek_index(fa, ia2, r.0.0);
            assert(focus.0.0 == fa[k0]);
            assert forall|m: int| ia - a0 <= m < k0 - a0 implies !br.contains(
                #[trigger] ar[m],
            ) by {
                assert(ar[m] == fa[a0 + m]);
                assert(fa[a0 + m] < r.0.0);
                crate::index::lemma_strict_le(fa, ia, a0 + m);
                assert(ar[m] >= fa[ia]);
                if br.contains(ar[m]) {
                    let q = choose|q: int| 0 <= q < br.len() && br[q] == ar[m];
                    if b0 + q < j0 {
                        assert(fb[b0 + q] < focus.0.0 || fb[b0 + q] < fa[ia - 1] || fb[b0 + q]
                            < ar[m]);
                        assert(fb[b0 + q] < fa[ia - 1]);
                        assert(fa[ia - 1] < fa[ia]);
                    } else {
                        crate::index::lemma_strict_le(fb, j0, b0 + q);
                        assert(fb[b0 + q] >= r.0.0);
                    }
                }
            }
            lemma_inter_range_none(ar, br, ia - a0, k0 - a0);
            assert(count == inter_count(ar.take(k0 - a0), br));
        }
        if r.0.0 == focus.0.0 {
            proof {
                assert(br.contains(focus.0.0)) by {
                    assert(br[j0 - b0] == focus.0.0);
                }
                assert(ar.take(k0 + 1 - a0) =~= ar.take(k0 - a0).push(focus.0.0));
                lemma_inter_push(ar.take(k0 - a0), br, focus.0.0);
                lemma_inter_le(ar.take(k0 - a0), br);
            }
            count = count + 1;
            focus = match shorter.next() {
                Some(x) => x,
                None => {
                    proof {
                        assert(ar.take(k0 + 1 - a0) =~= ar);
                    }
                    return count;
                },
            };
            proof {
                assert(shorter.position() == k0 + 2);
                assert(focus.0.0 == fa[k0 + 1]);
                assert(longer.position() == j0 + 1);
                assert(fb[j0] == r.0.0);
                assert(r.0.0 == fa[k0]);
                assert forall|m: int|
                    b0 <= m < longer.position() implies fb[m] < focus.0.0 by {
                    crate::index::lemma_strict_le(fb, m, j0);
                    assert(fb[m] <= fb[j0]);
                    assert(fa[k0] < fa[k0 + 1]);
                }
            }
        } else {
            proof {
                assert(focus.0.0 > r.0.0);
                assert(count == inter_count(ar.take(shorter.position() - 1 - a0), br));
                assert forall|m: int| b0 <= m < longer.position() implies fb[m]
                    < focus.0.0 by {
                    crate::index::lemma_strict_le(fb, m, j0);
                    assert(fb[m] <= fb[j0]);
                    assert(fb[j0] == r.0.0);
                }
            }
        }
    }
}

/// No id is common with an empty stream.
pub proof fn lemma_inter_empty(a: Seq<u32>)
    ensures
        inter_count(a, Seq::<u32>::empty()) == 0,
    decreases a.len(),
{
    if a.len() > 0 {
        lemma_inter_empty(a.skip(1));
    }
}

/// Counts the common document ids of two posting iterators exactly; an
/// empty iterator has nothing in common with anything.
pub fn get_intersection_size<'a, 'b>(lhs: PostingIterator<'a>, rhs: PostingIterator<'b>) -> (n:
    usize)
    requires
        lhs.wf(),
        rhs.wf(),
        crate::index::strictly_inc(lhs.full_seq()),
        crate::index::strictly_inc(rhs.full_seq()),
    ensures
        n == inter_count(lhs.remaining(), rhs.remaining()),
{
    let mut lhs = match lhs {
        PostingIterator::Empty => {
            proof {
                assert(lhs.remaining() =~= Seq::<u32>::empty());
            }
            return 0;
        },
        PostingIterator::Decoder(decoder) => decoder,
    };
    let mut rhs = match rhs {
        PostingIterator::Empty => {
            proof {
                assert(rhs.remaining() =~= Seq::<u32>::empty());
                lemma_inter_empty(lhs.remaining());
            }
            return 0;
        },
        PostingIterator::Decoder(decoder) => decoder,
    };
    intersection_size(&mut lhs, &mut rhs)
}

/// Counts common ids as `intersection_size` does, but stops after at
/// most `limit` samples of the shorter stream.  On identical streams the
/// sample count is exact up to the limit.
#[verifier::rlimit(100)]
pub fn intersection_size_limit<'a, 'b>(
    shorter: &mut PostingDecoder<'a>,
    longer: &mut PostingDecoder<'b>,
    limit: usize,
) -> (n: usize)
    requires
        old(shorter).wf(),
        old(longer).wf(),
        crate::index::strictly_inc(old(shorter).full_seq()),
        crate::index::strictly_inc(old(longer).full_seq()),
    ensures
        n <= limit,
        final(shorter).wf(),
        final(shorter).full_seq() == old(shorter).full_seq(),
        old(shorter).remaining() == old(longer).remaining() ==> n == vstd::math::min(
            limit as int,
            old(shorter).remaining().len() as int,
        ),
{
    let ghost fa = shorter.full_seq();
    let ghost fb = longer.full_seq();
    let ghost a0 = shorter.position();
    let ghost b0 = longer.position();
    let ghost ar = fa.skip(a0);
    let ghost br = fb.skip(b0);
    let ghost same = ar == br;
    let mut count: usize = 0;
    let mut focus = match shorter.next() {
        Some(x) => x,
        None => {
            return 0;
        },
    };
    let mut k: usize = 0;
    while k < limit
        invariant
            shorter.wf(),
            longer.wf(),
            shorter.full_seq() == fa,
            longer.full_seq() == fb,
            crate::index::strictly_inc(fa),
            crate::index::strictly_inc(fb),
            ar == fa.skip(a0),
            br == fb.skip(b0),
            same == (ar == br),
            ar == old(shorter).remaining(),
            br == old(longer).remaining(),
            fa == old(shorter).full_seq(),
            0 <= a0 < shorter.position() <= fa.len(),
            0 <= b0 <= longer.position() <= fb.len(),
            focus.0.0 == fa[shorter.position() - 1],
            count <= k <= limit,
            same ==> count == shorter.position() - 1 - a0 && longer.position() - b0 == count
                && count == k,
            forall|m: int| b0 <= m < longer.position() ==> fb[m] < focus.0.0,
        ensures
            count <= limit,
            same ==> count == vstd::math::min(limit as int, ar.len() as int),
        decreases limit - k,
    {
        let ghost ia = shorter.position();
        let ghost jb = longer.position();
        proof {
            if same {
                assert(0 <= ia - 1 - a0 < ar.len());
                assert(ar[ia - 1 - a0] == fa[ia - 1]);
                assert(br.len() == ar.len());
                assert(br[ia - 1 - a0] == fb[b0 + (ia - 1 - a0)]);
                assert(jb == b0 + (ia - 1 - a0));
                assert(fb[jb] == focus.0.0);
            }
        }
        let r = match longer.next_seek(&focus) {
            Some(r) => r,
            None => {
                proof {
                    lemma_seek_index(fb, jb, focus.0.0);
                    if same {
                        assert(seek_index(fb, jb, focus.0.0) == jb);
                        assert(false);
                    }
                    assert forall|m: int|
                        b0 <= m < longer.position() implies fb[m] < focus.0.0 by {}
                }
                break;
            },
        };
        let ghost j0 = seek_index(fb, jb, focus.0.0);
        proof {
            lemma_seek_index(fb, jb, focus.0.0);
            assert(r.0.0 == fb[j0]);
            if same {
                lemma_seek_index_exact(fb, jb, focus.0.0, jb);
                assert(j0 == jb);
                assert(r.0.0 == focus.0.0);
            }
        }
        if r.0.0 == focus.0.0 {
            count = count + 1;
            focus = match shorter.next() {
                Some(x) => x,
                None => {
                    proof {
                        if same {
                            assert(shorter.position() == fa.len());
                            assert(count == ar.len());
                        }
                    }
                    return count;
                },
            };
            proof {
                assert(focus.0.0 == fa[shorter.position() - 1]);
                assert forall|m: int|
                    b0 <= m < longer.position() implies fb[m] < focus.0.0 by {
                    crate::index::lemma_strict_le(fb, m, j0);
                    assert(fb[m] <= fb[j0]);
                    assert(fb[j0] == fa[ia - 1]);
                    assert(fa[ia - 1] < fa[ia]);
                }
            }
            k = k + 1;
            continue;
        }
        proof {
            assert(!same);
        }
        focus = match shorter.next_seek(&r) {
            Some(x) => x,
            None => {
                return count;
            },
        };
        let ghost k0 = seek_index(fa, shorter.position() - 1, r.0.0);
        proof {
            lemma_seek_index(fa, ia, r.0.0);
        }
        if r.0.0 == focus.0.0 {
            count = count + 1;
            focus = match shorter.next() {
                Some(x) => x,
                None => {
                    return count;
                },
            };
        }
        proof {
            assert forall|m: int| b0 <= m < longer.position() implies fb[m] < focus.0.0 by {
                crate::index::lemma_strict_le(fb, m, j0);
                assert(fb[m] <= fb[j0]);
                assert(fb[j0] == r.0.0);
                assert(focus.0.0 > r.0.0 || focus.0.0 == fa[shorter.position() - 1]);
                if focus.0.0 <= r.0.0 {
                    assert(false);
                }
            }
        }
        k = k + 1;
    }
    count
}

/// Estimates how many document ids two posting streams share: counted
/// exactly below the sampling threshold, and extrapolated from a bounded
/// sample of the shorter stream above it.
#[verifier::rlimit(100)]
pub fn estimate_intersection_size<'a, 'b>(
    lhs: PostingIterator<'a>,
    rhs: PostingIterator<'b>,
    sample_size: usize,
) -> (n: usize)
    requires
        lhs.wf(),
        rhs.wf(),
        lhs.position() == 0,
        rhs.position() == 0,
        crate::index::strictly_inc(lhs.full_seq()),
        crate::index::strictly_inc(rhs.full_seq()),
        sample_size > 0,
    ensures
        (lhs is Empty || rhs is Empty) ==> n == 0,
        ({
            let a = lhs.full_seq();
            let b = rhs.full_seq();
            let s = if a.len() < b.len() {
                a
            } else {
                b
            };
            let l = if a.len() < b.len() {
                b
            } else {
                a
            };
            &&& (!(lhs is Empty) && !(rhs is Empty) && s.len() < SAMPLING_THRESHOLD ==> n
                == inter_count(s, l))
            &&& (!(lhs is Empty) && !(rhs is Empty) && s.len() >= SAMPLING_THRESHOLD && s == l
                ==> n == vstd::math::min(sample_size as int, s.len() as int) * ((
            s.len() as int) / (sample_size as int)))
        }),
{
    let lhs = match lhs {
        PostingIterator::Empty => {
            return 0;
        },
        PostingIterator::Decoder(decoder) => decoder,
    };
    let rhs = match rhs {
        PostingIterator::Empty => {
            return 0;
        },
        PostingIterator::Decoder(decoder) => decoder,
    };
    let (mut shorter, mut longer) = if lhs.len() < rhs.len() {
        (lhs, rhs)
    } else {
        (rhs, lhs)
    };
    proof {
        assert(shorter.remaining() =~= shorter.full_seq());
        assert(longer.remaining() =~= longer.full_seq());
    }
    if shorter.len() < SAMPLING_THRESHOLD {
        intersection_size(&mut shorter, &mut longer)
    } else {
        let ghost slen = shorter.full_seq().len() as int;
        let c = intersection_size_limit(&mut shorter, &mut longer, sample_size);
        let total = shorter.len();
        let scale = total / sample_size;
        proof {
            assert(c * scale <= sample_size * scale) by (nonlinear_arith)
                requires
                    c <= sample_size,
                    scale >= 0,
            ;
            assert(sample_size * scale <= total) by (nonlinear_arith)
                requires
                    scale == total / sample_size,
                    sample_size > 0,
                    total >= 0,
            ;
            assert(total <= usize::MAX);
        }
        c * scale
    }
}

/// A seek over a suffix lands where the seek over the whole sequence
/// lands, shifted.
proof fn lemma_seek_index_shift(b: Seq<u32>, b0: int, jb: int, t: u32)
    requires
        0 <= b0 <= jb <= b.len(),
    ensures
        seek_index(b.skip(b0), jb - b0, t) == seek_index(b, jb, t) - b0,
    decreases b.len() - jb,
{
    if jb < b.len() {
        assert(b.skip(b0)[jb - b0] == b[jb]);
        if b[jb] < t {
            lemma_seek_index_shift(b, b0, jb + 1, t);
        }
    }
}

} // verus!
