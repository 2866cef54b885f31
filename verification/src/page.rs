use vstd::prelude::*;

verus! {

broadcast use vstd::array::group_array_axioms;

/// Number of bytes in one block.
pub const BLOCKSIZE: usize = 64;

/// Number of blocks in one page.
pub const PAGESIZE: usize = 64;

/// The smallest unit of compressed postings: a fixed-size byte array.
#[derive(Debug, PartialEq, Eq, Copy, Clone)]
pub struct Block(pub [u8; BLOCKSIZE]);

/// The position of a block within its page: `0 .. PAGESIZE`.
#[derive(Debug, PartialEq, Eq, Structural, PartialOrd, Ord, Copy, Clone)]
pub struct BlockId(pub u16);

/// The name of a page in the backing store.  Ids are allocated densely by
/// the page cache; the maximum representable value is the sentinel "no
/// page".
#[derive(Debug, PartialEq, Eq, Structural, PartialOrd, Ord, Hash, Copy, Clone)]
pub struct PageId(pub u64);

/// A fixed-size group of blocks: the unit of backing-store I/O.
#[derive(Debug, PartialEq, Eq, Copy, Clone)]
pub struct Page(pub [Block; PAGESIZE]);

/// A contiguous range of blocks `[from, to)` within one page, owned by a
/// single listing whose final page is not completely used.
#[derive(Debug, PartialEq, Eq, Structural, Copy, Clone)]
pub struct UnfullPage(pub PageId, pub BlockId, pub BlockId);

/// The physical extent of one listing: an ordered list of fully-owned
/// pages followed by an optional partially-used final page.
#[derive(Debug)]
pub struct Pages(pub Vec<PageId>, pub Option<UnfullPage>);

impl BlockId {
    /// The first block position of a page.
    pub fn first() -> (b: BlockId)
        ensures
            b.0 == 0,
    {
        BlockId(0)
    }

    /// The last block position of a page.
    pub fn last() -> (b: BlockId)
        ensures
            b.0 == PAGESIZE - 1,
    {
        BlockId((PAGESIZE - 1) as u16)
    }
}

impl PageId {
    /// The sentinel id meaning "no page".
    pub fn none() -> (p: PageId)
        ensures
            p.0 == u64::MAX,
    {
        PageId(u64::MAX)
    }
}

impl Block {
    /// A block of all-zero bytes.
    pub fn empty() -> (b: Block)
        ensures
            forall|j: int| 0 <= j < BLOCKSIZE ==> b.0@[j] == 0u8,
    {
        Block([0u8; BLOCKSIZE])
    }
}

impl Page {
    /// A page of all-zero blocks.
    pub fn empty() -> (p: Page)
        ensures
            forall|i: int, j: int|
                0 <= i < PAGESIZE && 0 <= j < BLOCKSIZE ==> p.0@[i].0@[j] == 0u8,
    {
        let b = Block::empty();
        Page([b; PAGESIZE])
    }

    /// Reads the block at position `id`.
    pub fn block(&self, id: BlockId) -> (b: Block)
        requires
            id.0 < PAGESIZE,
        ensures
            b == self.0@[id.0 as int],
    {
        self.0[id.0 as usize]
    }
}

impl UnfullPage {
    pub fn new(page_id: PageId, from: BlockId, to: BlockId) -> (u: UnfullPage)
        ensures
            u == UnfullPage(page_id, from, to),
    {
        UnfullPage(page_id, from, to)
    }

    pub fn page_id(&self) -> (p: PageId)
        ensures
            p == self.0,
    {
        self.0
    }

    pub fn from(&self) -> (b: BlockId)
        ensures
            b == self.1,
    {
        self.1
    }

    pub fn to(&self) -> (b: BlockId)
        ensures
            b == self.2,
    {
        self.2
    }
}

impl Pages {
    /// Structural soundness of a page list: the unfull tail, when present,
    /// names a non-empty block range inside one page, starting past the
    /// reserved first block.
    pub open spec fn wf(&self) -> bool {
        &&& self.0@.len() < usize::MAX
        &&& match self.1 {
            Some(u) => 1 <= u.1.0 < u.2.0 <= PAGESIZE,
            None => true,
        }
    }

    /// Number of page entries, the unfull tail included.
    pub open spec fn spec_len(&self) -> int {
        self.0@.len() + if self.1 is Some {
            1int
        } else {
            0int
        }
    }

    /// Total number of blocks owned by the listing.
    pub open spec fn block_count(&self) -> int {
        self.0@.len() * PAGESIZE + match self.1 {
            Some(u) => u.2.0 - u.1.0,
            None => 0int,
        }
    }

    pub fn new() -> (p: Pages)
        ensures
            p.0@ == Seq::<PageId>::empty(),
            p.1 is None,
    {
        Pages(Vec::new(), None)
    }

    pub fn len(&self) -> (n: usize)
        requires
            self.0@.len() < usize::MAX,
        ensures
            n == self.spec_len(),
    {
        self.0.len() + if self.1.is_some() {
            1
        } else {
            0
        }
    }

    pub fn has_unfull(&self) -> (b: bool)
        ensures
            b == (self.1 is Some),
    {
        self.1.is_some()
    }

    pub fn unfull(&self) -> (u: Option<UnfullPage>)
        ensures
            u == self.1,
    {
        self.1
    }

    /// The id of the `i`-th page entry: a fully-owned page first, then the
    /// unfull tail.
    pub fn get(&self, i: usize) -> (p: Option<PageId>)
        requires
            self.0@.len() < usize::MAX,
        ensures
            p == self.spec_get(i as int),
    {
        if i < self.0.len() {
            Some(self.0[i])
        } else if i == self.0.len() {
            match self.1 {
                Some(u) => Some(u.0),
                None => None,
            }
        } else {
            None
        }
    }

    pub open spec fn spec_get(&self, i: int) -> Option<PageId> {
        if 0 <= i < self.0@.len() {
            Some(self.0@[i])
        } else if i == self.0@.len() {
            match self.1 {
                Some(u) => Some(u.0),
                None => None,
            }
        } else {
            None
        }
    }

    /// A copy of this page list.
    pub fn duplicate(&self) -> (p: Pages)
        ensures
            p.0@ == self.0@,
            p.1 == self.1,
    {
        let mut full: Vec<PageId> = Vec::new();
        let mut i: usize = 0;
        while i < self.0.len()
            invariant
                i <= self.0@.len(),
                full@ == self.0@.take(i as int),
            decreases self.0@.len() - i,
        {
            full.push(self.0[i]);
            i += 1;
        }
        proof {
            assert(full@ =~= self.0@);
        }
        Pages(full, self.1)
    }
}

} // verus!
