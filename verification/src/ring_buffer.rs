use vstd::prelude::*;

use crate::posting::{DocId, Posting};

verus! {

/// A FIFO buffer of postings together with a running delta base.
///
/// The buffer holds absolute posting values; the base is the value that
/// precedes them in the listing (or zero at the very start) and is the
/// reference the compressor delta-codes the next block against.
#[derive(Debug)]
pub struct BiasedRingBuffer {
    data: Vec<Posting>,
    base: Posting,
}

impl View for BiasedRingBuffer {
    type V = Seq<u32>;

    /// The buffered document ids, front first.
    closed spec fn view(&self) -> Seq<u32> {
        self.data@.map(|i: int, p: Posting| p.0.0)
    }
}

impl BiasedRingBuffer {
    /// The current delta base.
    pub closed spec fn spec_base(&self) -> u32 {
        self.base.0.0
    }

    pub fn new() -> (b: BiasedRingBuffer)
        ensures
            b@ == Seq::<u32>::empty(),
            b.spec_base() == 0,
    {
        let b = BiasedRingBuffer { data: Vec::new(), base: Posting(DocId(0)) };
        proof {
            assert(b@ =~= Seq::<u32>::empty());
        }
        b
    }

    pub fn count(&self) -> (n: usize)
        ensures
            n == self@.len(),
    {
        self.data.len()
    }

    pub fn is_empty(&self) -> (e: bool)
        ensures
            e == (self@.len() == 0),
    {
        self.data.len() == 0
    }

    pub fn push_back(&mut self, p: Posting)
        ensures
            final(self)@ == old(self)@.push(p.0.0),
            final(self).spec_base() == old(self).spec_base(),
    {
        self.data.push(p);
        proof {
            assert(self@ =~= old(self)@.push(p.0.0));
        }
    }

    pub fn pop_front(&mut self) -> (p: Option<Posting>)
        ensures
            old(self)@.len() == 0 ==> p is None && final(self)@ == old(self)@,
            old(self)@.len() > 0 ==> p == Some(Posting(DocId(old(self)@[0])))
                && final(self)@ == old(self)@.skip(1),
            final(self).spec_base() == old(self).spec_base(),
    {
        if self.data.len() == 0 {
            None
        } else {
            let p = self.data.remove(0);
            proof {
                assert(self@ =~= old(self)@.skip(1));
            }
            Some(p)
        }
    }

    /// Sets the delta base for the next block.
    pub fn set_base(&mut self, p: Posting)
        ensures
            final(self)@ == old(self)@,
            final(self).spec_base() == p.0.0,
    {
        self.base = p;
    }

    /// The current delta base.
    pub fn base(&self) -> (p: Posting)
        ensures
            p.0.0 == self.spec_base(),
    {
        self.base
    }

    /// Discards all buffered postings; the base is untouched.
    pub fn flush(&mut self)
        ensures
            final(self)@ == Seq::<u32>::empty(),
            final(self).spec_base() == old(self).spec_base(),
    {
        self.data.clear();
        proof {
            assert(self@ =~= Seq::<u32>::empty());
        }
    }
}

} // verus!
