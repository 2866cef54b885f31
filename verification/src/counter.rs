use vstd::prelude::*;

verus! {

/// A monotone counter that hands out dense `u64` values, used by the page
/// cache to allocate page ids.
#[derive(Debug)]
pub struct Counter(u64);

impl View for Counter {
    type V = u64;

    closed spec fn view(&self) -> u64 {
        self.0
    }
}

impl Counter {
    pub fn new() -> (c: Counter)
        ensures
            c@ == 0,
    {
        Counter(0)
    }

    /// Returns the current value and advances the counter by one.
    pub fn retrieve_and_inc(&mut self) -> (v: u64)
        requires
            old(self)@ < u64::MAX,
        ensures
            v == old(self)@,
            final(self)@ == old(self)@ + 1,
    {
        self.0 += 1;
        self.0 - 1
    }

    /// Returns the current value without advancing.
    pub fn retrieve(&self) -> (v: u64)
        ensures
            v == self@,
    {
        self.0
    }
}

} // verus!
