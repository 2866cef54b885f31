use vstd::prelude::*;

verus! {

/// A value that can be delta-coded against an additive base of its own type.
///
/// `sub_base` turns an absolute value into a delta, `add_base` turns the
/// delta back into the absolute value.  A value is modeled by a single
/// non-negative integer no wider than 32 bits.
pub trait Baseable: Sized {
    spec fn base_val(&self) -> int;

    fn add_base(&mut self, other: &Self)
        requires
            old(self).base_val() + other.base_val() <= u32::MAX,
        ensures
            final(self).base_val() == old(self).base_val() + other.base_val(),
    ;

    fn sub_base(&mut self, other: &Self)
        requires
            other.base_val() <= old(self).base_val(),
        ensures
            final(self).base_val() == old(self).base_val() - other.base_val(),
    ;
}

/// An iterator that can additionally jump forward to the first item that is
/// at least as large as a given key.
pub trait SeekingIterator {
    type Item;

    /// Whether the iterator is in a state fit for seeking.
    spec fn seek_wf(&self) -> bool;

    /// Yields an item that is `>=` the passed argument, or `None` if no such
    /// item remains.
    fn next_seek(&mut self, other: &Self::Item) -> Option<Self::Item>
        requires
            old(self).seek_wf(),
    ;
}

} // verus!
