use vstd::prelude::*;

verus! {

/// A collector instance: the sizes, in bytes, of the Immix space and of the
/// large-object space it manages.
pub struct GC {
    pub immix_size: usize,
    pub lo_size: usize,
}

impl GC {
    /// The collector for an Immix space of `immix_size` bytes and a
    /// large-object space of `lo_size` bytes.
    pub fn new(immix_size: usize, lo_size: usize) -> (gc: GC)
        ensures
            gc.immix_size == immix_size,
            gc.lo_size == lo_size,
    {
        GC { immix_size, lo_size }
    }

    /// The size of the whole heap, both spaces together; `None` when it does
    /// not fit a `usize`.
    pub fn heap_size(&self) -> (r: Option<usize>)
        ensures
            self.immix_size + self.lo_size <= usize::MAX ==> r == Some(
                (self.immix_size + self.lo_size) as usize,
            ),
            self.immix_size + self.lo_size > usize::MAX ==> r is None,
    {
        self.immix_size.checked_add(self.lo_size)
    }
}

} // verus!
