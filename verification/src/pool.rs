use vstd::prelude::*;

verus! {

/// Storage is granted in blocks of this many elements.
pub const BLOCK_SIZE: usize = 512;

/// A growable store handed out in fixed-size blocks.
#[derive(Debug, Default, PartialEq, Eq)]
pub struct Pool<T> {
    inner: Vec<T>,
}

impl<T> Pool<T> {
    /// The stored elements.
    pub closed spec fn spec_items(self) -> Seq<T> {
        self.inner@
    }

    /// Total size in block-granular units.
    pub fn size(&self) -> (r: usize)
        requires
            self.spec_items().len() * BLOCK_SIZE <= usize::MAX,
        ensures
            r == self.spec_items().len() * BLOCK_SIZE,
    {
        self.inner.len() * BLOCK_SIZE
    }

    /// Exchanges the contents of two pools.
    pub fn swap(&mut self, other: &mut Pool<T>)
        ensures
            *final(self) == *old(other),
            *final(other) == *old(self),
    {
        core::mem::swap(self, other);
    }

    /// Drops every element.
    pub fn clear(&mut self)
        ensures
            final(self).spec_items().len() == 0,
    {
        self.inner.clear();
    }

    /// Sets one more block of storage aside and reports the size; the
    /// stored elements do not change.
    pub fn allocate(&mut self) -> (r: usize)
        requires
            old(self).spec_items().len() * BLOCK_SIZE <= usize::MAX,
        ensures
            final(self).spec_items() == old(self).spec_items(),
            r == final(self).spec_items().len() * BLOCK_SIZE,
    {
        self.inner.reserve(BLOCK_SIZE);
        self.size()
    }
}

} // verus!
