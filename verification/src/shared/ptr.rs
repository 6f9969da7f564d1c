use vstd::prelude::*;

verus! {

/// An owned slot that is either empty or holds one value; the safe shape
/// of a nullable owning pointer.
pub struct Ptr<T>(Option<T>);

impl<T> Ptr<T> {
    /// What the slot holds.
    pub closed spec fn spec_inner(self) -> Option<T> {
        self.0
    }

    /// An empty slot.
    pub fn null() -> (r: Ptr<T>)
        ensures
            r.spec_inner() is None,
    {
        Ptr(None)
    }

    /// A slot holding `t`.
    pub fn new(t: T) -> (r: Ptr<T>)
        ensures
            r.spec_inner() == Some(t),
    {
        Ptr(Some(t))
    }

    /// Stores `t`, handing back whatever the slot held before.
    pub fn replace(&mut self, t: T) -> (r: Option<T>)
        ensures
            final(self).spec_inner() == Some(t),
            r == old(self).spec_inner(),
    {
        let mut tmp = Some(t);
        core::mem::swap(&mut tmp, &mut self.0);
        tmp
    }

    /// Empties the slot, handing back whatever it held.
    pub fn take(&mut self) -> (r: Option<T>)
        ensures
            final(self).spec_inner() is None,
            r == old(self).spec_inner(),
    {
        let mut tmp = None;
        core::mem::swap(&mut tmp, &mut self.0);
        tmp
    }

    /// Fills an empty slot.
    pub fn put(&mut self, t: T)
        requires
            old(self).spec_inner() is None,
        ensures
            final(self).spec_inner() == Some(t),
    {
        self.0 = Some(t);
    }
}

} // verus!
