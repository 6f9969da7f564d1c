use vstd::prelude::*;

verus! {

/// Relies on Arc::deref: a shared handle reads back the value it was
/// built over.
#[verifier::external_body]
fn arc_deref<T>(v: &std::sync::Arc<T>) -> (r: &T)
    ensures
        *r == *v,
{
    &**v
}

/// Relies on Arc::clone: a cloned handle shares the same value.
#[verifier::external_body]
fn arc_clone<T>(v: &std::sync::Arc<T>) -> (r: std::sync::Arc<T>)
    ensures
        r == *v,
{
    std::sync::Arc::clone(v)
}

/// A shared handle to one immutable value.
pub struct Rc<T>(std::sync::Arc<T>);

impl<T> Rc<T> {
    /// The shared value.
    pub closed spec fn spec_value(self) -> T {
        *self.0
    }

    /// Shares a fresh value.
    pub fn new(data: T) -> (r: Rc<T>)
        ensures
            r.spec_value() == data,
    {
        Rc(std::sync::Arc::new(data))
    }

    /// A borrow of the shared value.
    pub fn value(&self) -> (r: &T)
        ensures
            *r == self.spec_value(),
    {
        arc_deref(&self.0)
    }

    /// Another handle to the same value.
    pub fn share(&self) -> (r: Rc<T>)
        ensures
            r.spec_value() == self.spec_value(),
    {
        Rc(arc_clone(&self.0))
    }
}

/// A slot holding a shared handle that can be read and swapped out.
pub struct RcCell<T> {
    inner: Rc<T>,
}

impl<T> RcCell<T> {
    /// The handle the cell holds.
    pub closed spec fn spec_inner(self) -> Rc<T> {
        self.inner
    }

    /// A cell over a fresh shared value.
    pub fn new(t: T) -> (r: RcCell<T>)
        ensures
            r.spec_inner().spec_value() == t,
    {
        RcCell { inner: Rc::new(t) }
    }

    /// Another handle to the held value.
    pub fn get(&self) -> (r: Rc<T>)
        ensures
            r.spec_value() == self.spec_inner().spec_value(),
    {
        self.inner.share()
    }

    /// Stores a handle, giving the previous one back.
    pub fn set(&mut self, t: Rc<T>) -> (r: Rc<T>)
        ensures
            final(self).spec_inner() == t,
            r == old(self).spec_inner(),
    {
        let mut tmp = t;
        core::mem::swap(&mut tmp, &mut self.inner);
        tmp
    }
}

} // verus!
