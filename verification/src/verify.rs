use vstd::prelude::*;

verus! {

/// Something that can judge values of its object type.
pub trait Verify {
    /// What gets judged.
    type Obj;

    /// How a refusal is reported.
    type Err;

    /// Judges the object.
    fn verify(&self, obj: &Self::Obj) -> Result<(), Self::Err>;
}

/// The object-side view of judging: anything can be checked against any
/// verifier whose object type it is.
pub trait Check<V: Verify> {
    /// Has the verifier judge this value.
    fn check(&self, v: V) -> Result<(), V::Err>;
}

impl<T, V: Verify<Obj = T>> Check<V> for T {
    fn check(&self, v: V) -> Result<(), V::Err> {
        v.verify(self)
    }
}

} // verus!
