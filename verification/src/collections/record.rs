use vstd::prelude::*;

verus! {

/// One key-value record of a sorted-vector container.
#[derive(Debug)]
pub struct Rec<K, V> {
    pub key: K,
    pub val: V,
}

impl<K, V> Rec<K, V> {
    /// Pairs a key with a value.
    pub fn new(key: K, val: V) -> (r: Rec<K, V>)
        ensures
            r.key == key,
            r.val == val,
    {
        Rec { key, val }
    }

    /// A borrow of the record's key.
    pub fn key(&self) -> (r: &K)
        ensures
            *r == self.key,
    {
        &self.key
    }

    /// A borrow of the record's value.
    pub fn value(&self) -> (r: &V)
        ensures
            *r == self.val,
    {
        &self.val
    }

    /// A mutable borrow of the record's value; the key cannot change.
    pub fn value_mut(&mut self) -> (r: &mut V)
        ensures
            *r == old(self).val,
            final(self).val == *final(r),
            final(self).key == old(self).key,
    {
        &mut self.val
    }

    /// Takes the record apart into its pair.
    pub fn into_pair(self) -> (r: (K, V))
        ensures
            r.0 == self.key,
            r.1 == self.val,
    {
        (self.key, self.val)
    }
}

} // verus!
