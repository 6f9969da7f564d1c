use vstd::prelude::*;
use crate::collections::btree::BTreeMap;
use crate::collections::order::total_order;

verus! {

/// The sorted map used for branching by the tree containers: the bisected
/// record vector, with lookups named `find`.
pub struct SortedMap<K, V>(BTreeMap<K, V>);

impl<K, V> SortedMap<K, V> {
    /// The mapping this container denotes.
    pub closed spec fn view(self) -> Map<K, V> {
        self.0.view()
    }

    /// Number of records stored.
    pub closed spec fn spec_len(self) -> nat {
        self.0.recs().len()
    }

    /// An empty map.
    pub fn new() -> (r: SortedMap<K, V>)
        ensures
            r.view() == Map::<K, V>::empty(),
            r.spec_len() == 0,
    {
        SortedMap(BTreeMap::new())
    }

    /// Whether no record is stored.
    pub fn is_empty(&self) -> (r: bool)
        ensures
            r == (self.spec_len() == 0),
    {
        self.0.is_empty()
    }

    /// Number of records stored.
    pub fn len(&self) -> (r: usize)
        ensures
            r == self.spec_len(),
    {
        self.0.len()
    }
}

impl<K: Ord, V> SortedMap<K, V> {
    /// Validity of the sorted storage.
    pub closed spec fn wf(self) -> bool {
        self.0.wf()
    }

    /// Inserts a pair, returning the value previously under the key.
    pub fn insert(&mut self, k: K, v: V) -> (r: Option<V>)
        requires
            total_order::<K>(),
            old(self).wf(),
            old(self).spec_len() < usize::MAX,
        ensures
            final(self).wf(),
            final(self).view() == old(self).view().insert(k, v),
            match r {
                Some(w) => old(self).view().contains_key(k) && w == old(self).view()[k],
                None => !old(self).view().contains_key(k),
            },
    {
        self.0.insert(k, v)
    }

    /// Looks a key up.
    pub fn find(&self, k: &K) -> (r: Option<&V>)
        requires
            total_order::<K>(),
            self.wf(),
        ensures
            match r {
                Some(v) => self.view().contains_key(*k) && *v == self.view()[*k],
                None => !self.view().contains_key(*k),
            },
    {
        self.0.get(k)
    }

    /// Mutably borrows the value under a key, when present.
    pub fn find_mut(&mut self, k: &K) -> (r: Option<&mut V>)
        requires
            total_order::<K>(),
            old(self).wf(),
        ensures
            old(self).view().contains_key(*k) == (r is Some),
            r is None ==> *final(self) == *old(self),
            r matches Some(v) ==> *v == old(self).view()[*k] && final(self).wf()
                && final(self).view() == old(self).view().insert(*k, *final(v)),
    {
        self.0.get_mut(k)
    }

    /// Mutably borrows the value under `k`, creating it first from the
    /// given producer when the key is absent.
    pub fn get_or_create_mut<F: FnOnce() -> V>(&mut self, k: K, new: F) -> (r: &mut V)
        requires
            total_order::<K>(),
            old(self).wf(),
            old(self).spec_len() < usize::MAX,
            new.requires(()),
        ensures
            final(self).wf(),
            final(self).view() == old(self).view().insert(k, *final(r)),
            old(self).view().contains_key(k) ==> *r == old(self).view()[k],
            !old(self).view().contains_key(k) ==> call_ensures(new, (), *r),
    {
        self.0.get_or_create_mut(k, new)
    }

    /// Removes a key, returning the value stored under it.
    pub fn remove(&mut self, k: &K) -> (r: Option<V>)
        requires
            total_order::<K>(),
            old(self).wf(),
        ensures
            final(self).wf(),
            final(self).view() == old(self).view().remove(*k),
            match r {
                Some(v) => old(self).view().contains_key(*k) && v == old(self).view()[*k],
                None => !old(self).view().contains_key(*k) && *final(self) == *old(self),
            },
    {
        self.0.remove(k)
    }
}

} // verus!
