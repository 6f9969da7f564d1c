use vstd::prelude::*;

verus! {

/// What a key of a nested-map trie must offer: a total order for the
/// per-node children maps.  Every ordered type qualifies.
pub trait Key: Ord {

}

impl<T: Ord> Key for T {

}

} // verus!
