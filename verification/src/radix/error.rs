use vstd::prelude::*;

verus! {

/// The error conditions of the radix-trie core.
#[derive(Clone, Copy, Debug, PartialEq, Eq, Structural)]
pub enum TrieError {
    /// A single construction request carried a label longer than the
    /// header's length field can record; the caller must pre-split the key.
    LabelTooLong,
    /// The needed access-gate state could not be acquired; retryable.
    NodeBusy,
    /// The underlying storage refused the requested block; the operation is
    /// abandoned and the trie keeps its last consistent state.
    AllocationFailed,
    /// A decode met a flag and length combination inconsistent with the
    /// block's size; never produced by correct operation.
    Corrupt,
}

} // verus!
