//! A compact radix (PATRICIA) trie whose nodes are described by bit-packed
//! headers and variably-sized blocks, guarded by a per-node access gate,
//! together with the small sorted-vector containers and helpers that grew
//! around it.

pub mod collections;
pub mod combination;
pub mod convert;
pub mod pool;
pub mod shared;
pub mod uuid;
pub mod verify;
pub mod radix;
pub mod trees;
