//! The radix-trie core: node header codec, per-node access gate, node block
//! codec, allocator adapter and the trie algorithm itself.

pub mod block;
pub mod error;
pub mod gate;
pub mod header;
pub mod storage;
pub mod trie;
