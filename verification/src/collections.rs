//! Small sorted-vector containers: key-value records, sorted maps and
//! sets, a multimap, and slice-backed maps for string-like keys.

pub mod btree;
pub mod list;
pub mod map;
pub mod multimap;
pub mod order;
pub mod record;
pub mod trie;
pub mod slicemap;
