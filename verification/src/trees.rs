//! Tree-shaped containers: the sorted map that backs branching nodes.

pub mod map;
