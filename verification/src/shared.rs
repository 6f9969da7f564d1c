//! Shared-ownership helpers: an owned optional slot, and thin wrappers
//! over reference counting.

pub mod ptr;
pub mod rc;
