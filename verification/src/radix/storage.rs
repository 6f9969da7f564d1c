use vstd::prelude::*;

verus! {

/// The allocator adapter: the only path that obtains storage for a node
/// block.  It hands out zero-initialized byte regions of exactly the size
/// the block's header demands; a region is reclaimed when its owning block
/// is dropped.
pub fn acquire(size: usize) -> (r: Vec<u8>)
    ensures
        r@.len() == size,
        forall|i: int| 0 <= i < size ==> r@[i] == 0u8,
{
    let r: Vec<u8> = vec![0u8; size];
    r
}

} // verus!
