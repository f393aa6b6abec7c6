use vstd::prelude::*;

verus! {

/// The size in bytes of every page, in memory and in the data file.
pub const PAGE_SIZE: usize = 4096;

/// Identifies a frame, a slot of the buffer pool that holds one page in
/// memory. Frames are numbered from 1 up to the capacity of the pool.
#[derive(PartialEq, Eq, Structural, Copy, Clone, Debug)]
pub struct FrameId(pub usize);

/// Identifies a page by its position in the data file: page `n` starts at
/// byte `n * PAGE_SIZE`.
#[derive(PartialEq, Eq, Structural, Copy, Clone, Debug)]
pub struct PageId(pub usize);

} // verus!
