use vstd::prelude::*;

verus! {

/// Size of a data page, in bytes.
pub const BUSTUB_PAGE_SIZE: usize = 4096;

/// Lookback window of the LRU-K replacer that a buffer pool builds.
pub const LRUK_REPLACER_K: usize = 10;

/// Index of a slot in the buffer pool's frame array.
pub type FrameId = usize;

/// Logical identifier of a page on disk.
pub type PageId = u32;

/// Log sequence number stored in a page's header.
pub type Lsn = u64;

} // verus!
