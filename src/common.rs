//! Identifiers and sizes shared by every component.
use vstd::prelude::*;

verus! {

/// Index of an in-memory frame of the buffer pool.
pub type FrameId = usize;

/// Identifier of a logical page of the backing file.
pub type PageId = i32;

/// Size in bytes of a page on disk and of a frame in memory.
pub const GRIMOIRE_PAGE_SIZE: usize = 4096;

} // verus!
