//! Buffer management for a page-oriented storage engine: an adaptive
//! replacement cache that picks eviction victims, the frame directory of the
//! buffer pool, the offset bookkeeping of the disk manager and the request
//! queue of the disk scheduler.
pub mod common;
pub mod errors;
pub mod arc_replacer;
pub mod buffer_pool_manager;
pub mod disk_manager;
pub mod disk_scheduler;
