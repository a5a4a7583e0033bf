//! Snapshots of engine activity.

use vstd::prelude::*;

verus! {

/// Cumulative activity since open.
#[non_exhaustive]
#[derive(Debug, Clone, Copy, PartialEq, Eq, Structural)]
pub struct ChiselCounters {
    /// Page requests served from the cache.
    pub cache_hits: u64,
    /// Page requests that had to look further, successful or not.
    pub cache_misses: u64,
    /// Pages allocated, by extension or by reuse.
    pub pages_allocated: u64,
    /// Successful syncs.
    pub fsync_calls: u64,
}

/// A summary of a database.
#[non_exhaustive]
#[derive(Debug, Clone, Copy, PartialEq, Eq, Structural)]
pub struct Stats {
    /// Number of handles.
    pub handle_count: u64,
    /// Number of pages that the storage holds.
    pub total_pages: u64,
    /// Size of the storage in bytes.
    pub file_size_bytes: u64,
    /// How full the spillway is; `None` until it is used.
    pub spillway_logical_bytes: Option<u64>,
    /// How full the spillway may be; `None` until it is used.
    pub spillway_max_bytes: Option<u64>,
}

} // verus!
