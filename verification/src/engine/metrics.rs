//! Counters of what the engine has done.

use vstd::prelude::*;

verus! {

/// One more than `n`, or `n` where the counter is full.
pub open spec fn bumped(n: u64) -> u64 {
    if n < u64::MAX {
        (n + 1) as u64
    } else {
        n
    }
}

/// Adds one to a counter; a full counter stays full.
pub fn bump(n: u64) -> (r: u64)
    ensures
        r == bumped(n),
{
    if n < u64::MAX {
        n + 1
    } else {
        n
    }
}

/// A snapshot of the engine's counters. Every counter stops at `u64::MAX`.
#[derive(Debug, Clone, Copy, PartialEq, Eq, Structural)]
pub struct EngineMetrics {
    pub reads: u64,
    pub writes: u64,
    pub wal_appends: u64,
    pub wal_rewrites: u64,
    pub flushes: u64,
    pub compactions: u64,
    pub page_cache_hits: u64,
    pub page_cache_misses: u64,
    pub page_cache_evictions: u64,
    pub pages_read_from_disk: u64,
}

impl EngineMetrics {
    /// All counters at zero.
    pub fn new() -> (m: Self)
        ensures
            m == (EngineMetrics {
                reads: 0,
                writes: 0,
                wal_appends: 0,
                wal_rewrites: 0,
                flushes: 0,
                compactions: 0,
                page_cache_hits: 0,
                page_cache_misses: 0,
                page_cache_evictions: 0,
                pages_read_from_disk: 0,
            }),
    {
        EngineMetrics {
            reads: 0,
            writes: 0,
            wal_appends: 0,
            wal_rewrites: 0,
            flushes: 0,
            compactions: 0,
            page_cache_hits: 0,
            page_cache_misses: 0,
            page_cache_evictions: 0,
            pages_read_from_disk: 0,
        }
    }
}

} // verus!
