//! The shared counter of a scan: the bytes processed so far, a single
//! atomic value that every worker adds to without any other lock.

use std::sync::atomic::{AtomicU64, Ordering};
use vstd::prelude::*;
use crate::progress::ProgressSnapshot;

verus! {

/// Where a 64-bit counter stands after `bytes` were added to `previous`: at
/// their sum, which wraps around at two to the power of 64 as the atomic
/// addition does.
pub open spec fn advanced(previous: u64, bytes: u64) -> int {
    (previous + bytes) % 0x1_0000_0000_0000_0000
}

/// The snapshot to report after `bytes` were added to a counter that stood
/// at `previous`.
pub fn snapshot_after(previous: u64, bytes: u64, known_total: u64) -> (snapshot: ProgressSnapshot)
    ensures
        snapshot.scanned == advanced(previous, bytes),
        snapshot.total == known_total,
{
    ProgressSnapshot { scanned: previous.wrapping_add(bytes), total: known_total }
}

/// The progress of one scan, shared by its workers: the bytes processed so
/// far and the bytes expected for the root.
#[derive(Debug)]
pub struct ProgressAccumulator {
    scanned: AtomicU64,
    known_total: u64,
}

impl ProgressAccumulator {
    /// The bytes expected for the root.
    pub closed spec fn total(&self) -> u64 {
        self.known_total
    }

    /// The progress of a scan that has processed nothing yet.
    pub fn new(known_total: u64) -> (progress: ProgressAccumulator)
        ensures
            progress.total() == known_total,
    {
        ProgressAccumulator { scanned: AtomicU64::new(0), known_total }
    }

    /// The bytes expected for the root.
    pub fn known_total(&self) -> (total: u64)
        ensures
            total == self.total(),
    {
        self.known_total
    }

    /// Adds the bytes of one file and gives the snapshot to report. Other
    /// workers add at the same time, so of the bytes scanned nothing is
    /// known here but that they are those of `snapshot_after` for the value
    /// that the counter held just before.
    pub fn add(&self, bytes: u64) -> (snapshot: ProgressSnapshot)
        ensures
            snapshot.total == self.total(),
            exists|previous: u64| snapshot.scanned == advanced(previous, bytes),
    {
        let previous: u64 = self.scanned.fetch_add(bytes, Ordering::Relaxed);
        let snapshot = snapshot_after(previous, bytes, self.known_total);
        proof {
            assert(snapshot.scanned == advanced(previous, bytes));
        }
        snapshot
    }

    /// The snapshot that closes the scan.
    pub fn complete(&self) -> (snapshot: ProgressSnapshot)
        ensures
            snapshot.scanned == self.total(),
            snapshot.total == self.total(),
    {
        ProgressSnapshot::complete(self.known_total)
    }
}

} // verus!
