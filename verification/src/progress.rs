//! Progress accounting: snapshots of a running scan and the throttle
//! that spaces their delivery in time.

use vstd::prelude::*;

verus! {

/// Bytes processed so far against the bytes expected for the root.
#[derive(Clone, Copy, Debug, PartialEq, Eq, Structural)]
pub struct ProgressSnapshot {
    pub scanned: u64,
    pub total: u64,
}

impl ProgressSnapshot {
    /// The snapshot that closes a scan: everything expected has been scanned.
    pub fn complete(total: u64) -> (snapshot: ProgressSnapshot)
        ensures
            snapshot.scanned == total,
            snapshot.total == total,
    {
        ProgressSnapshot { scanned: total, total }
    }

    /// Whether this snapshot reports a finished scan.
    pub fn is_complete(&self) -> (done: bool)
        ensures
            done == (self.scanned == self.total),
    {
        self.scanned == self.total
    }
}

/// The least time between two notifications of a sequential scan.
pub const SCAN_INTERVAL_MS: u64 = 100;

/// The least time between two notifications of a parallel scan.
pub const TURBO_INTERVAL_MS: u64 = 200;

/// A throttle on elapsed time: it lets a notification pass only when enough time
/// has gone by since the last one that passed.
#[derive(Clone, Copy, Debug, PartialEq, Eq, Structural)]
pub struct Throttle {
    /// The least time between two notifications, in milliseconds.
    pub interval_ms: u64,
    /// When the last notification passed, on the caller's clock.
    pub last_emit_ms: u64,
}

impl Throttle {
    /// The time gone by at `now_ms` since the last notification passed; zero
    /// when the clock reads earlier than it did then.
    pub open spec fn elapsed(self, now_ms: u64) -> nat {
        if now_ms >= self.last_emit_ms {
            (now_ms - self.last_emit_ms) as nat
        } else {
            0
        }
    }

    /// Whether a notification at `now_ms` passes the throttle.
    pub open spec fn due(self, now_ms: u64) -> bool {
        self.elapsed(now_ms) >= self.interval_ms
    }

    /// A throttle with the given interval, closed until the interval has gone by
    /// from `now_ms`.
    pub fn new(interval_ms: u64, now_ms: u64) -> (throttle: Throttle)
        ensures
            throttle.interval_ms == interval_ms,
            throttle.last_emit_ms == now_ms,
    {
        Throttle { interval_ms, last_emit_ms: now_ms }
    }

    /// The throttle of a sequential scan.
    pub fn sequential(now_ms: u64) -> (throttle: Throttle)
        ensures
            throttle.interval_ms == SCAN_INTERVAL_MS,
            throttle.last_emit_ms == now_ms,
    {
        Throttle::new(SCAN_INTERVAL_MS, now_ms)
    }

    /// The throttle of a parallel scan.
    pub fn turbo(now_ms: u64) -> (throttle: Throttle)
        ensures
            throttle.interval_ms == TURBO_INTERVAL_MS,
            throttle.last_emit_ms == now_ms,
    {
        Throttle::new(TURBO_INTERVAL_MS, now_ms)
    }

    /// Asks the throttle at `now_ms`. A notification passes exactly when the
    /// interval has gone by; the throttle then counts from `now_ms`. Otherwise
    /// the throttle stays as it was.
    pub fn should_emit(&mut self, now_ms: u64) -> (pass: bool)
        ensures
            pass == old(self).due(now_ms),
            final(self).interval_ms == old(self).interval_ms,
            final(self).last_emit_ms == if pass {
                now_ms
            } else {
                old(self).last_emit_ms
            },
    {
        let elapsed: u64 = if now_ms >= self.last_emit_ms {
            now_ms - self.last_emit_ms
        } else {
            0
        };
        if elapsed >= self.interval_ms {
            self.last_emit_ms = now_ms;
            true
        } else {
            false
        }
    }
}

} // verus!
