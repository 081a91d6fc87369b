//! The capped-allocation decision rules of the machine's allocator hook.
//!
//! The machine asks its host for every allocation, reallocation and free
//! through a single callback.  The host tracks the number of bytes in use
//! against an optional limit and refuses (returns null to the machine)
//! any request that would exceed it; the machine then treats the refusal
//! as an out-of-memory condition and raises an error through its own
//! fault path.  This module holds the tracking state and the decision
//! rules; performing the actual allocation is the embedder's business.

use vstd::prelude::*;

verus! {

/// Tracks the memory being used by the machine, against a limit.
#[derive(Debug, Clone, Copy, PartialEq, Eq, Structural)]
pub struct MemoryInfo {
    /// Bytes currently accounted as in use.
    pub used: u64,
    /// The cap, in bytes; `0` means unlimited.
    pub limit: u64,
}

/// The outcome of a grow request: whether it is allowed, and the usage
/// counter afterwards.
pub open spec fn spec_grow_outcome(info: MemoryInfo, extra: int) -> (bool, int) {
    if info.used + extra > u64::MAX {
        (false, info.used as int)
    } else if info.limit > 0 && info.used + extra > info.limit {
        (false, info.used as int)
    } else {
        (true, info.used + extra)
    }
}

impl MemoryInfo {
    /// Creates a new `MemoryInfo` with a specific memory `limit`
    /// (`0` for no limit) and nothing in use.
    pub fn new(limit: u64) -> (r: MemoryInfo)
        ensures
            r.used == 0,
            r.limit == limit,
    {
        MemoryInfo { used: 0, limit }
    }

    /// Accounts for a free of `old_size` bytes.  The counter never goes
    /// below zero, even if the caller misreports a size.
    pub fn on_free(&mut self, old_size: u64)
        ensures
            final(self).limit == old(self).limit,
            final(self).used == if old(self).used >= old_size {
                old(self).used - old_size
            } else {
                0
            },
    {
        if self.used >= old_size {
            self.used = self.used - old_size;
        } else {
            self.used = 0;
        }
    }

    /// Decides a request that changes an allocation from `old_size` to
    /// `new_size` bytes (`old_size == 0` for a fresh allocation).
    ///
    /// Returns `false` — the machine must treat this as out of memory —
    /// when the limit is set and the growth would exceed it; otherwise
    /// adjusts the usage counter by the signed difference and returns
    /// `true`.  A request that does not grow the usage is always allowed.
    pub fn on_alloc(&mut self, old_size: u64, new_size: u64) -> (allowed: bool)
        ensures
            final(self).limit == old(self).limit,
            new_size >= old_size ==> {
                let (a, u) = spec_grow_outcome(*old(self), new_size - old_size);
                allowed == a && final(self).used == u
            },
            new_size < old_size ==> allowed && final(self).used == if old(self).used >= old_size
                - new_size {
                old(self).used - (old_size - new_size)
            } else {
                0
            },
    {
        if new_size >= old_size {
            let extra = new_size - old_size;
            if u64::MAX - self.used < extra {
                return false;
            }
            let target = self.used + extra;
            if self.limit > 0 && target > self.limit {
                return false;
            }
            self.used = target;
            true
        } else {
            self.on_free(old_size - new_size);
            true
        }
    }
}

} // verus!
