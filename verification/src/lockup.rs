//! The lockup record.

use vstd::prelude::*;

verus! {

/// A locked token balance: an amount, a lock duration in nanoseconds, and the
/// lock's start time in nanoseconds.
#[derive(Clone, Copy, PartialEq, Eq, Structural, Debug)]
pub struct Lockup {
    pub amount: u128,
    pub duration_ns: u64,
    pub timestamp: u64,
}

impl Lockup {
    /// The earliest time withdrawal of this lockup is permitted.
    pub open spec fn release_time(self) -> int {
        self.timestamp + self.duration_ns
    }

    /// The release time fits in 64-bit nanoseconds.
    pub open spec fn release_fits(self) -> bool {
        self.timestamp + self.duration_ns <= u64::MAX
    }
}

} // verus!
