//! Counters of what the filter was asked and what it answered.

use vstd::prelude::*;

verus! {

/// The counters of a filter. Each stops at the largest number it can hold.
#[derive(Clone, Copy, Debug, PartialEq, Eq, Structural)]
pub struct FilterStatistics {
    /// How many times a name was entered as blocked.
    pub blocked_entries: u64,
    /// How many times a name was entered as allowed.
    pub allowed_entries: u64,
    /// How many names were checked.
    pub checked: u64,
    /// How many of the names checked were blocked.
    pub blocked: u64,
}

/// A counter one higher, unless it has reached its end.
pub open spec fn counted(counter: u64) -> u64 {
    if counter < u64::MAX {
        (counter + 1) as u64
    } else {
        counter
    }
}

/// The counters after a name was checked and found blocked or not.
pub open spec fn after_check(statistics: FilterStatistics, blocked: bool) -> FilterStatistics {
    FilterStatistics {
        checked: counted(statistics.checked),
        blocked: if blocked {
            counted(statistics.blocked)
        } else {
            statistics.blocked
        },
        ..statistics
    }
}

/// A counter one higher, unless it has reached its end.
pub fn count_up(counter: u64) -> (next: u64)
    ensures
        next == counted(counter),
{
    if counter < u64::MAX {
        counter + 1
    } else {
        counter
    }
}

impl FilterStatistics {
    /// Counters at 0.
    pub fn new() -> (statistics: FilterStatistics)
        ensures
            statistics == (FilterStatistics {
                blocked_entries: 0,
                allowed_entries: 0,
                checked: 0,
                blocked: 0,
            }),
    {
        FilterStatistics { blocked_entries: 0, allowed_entries: 0, checked: 0, blocked: 0 }
    }

    /// Counts a check and its outcome.
    pub fn count_check(&mut self, blocked: bool)
        ensures
            *final(self) == after_check(*old(self), blocked),
    {
        self.checked = count_up(self.checked);
        if blocked {
            self.blocked = count_up(self.blocked);
        }
    }
}

} // verus!
