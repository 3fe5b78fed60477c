//! Control of the detailed timing statistics.

use vstd::prelude::*;

verus! {

/// Whether detailed timing statistics are collected; off at first.
#[derive(Debug)]
pub struct StatsFlag {
    enabled: bool,
}

impl StatsFlag {
    pub closed spec fn is_on(&self) -> bool {
        self.enabled
    }

    /// Statistics off.
    pub fn new() -> (f: StatsFlag)
        ensures
            !f.is_on(),
    {
        StatsFlag { enabled: false }
    }
}

/// Enable or disable the collection of statistics.
pub fn set_stats_enabled(flag: &mut StatsFlag, enabled: bool)
    ensures
        final(flag).is_on() == enabled,
{
    flag.enabled = enabled;
}

/// Whether statistics are collected.
pub fn is_stats_enabled(flag: &StatsFlag) -> (r: bool)
    ensures
        r == flag.is_on(),
{
    flag.enabled
}

} // verus!
