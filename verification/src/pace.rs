//! How fast a run goes.

use crate::config::WorldConfig;
use vstd::prelude::*;

verus! {

#[derive(Debug, Clone, Copy, PartialEq, Eq, Structural)]
pub enum SpeedMode {
    /// The tick waits for its answers, so a small population can be studied
    /// closely.
    Deep,
    /// The default watching experience.
    Observe,
    /// No deliberation and no rendering pressure: skip ahead days.
    FastForward,
    /// The whole budget spent on one lineage.
    Focus,
}

impl SpeedMode {
    pub open spec fn interval(self, deliberating: bool) -> Option<u64> {
        match self {
            SpeedMode::Deep => Some(
                if deliberating {
                    2_000
                } else {
                    500
                },
            ),
            SpeedMode::Observe => Some(
                if deliberating {
                    1_000
                } else {
                    140
                },
            ),
            SpeedMode::Focus => Some(
                if deliberating {
                    700
                } else {
                    220
                },
            ),
            SpeedMode::FastForward => None,
        }
    }

    /// How long a tick should take in wall clock, in milliseconds. Skipping ahead
    /// is not paced at all.
    pub fn tick_interval(self, deliberating: bool) -> (r: Option<u64>)
        ensures
            r == self.interval(deliberating),
    {
        match self {
            SpeedMode::Deep => Some(
                if deliberating {
                    2_000
                } else {
                    500
                },
            ),
            SpeedMode::Observe => Some(
                if deliberating {
                    1_000
                } else {
                    140
                },
            ),
            SpeedMode::Focus => Some(
                if deliberating {
                    700
                } else {
                    220
                },
            ),
            SpeedMode::FastForward => None,
        }
    }
}

/// A world that waits for answers is never paced faster than one that does not.
pub proof fn law_deliberating_is_slower(mode: SpeedMode)
    ensures
        mode.interval(true) is Some == mode.interval(false) is Some,
        mode.interval(true) matches Some(ms) ==> ms > mode.interval(false)->Some_0,
{
}

/// How many creatures a run starts with.
pub fn creature_budget(cfg: &WorldConfig) -> (n: u32)
    ensures
        n == match cfg.bench.initial_creatures {
            Some(n) => n,
            None => cfg.map.founder_count,
        },
{
    match cfg.bench.initial_creatures {
        Some(n) => n,
        None => cfg.map.founder_count,
    }
}

/// The deepest mode is the slowest, watching the quickest of those that keep time, and
/// fast forward keeps none.
pub proof fn law_the_deepest_is_slowest()
    ensures
        SpeedMode::FastForward.interval(true) is None && SpeedMode::FastForward.interval(false) is None,
        SpeedMode::Deep.interval(false)->0 > SpeedMode::Focus.interval(false)->0,
        SpeedMode::Focus.interval(false)->0 > SpeedMode::Observe.interval(false)->0,
        SpeedMode::Deep.interval(true)->0 > SpeedMode::Observe.interval(true)->0,
        SpeedMode::Observe.interval(true)->0 > SpeedMode::Focus.interval(true)->0,
        SpeedMode::Observe.interval(false) == Some(140u64) && SpeedMode::Observe.interval(true) == Some(1000u64),
        SpeedMode::Focus.interval(false) == Some(220u64) && SpeedMode::Focus.interval(true) == Some(700u64),
        SpeedMode::Deep.interval(false) == Some(500u64) && SpeedMode::Deep.interval(true) == Some(2000u64),
{
}

} // verus!
