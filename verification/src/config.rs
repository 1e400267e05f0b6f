//! The settings of the navigation that can be changed while the game runs.

use vstd::prelude::*;

verus! {

/// Settings read on every frame.
#[derive(Clone, Copy, Debug, PartialEq, Eq, Structural)]
pub struct Config {
    /// Smooth out the flowfield at tiles that have a direct sight line to the target
    pub flowfield_smooth: bool,
    /// Above this cost a remembered flow is taken as it is
    pub flow_cost_threshold: u32,
    /// How long one pass of the wave over the entire cost grid takes, in
    /// nanoseconds
    pub nanos_per_iter: u64,
    /// How many pursuers may be alive at once
    pub max_chasers: usize,
}

impl Default for Config {
    fn default() -> (config: Config)
        ensures
            config.flowfield_smooth,
            config.flow_cost_threshold == 150,
            config.nanos_per_iter == 400_000_000,
            config.max_chasers == 5000,
    {
        Config {
            flowfield_smooth: true,
            flow_cost_threshold: 150,
            nanos_per_iter: 400_000_000,
            max_chasers: 5000,
        }
    }
}

} // verus!
