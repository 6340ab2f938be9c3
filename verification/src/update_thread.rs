//! Messages the simulation loop accepts from the control layer.

use vstd::prelude::*;

verus! {

/// How often the simulation loop polls its control channel, in nanoseconds.
pub const CHANNEL_CHECK_DELAY: u128 = 1_000_000_000 / 60;

/// How long the loop sleeps between checks while paused, in nanoseconds.
pub const IDLE_CHECKS_DELAY: u64 = 1_000_000_000 / 10;

/// The pacing window is re-anchored every this many ticks.
pub const UPS_LIM_RESET_FREQ: u64 = 60;

/// A control message for the simulation loop.
#[derive(Debug, Clone)]
pub enum Message {
    RunSimulation(bool),
    LimitUPS(Option<u32>),
    Stop,
}

} // verus!
