use vstd::prelude::*;

verus! {

/// Length of a simulation tick in nanoseconds (60 Hz).
pub const SIMULATION_DT_NANOS: u128 = 16_666_666u128;

/// Interval between state broadcasts in nanoseconds (30 Hz).
pub const BROADCAST_DT_NANOS: u128 = 33_333_333u128;

} // verus!
