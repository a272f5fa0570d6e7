//! The polling schedule: which ticks fall on whole-minute boundaries, and
//! how many minutes have elapsed at a tick.

use vstd::prelude::*;

verus! {

/// Seconds in one minute.
pub const ONE_MINUTE: u8 = 60;

/// Whether tick `i`, at `interval` seconds per tick, falls on a whole
/// elapsed minute.
pub fn is_every_minute(i: u32, interval: u8) -> (r: bool)
    requires
        1 <= interval <= ONE_MINUTE,
    ensures
        r == (i as int % (ONE_MINUTE as int / interval as int) == 0),
{
    proof {
        assert(ONE_MINUTE as int / interval as int >= 1) by (nonlinear_arith)
            requires
                1 <= interval <= ONE_MINUTE,
        ;
    }
    i % (ONE_MINUTE / interval) as u32 == 0
}

/// The whole minutes elapsed by tick `i`, at `interval` seconds per tick.
pub fn elapsed_minute(i: u32, interval: u8) -> (r: u32)
    requires
        1 <= interval <= ONE_MINUTE,
    ensures
        r == i as int / (ONE_MINUTE as int / interval as int),
{
    proof {
        assert(ONE_MINUTE as int / interval as int >= 1) by (nonlinear_arith)
            requires
                1 <= interval <= ONE_MINUTE,
        ;
    }
    i / (ONE_MINUTE / interval) as u32
}

} // verus!
