use vstd::prelude::*;

verus! {

/// A point in time, in ticks: `TICKS_PER_UNIT` ticks make one time unit, so
/// that a date of 1.5 units is `1_500`.
pub type Date = u64;
/// A length of time, in ticks.
pub type Duration = u64;
/// A data rate, in volume units per time unit; as `VOLUME_SCALE` equals
/// `TICKS_PER_UNIT`, this is also the number of volume steps sent per tick.
pub type DataRate = u64;
/// An amount of data, in volume steps: `VOLUME_SCALE` steps make one volume
/// unit, so that a size of 50 units is `50_000`.
pub type Volume = u64;

/// The number of ticks in one time unit.
pub const TICKS_PER_UNIT: u64 = 1000;
/// The number of volume steps in one volume unit.
pub const VOLUME_SCALE: u64 = 1000;
/// A bundle priority; a greater value is a higher priority.
pub type Priority = i8;
/// The identifier of a node of the network.
pub type NodeID = u16;

/// The date that stands for "never".
pub const DATE_MAX: Date = 0xffff_ffff_ffff_ffff;

/// `a + b`, or `DATE_MAX` where the sum does not fit in a date.
pub open spec fn sat_add(a: u64, b: u64) -> u64 {
    if a + b > DATE_MAX {
        DATE_MAX
    } else {
        (a + b) as u64
    }
}

/// `a - b`, or `0` where `b > a`.
pub open spec fn sat_sub(a: u64, b: u64) -> u64 {
    if b > a {
        0
    } else {
        (a - b) as u64
    }
}

pub open spec fn max_u64(a: u64, b: u64) -> u64 {
    if a >= b {
        a
    } else {
        b
    }
}

pub open spec fn min_u64(a: u64, b: u64) -> u64 {
    if a <= b {
        a
    } else {
        b
    }
}

/// The greater of two dates.
pub fn date_max(a: Date, b: Date) -> (r: Date)
    ensures
        r == max_u64(a, b),
{
    if a >= b {
        a
    } else {
        b
    }
}

/// The lesser of two dates.
pub fn date_min(a: Date, b: Date) -> (r: Date)
    ensures
        r == min_u64(a, b),
{
    if a <= b {
        a
    } else {
        b
    }
}

} // verus!
