//! Physical quantities in fixed point.
//!
//! All quantities are whole numbers of ten-thousandths of their unit, which is
//! the precision that the map keeps.

use vstd::prelude::*;

verus! {

/// A length, in ten-thousandths of a metre.
#[derive(Clone, Copy, Debug, PartialEq, Eq, PartialOrd, Ord, Hash, Structural)]
pub struct Distance(pub u32);

/// A speed, in ten-thousandths of a metre per second.
#[derive(Clone, Copy, Debug, PartialEq, Eq, PartialOrd, Ord, Hash, Structural)]
pub struct Speed(pub u32);

/// A time of day, in ten-thousandths of a second since midnight.
#[derive(Clone, Copy, Debug, PartialEq, Eq, PartialOrd, Ord, Hash, Structural)]
pub struct Time(pub u64);

/// A span of time, in ten-thousandths of a second.
#[derive(Clone, Copy, Debug, PartialEq, Eq, PartialOrd, Ord, Hash, Structural)]
pub struct Duration(pub u64);

/// The width of a whole road, in ten-thousandths of a metre. It is wide enough
/// to hold the sum of the widths of any number of lanes.
#[derive(Clone, Copy, Debug, PartialEq, Eq, PartialOrd, Ord, Hash, Structural)]
pub struct RoadWidth(pub u128);

impl Distance {
    /// A whole number of metres.
    pub fn meters(m: u32) -> (d: Distance)
        requires
            m <= 429_496,
        ensures
            d.0 == m * 10_000,
    {
        Distance(m * 10_000)
    }
}

impl RoadWidth {
    /// Half of this width, rounded down.
    pub fn half(self) -> (h: RoadWidth)
        ensures
            h.0 == self.0 / 2,
    {
        RoadWidth(self.0 / 2)
    }
}

} // verus!
