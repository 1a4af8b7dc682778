//! Lanes and their specifications.

use vstd::prelude::*;
use crate::geometry::PolyLine;
use crate::ids::{Direction, DirectedRoadID, IntersectionID, LaneID};
use crate::units::{Distance, RoadWidth};

verus! {

/// What a lane is for.
#[derive(Clone, Copy, Debug, PartialEq, Eq, PartialOrd, Ord, Hash, Structural)]
pub enum LaneType {
    Driving,
    Parking,
    Sidewalk,
    Shoulder,
    Biking,
    Bus,
    SharedLeftTurn,
    Construction,
    LightRail,
    Buffer,
    Footway,
    SharedUse,
}

impl LaneType {
    /// Pedestrians walk on sidewalks, shoulders, footways and shared-use paths.
    pub open spec fn spec_is_walkable(self) -> bool {
        self == LaneType::Sidewalk || self == LaneType::Shoulder || self == LaneType::Footway
            || self == LaneType::SharedUse
    }

    #[verifier::when_used_as_spec(spec_is_walkable)]
    pub fn is_walkable(self) -> (b: bool)
        ensures
            b == self.spec_is_walkable(),
    {
        self == LaneType::Sidewalk || self == LaneType::Shoulder || self == LaneType::Footway
            || self == LaneType::SharedUse
    }

    /// Vehicles move along driving, biking, bus and light rail lanes.
    pub open spec fn spec_is_for_moving_vehicles(self) -> bool {
        self == LaneType::Driving || self == LaneType::Biking || self == LaneType::Bus
            || self == LaneType::LightRail
    }

    #[verifier::when_used_as_spec(spec_is_for_moving_vehicles)]
    pub fn is_for_moving_vehicles(self) -> (b: bool)
        ensures
            b == self.spec_is_for_moving_vehicles(),
    {
        self == LaneType::Driving || self == LaneType::Biking || self == LaneType::Bus
            || self == LaneType::LightRail
    }
}

/// Who may use a lane. Used to pick the lane that serves a transit stop or a
/// parking lot.
#[derive(Clone, Copy, Debug, PartialEq, Eq, PartialOrd, Ord, Hash, Structural)]
pub enum PathConstraints {
    Pedestrian,
    Car,
    Bike,
    Bus,
    Train,
}

impl PathConstraints {
    /// Whether traffic of this kind may travel along a lane of the given type.
    pub open spec fn spec_can_use(self, lt: LaneType) -> bool {
        match self {
            PathConstraints::Pedestrian => lt.spec_is_walkable(),
            PathConstraints::Car => lt == LaneType::Driving,
            PathConstraints::Bike => lt == LaneType::Driving || lt == LaneType::Biking
                || lt == LaneType::SharedUse,
            PathConstraints::Bus => lt == LaneType::Driving || lt == LaneType::Bus,
            PathConstraints::Train => lt == LaneType::LightRail,
        }
    }

    #[verifier::when_used_as_spec(spec_can_use)]
    pub fn can_use(self, lt: LaneType) -> (b: bool)
        ensures
            b == self.spec_can_use(lt),
    {
        match self {
            PathConstraints::Pedestrian => lt.is_walkable(),
            PathConstraints::Car => lt == LaneType::Driving,
            PathConstraints::Bike => lt == LaneType::Driving || lt == LaneType::Biking
                || lt == LaneType::SharedUse,
            PathConstraints::Bus => lt == LaneType::Driving || lt == LaneType::Bus,
            PathConstraints::Train => lt == LaneType::LightRail,
        }
    }
}

/// The editable description of one lane: its type, direction and width.
#[derive(Clone, Copy, Debug, PartialEq, Eq, Hash, Structural)]
pub struct LaneSpec {
    pub lt: LaneType,
    pub dir: Direction,
    pub width: Distance,
}

/// The sum of the widths of some lanes.
pub open spec fn total_width(specs: Seq<LaneSpec>) -> nat
    decreases specs.len(),
{
    if specs.len() == 0 {
        0
    } else {
        total_width(specs.drop_last()) + specs.last().width.0 as nat
    }
}

/// The sum of lane widths is bounded by the number of lanes.
pub proof fn lemma_total_width_bound(specs: Seq<LaneSpec>)
    ensures
        total_width(specs) <= specs.len() * 0xffff_ffff,
    decreases specs.len(),
{
    if specs.len() > 0 {
        lemma_total_width_bound(specs.drop_last());
        assert(specs.len() * 0xffff_ffff == (specs.len() - 1) * 0xffff_ffff + 0xffff_ffff)
            by (nonlinear_arith);
    }
}

/// Adds up the widths of the lanes of a road.
pub fn sum_widths(specs: &Vec<LaneSpec>) -> (w: RoadWidth)
    ensures
        w.0 == total_width(specs@),
{
    let mut sum: u128 = 0;
    let mut k: usize = 0;
    while k < specs.len()
        invariant
            k <= specs.len(),
            sum == total_width(specs@.take(k as int)),
        decreases specs.len() - k,
    {
        proof {
            lemma_total_width_bound(specs@.take(k as int));
            assert(specs@.take(k as int).len() * 0xffff_ffff <= 0xffff_ffff_ffff_ffff * 0xffff_ffff)
                by (nonlinear_arith)
                requires
                    specs@.take(k as int).len() <= 0xffff_ffff_ffff_ffff,
            ;
            assert(specs@.take(k + 1).drop_last() =~= specs@.take(k as int));
        }
        sum = sum + specs[k].width.0 as u128;
        k = k + 1;
    }
    proof {
        assert(specs@.take(k as int) =~= specs@);
    }
    RoadWidth(sum)
}

/// One lane of a road, as it currently stands in the map.
pub struct Lane {
    pub id: LaneID,
    pub lane_type: LaneType,
    pub dir: Direction,
    pub width: Distance,
    /// The intersection that the lane leaves.
    pub src_i: IntersectionID,
    /// The intersection that the lane leads to.
    pub dst_i: IntersectionID,
    /// The line along the middle of the lane, in its direction of travel.
    pub lane_center_pts: PolyLine,
    /// No complete trip by car can be made from this lane.
    pub driving_blackhole: bool,
    /// No complete trip by bike can be made from this lane.
    pub biking_blackhole: bool,
}

impl Lane {
    /// Whether the two lanes differ at most in their blackhole marks.
    pub open spec fn same_but_blackholes(&self, other: &Lane) -> bool {
        &&& self.id == other.id
        &&& self.lane_type == other.lane_type
        &&& self.dir == other.dir
        &&& self.width == other.width
        &&& self.src_i == other.src_i
        &&& self.dst_i == other.dst_i
        &&& self.lane_center_pts == other.lane_center_pts
    }

    /// The editable description of this lane.
    pub open spec fn spec_of(self) -> LaneSpec {
        LaneSpec { lt: self.lane_type, dir: self.dir, width: self.width }
    }

    /// The editable description of this lane.
    pub fn spec(&self) -> (s: LaneSpec)
        ensures
            s == self.spec_of(),
    {
        LaneSpec { lt: self.lane_type, dir: self.dir, width: self.width }
    }

    /// The road and direction that this lane belongs to.
    pub open spec fn directed_parent(self) -> DirectedRoadID {
        DirectedRoadID { road: self.id.road, dir: self.dir }
    }

    /// The road and direction that this lane belongs to.
    pub fn get_directed_parent(&self) -> (d: DirectedRoadID)
        ensures
            d == self.directed_parent(),
    {
        DirectedRoadID { road: self.id.road, dir: self.dir }
    }
}

} // verus!
