//! Identifiers of the objects of a street map.
//!
//! Every object lives in an arena owned by the map, and objects refer to each
//! other by these small integer identifiers.

use vstd::prelude::*;

verus! {

/// A road: index into the map's road arena.
#[derive(Clone, Copy, Debug, PartialEq, Eq, PartialOrd, Ord, Hash, Structural)]
pub struct RoadID(pub usize);

/// An intersection: index into the map's intersection arena.
#[derive(Clone, Copy, Debug, PartialEq, Eq, PartialOrd, Ord, Hash, Structural)]
pub struct IntersectionID(pub usize);

/// A building: index into the map's building arena.
#[derive(Clone, Copy, Debug, PartialEq, Eq, PartialOrd, Ord, Hash, Structural)]
pub struct BuildingID(pub usize);

/// A parking lot: index into the map's parking lot arena.
#[derive(Clone, Copy, Debug, PartialEq, Eq, PartialOrd, Ord, Hash, Structural)]
pub struct ParkingLotID(pub usize);

/// A transit route: index into the map's route arena.
#[derive(Clone, Copy, Debug, PartialEq, Eq, PartialOrd, Ord, Hash, Structural)]
pub struct TransitRouteID(pub usize);

/// A transit stop: index into the map's stop arena.
#[derive(Clone, Copy, Debug, PartialEq, Eq, PartialOrd, Ord, Hash, Structural)]
pub struct TransitStopID(pub usize);

/// A lane is named by its road and its position in the road, counted from the
/// left.
#[derive(Clone, Copy, Debug, PartialEq, Eq, PartialOrd, Ord, Hash, Structural)]
pub struct LaneID {
    pub road: RoadID,
    pub offset: usize,
}

/// A turn leads from one lane to another through its parent intersection.
#[derive(Clone, Copy, Debug, PartialEq, Eq, PartialOrd, Ord, Hash, Structural)]
pub struct TurnID {
    pub parent: IntersectionID,
    pub src: LaneID,
    pub dst: LaneID,
}

/// The direction of travel along a road, relative to the order of its
/// centerline.
#[derive(Clone, Copy, Debug, PartialEq, Eq, PartialOrd, Ord, Hash, Structural)]
pub enum Direction {
    Fwd,
    Back,
}

/// One direction of one road.
#[derive(Clone, Copy, Debug, PartialEq, Eq, PartialOrd, Ord, Hash, Structural)]
pub struct DirectedRoadID {
    pub road: RoadID,
    pub dir: Direction,
}

/// A movement groups the turns at one intersection that lead from one directed
/// road to another. Pedestrian crossings form movements of their own.
#[derive(Clone, Copy, Debug, PartialEq, Eq, PartialOrd, Ord, Hash, Structural)]
pub struct MovementID {
    pub from: DirectedRoadID,
    pub to: DirectedRoadID,
    pub parent: IntersectionID,
    pub crosswalk: bool,
}

/// One side of a road.
#[derive(Clone, Copy, Debug, PartialEq, Eq, PartialOrd, Ord, Hash, Structural)]
pub enum SideOfRoad {
    Right,
    Left,
}

/// One side of one road.
#[derive(Clone, Copy, Debug, PartialEq, Eq, PartialOrd, Ord, Hash, Structural)]
pub struct RoadSideID {
    pub road: RoadID,
    pub side: SideOfRoad,
}

} // verus!
