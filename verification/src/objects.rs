//! What stands beside the roads: buildings, parking lots, transit stops and
//! the routes that serve them.

use vstd::prelude::*;
use crate::geometry::{PolyLine, Polygon, Position, Pt2D};
use crate::ids::{BuildingID, ParkingLotID, TransitRouteID, TransitStopID};
use crate::units::Time;

verus! {

/// A building, connected to a walkable lane by its driveway.
pub struct Building {
    pub id: BuildingID,
    pub polygon: Polygon,
    /// The middle of the building, from where the driveway is drawn.
    pub center: Pt2D,
    /// Where the driveway meets the walkable lane.
    pub sidewalk_pos: Position,
    pub driveway_geom: PolyLine,
}

/// A parking lot, connected both to a walkable lane and to a driving lane.
pub struct ParkingLot {
    pub id: ParkingLotID,
    pub polygon: Polygon,
    /// The middle of the lot, from where its connections are drawn.
    pub center: Pt2D,
    pub driveway_line: PolyLine,
    pub driving_pos: Position,
    pub sidewalk_line: PolyLine,
    pub sidewalk_pos: Position,
}

/// A place where transit vehicles stop beside a road.
pub struct TransitStop {
    pub id: TransitStopID,
    /// Where the vehicle stops.
    pub driving_pos: Position,
    /// Where the passengers wait.
    pub sidewalk_pos: Position,
    pub is_train_stop: bool,
}

impl TransitStop {
    /// Whether this is the stop `other`, with the same place for its
    /// passengers and the same kind of vehicle: only the place where the
    /// vehicles stop may differ.
    pub open spec fn keeps_place(&self, other: &TransitStop) -> bool {
        &&& self.id == other.id
        &&& self.sidewalk_pos == other.sidewalk_pos
        &&& self.is_train_stop == other.is_train_stop
    }
}

/// A transit route with the times at which its vehicles set out.
pub struct TransitRoute {
    pub id: TransitRouteID,
    pub short_name: String,
    pub spawn_times: Vec<Time>,
    /// The times that the route was imported with.
    pub orig_spawn_times: Vec<Time>,
}

} // verus!
