//! What the engine asks of its surroundings.
//!
//! The engine never computes a shape and never searches for a path. It asks a
//! [`Geometry`] and a [`Pathfinder`] that the caller supplies. Nothing is
//! assumed of their answers: the engine checks each answer before it stores it,
//! and everything proved of the engine holds whatever they answer.

use vstd::prelude::*;
use crate::geometry::{PolyLine, Polygon, Position, Pt2D};
use crate::ids::{Direction, IntersectionID, LaneID, RoadID, SideOfRoad};
use crate::lane::PathConstraints;
use crate::map::StreetMap;
use crate::turn::Turn;
use crate::units::{Distance, RoadWidth};

verus! {

/// One road as it is handed to [`Geometry::intersection_polygon`].
pub struct InputRoad {
    pub id: RoadID,
    /// The centerline, reaching into the intersection.
    pub center_pts: PolyLine,
    pub half_width: RoadWidth,
    pub osm_tags: Vec<(String, String)>,
}

/// The shape of an intersection, and the centerlines of its roads cut back to
/// where that shape begins.
pub struct IntersectionGeometry {
    pub polygon: Polygon,
    pub trimmed_center_pts: Vec<(RoadID, PolyLine)>,
}

/// One end of a road.
#[derive(Clone, Copy, Debug, PartialEq, Eq, Hash, Structural)]
pub enum RoadEnd {
    /// Where the centerline starts.
    Src,
    /// Where the centerline ends.
    Dst,
}

/// The geometric computations that the engine needs.
pub trait Geometry {
    /// A shape for the intersection where the given roads meet, and for each of
    /// the roads its centerline cut back to that shape. `None` if there is no
    /// such shape.
    fn intersection_polygon(&self, i: IntersectionID, roads: &Vec<InputRoad>) -> (r: Option<
        IntersectionGeometry,
    >);

    /// The cut-back centerline `trimmed` lengthened again, at the given end,
    /// along the line `untrimmed` that it was cut from. `None` if `trimmed`
    /// does not lie on `untrimmed`.
    fn untrim(&self, trimmed: &PolyLine, untrimmed: &PolyLine, end: RoadEnd) -> (r: Option<
        PolyLine,
    >);

    /// The line along the middle of a lane. The road has the given centerline
    /// and total width, and the middle of the lane lies `from_left` from the
    /// road's left edge.
    fn lane_center_line(
        &self,
        road_center: &PolyLine,
        total_width: RoadWidth,
        from_left: RoadWidth,
        dir: Direction,
    ) -> (r: PolyLine);

    /// The turns that the lanes meeting at an intersection allow.
    fn make_all_turns(&self, map: &StreetMap, i: IntersectionID) -> (r: Vec<Turn>);

    /// The place nearest to `pt` on a lane that `who` may use. It is no nearer
    /// than `buffer` to either end of the lane and no further than `max_dist`
    /// from `pt`. `None` if there is no such place.
    fn snap_to_lane(
        &self,
        map: &StreetMap,
        pt: Pt2D,
        who: PathConstraints,
        buffer: Distance,
        max_dist: Distance,
    ) -> (r: Option<Position>);

    /// The line from the middle of a shape to a place on a lane, starting at
    /// the edge of the shape. `None` if the two coincide.
    fn driveway(&self, map: &StreetMap, center: Pt2D, shape: &Polygon, to: Position) -> (r: Option<
        PolyLine,
    >);

    /// The place on another lane of the same road that lies beside `pos`.
    fn equiv_pos(&self, map: &StreetMap, pos: Position, lane: LaneID) -> (r: Distance);

    /// The edge of a road on the given side: its centerline moved sideways by
    /// half the width of the road. `None` if the line cannot be moved so far.
    fn road_edge(&self, road_center: &PolyLine, half_width: RoadWidth, side: SideOfRoad) -> (r:
        Option<PolyLine>);

    /// The part of the outline of a shape between two points on it, the
    /// longer of the two parts if `longer`. `None` if a point is not on the
    /// outline.
    fn ring_slice(&self, shape: &Polygon, from: Pt2D, to: Pt2D, longer: bool) -> (r: Option<
        Vec<Pt2D>,
    >);

    /// The shape with the given points as its outline. `None` if they do not
    /// form an outline: if there are too few, or one comes twice.
    fn make_ring(&self, pts: Vec<Pt2D>) -> (r: Option<Polygon>);
}

/// The search for paths through the map.
pub trait Pathfinder {
    /// Prepares the search for the map as it stands now.
    fn rebuild(&mut self, map: &StreetMap);
}

} // verus!
