//! The map itself.

use vstd::prelude::*;
use crate::edits::log::MapEdits;
use crate::edits::{EditCmd, EditIntersectionView, EditRoadView};
use crate::ids::{IntersectionID, LaneID, RoadID, TransitRouteID};
use crate::intersection::Intersection;
use crate::objects::{Building, ParkingLot, TransitRoute, TransitStop};
use crate::road::Road;
use crate::turn::Turn;
use crate::units::Time;
use crate::zone::Zone;

verus! {

/// A street map: roads, intersections and what stands beside them, each in an
/// arena of its own, and the edits that have been applied to the map.
pub struct StreetMap {
    /// The city that the map is a part of.
    pub city: String,
    pub roads: Vec<Road>,
    pub intersections: Vec<Intersection>,
    pub buildings: Vec<Building>,
    pub parking_lots: Vec<ParkingLot>,
    pub transit_stops: Vec<TransitStop>,
    pub transit_routes: Vec<TransitRoute>,
    /// The groups of restricted roads.
    pub zones: Vec<Zone>,
    /// The edits that are applied to the map.
    pub edits: MapEdits,
    /// Counts the transactions that changed the map.
    pub edits_generation: usize,
    /// Whether the map has changed since the search for paths was last
    /// prepared.
    pub pathfinder_dirty: bool,
}

/// Whether the lane exists among the roads.
pub open spec fn lane_in(roads: Seq<Road>, l: LaneID) -> bool {
    l.road.0 < roads.len() && l.offset < roads[l.road.0 as int].lanes.len()
}

/// Whether the road exists and ends at the intersection.
pub open spec fn road_touches(roads: Seq<Road>, r: RoadID, i: IntersectionID) -> bool {
    r.0 < roads.len() && (roads[r.0 as int].src_i == i || roads[r.0 as int].dst_i == i)
}

/// Whether a turn belongs to intersection `i` and joins two existing lanes of
/// roads that end there.
pub open spec fn turn_fits_roads(roads: Seq<Road>, t: Turn, i: IntersectionID) -> bool {
    &&& t.id.parent == i
    &&& lane_in(roads, t.id.src)
    &&& road_touches(roads, t.id.src.road, i)
    &&& lane_in(roads, t.id.dst)
    &&& road_touches(roads, t.id.dst.road, i)
}

impl StreetMap {
    /// Whether the map has a road of this name.
    pub open spec fn has_road(&self, r: RoadID) -> bool {
        r.0 < self.roads.len()
    }

    /// Whether the map has an intersection of this name.
    pub open spec fn has_intersection(&self, i: IntersectionID) -> bool {
        i.0 < self.intersections.len()
    }

    /// Whether the map has a transit route of this name.
    pub open spec fn has_route(&self, id: TransitRouteID) -> bool {
        id.0 < self.transit_routes.len()
    }

    /// Whether the map has a lane of this name.
    pub open spec fn has_lane(&self, l: LaneID) -> bool {
        lane_in(self.roads@, l)
    }

    /// Whether the road exists and ends at the intersection.
    pub open spec fn touches(&self, r: RoadID, i: IntersectionID) -> bool {
        road_touches(self.roads@, r, i)
    }

    /// Whether a turn belongs to the intersection and joins two existing lanes
    /// of roads that end there.
    pub open spec fn turn_ok(&self, t: Turn, i: IntersectionID) -> bool {
        turn_fits_roads(self.roads@, t, i)
    }

    /// Whether road number `r` is sound: it carries its own name, its ends
    /// exist and list the road, and its lanes are numbered from the left.
    pub open spec fn road_ok(&self, r: int) -> bool {
        let road = self.roads[r];
        &&& road.id == RoadID(r as usize)
        &&& self.has_intersection(road.src_i)
        &&& self.has_intersection(road.dst_i)
        &&& self.intersections[road.src_i.0 as int].roads@.contains(road.id)
        &&& self.intersections[road.dst_i.0 as int].roads@.contains(road.id)
        &&& road.lanes_numbered()
    }

    /// Whether intersection number `i` is sound but for the lanes of its
    /// turns: it carries its own name, every road listed there ends there and
    /// is listed once, its turns name it as their intersection, and a border
    /// has no turns.
    pub open spec fn intersection_ok(&self, i: int) -> bool {
        let x = self.intersections[i];
        &&& x.id == IntersectionID(i as usize)
        &&& forall|k: int| 0 <= k < x.roads.len() ==> self.touches(#[trigger] x.roads[k], x.id)
        &&& x.roads@.no_duplicates()
        &&& forall|k: int| 0 <= k < x.turns.len() ==> (#[trigger] x.turns[k]).id.parent == x.id
        &&& x.spec_is_border() ==> x.turns.len() == 0
    }

    /// Whether intersection `t.parent` has a turn named `t`.
    pub open spec fn has_turn_named(&self, t: crate::ids::TurnID) -> bool {
        self.has_intersection(t.parent) && crate::turn::has_turn(
            self.intersections[t.parent.0 as int].turns@,
            t,
        )
    }

    /// Whether the turns and stop signs of intersection number `i` are sound:
    /// each turn joins existing lanes of roads that end there, no two turns
    /// have the same name, a closed intersection has no turns, and stop signs
    /// are the ones that follow
    /// from the roads and their lanes (see
    /// [`crate::policy::default_stop_sign`]).
    pub open spec fn turns_ok(&self, i: int) -> bool {
        let x = self.intersections[i];
        &&& forall|k: int| 0 <= k < x.turns.len() ==> self.turn_ok(#[trigger] x.turns[k], x.id)
        &&& crate::turn::distinct_names(x.turns@)
        &&& x.spec_is_closed() ==> x.turns.len() == 0
        &&& match x.control {
            crate::intersection::Control::StopSign(ss) => ss@ == crate::policy::default_stop_sign(
                self.roads@,
                x.roads@,
                x.id,
            ),
            crate::intersection::Control::Uncontrolled(ss) => ss@
                == crate::policy::default_stop_sign(self.roads@, x.roads@, x.id),
            _ => true,
        }
    }

    /// Whether a command names a target that the map has. An intersection
    /// that is a target is no border, and a command that changes crossings
    /// names no turn twice: see [`crate::edits::EditCrosswalks::wf`].
    pub open spec fn has_target(&self, cmd: EditCmd) -> bool {
        match cmd {
            EditCmd::ChangeRoad { r, .. } => self.has_road(r),
            EditCmd::ChangeIntersection { i, .. } => self.has_intersection(i)
                && !self.intersections[i.0 as int].spec_is_border(),
            EditCmd::ChangeRouteSchedule { id, .. } => self.has_route(id),
            EditCmd::ChangeCrosswalks { i, old, new } => self.has_intersection(i) && old.wf()
                && new.wf(),
        }
    }

    /// Whether every command of a log names a target that the map has.
    pub open spec fn has_targets(&self, cmds: Seq<EditCmd>) -> bool {
        forall|k: int| 0 <= k < cmds.len() ==> self.has_target(#[trigger] cmds[k])
    }

    /// Whether every road ends at intersections that the map has and every
    /// intersection lists roads that the map has. A sound map is so.
    pub open spec fn refs_ok(&self) -> bool {
        &&& forall|r: int|
            0 <= r < self.roads.len() ==> self.has_intersection((#[trigger] self.roads[r]).src_i)
                && self.has_intersection(self.roads[r].dst_i)
        &&& forall|i: int, k: int|
            0 <= i < self.intersections.len() && 0 <= k < self.intersections[i].roads.len()
                ==> self.has_road(#[trigger] self.intersections[i].roads[k])
    }

    /// The roads and intersections of a sound map name each other rightly.
    pub proof fn lemma_refs_ok(&self)
        requires
            self.base_ok(),
        ensures
            self.refs_ok(),
    {
        assert forall|r: int| 0 <= r < self.roads.len() implies self.has_intersection(
            (#[trigger] self.roads[r]).src_i,
        ) && self.has_intersection(self.roads[r].dst_i) by {
            assert(self.road_ok(r));
        }
        assert forall|i: int, k: int|
            0 <= i < self.intersections.len() && 0 <= k
                < self.intersections[i].roads.len() implies self.has_road(
            #[trigger] self.intersections[i].roads[k],
        ) by {
            assert(self.intersection_ok(i));
            assert(self.touches(self.intersections[i].roads[k], self.intersections[i].id));
        }
    }

    /// Whether every road and every intersection of the map is sound: see
    /// [`StreetMap::road_ok`] and [`StreetMap::intersection_ok`].
    pub open spec fn parts_ok(&self) -> bool {
        &&& forall|r: int| 0 <= r < self.roads.len() ==> #[trigger] self.road_ok(r)
        &&& forall|i: int| 0 <= i < self.intersections.len() ==> #[trigger] self.intersection_ok(i)
    }

    /// Whether the roads and intersections of the map are sound and the
    /// applied commands name targets that the map has. This says nothing of
    /// the turns: see [`StreetMap::wf`].
    pub open spec fn base_ok(&self) -> bool {
        &&& forall|r: int| 0 <= r < self.roads.len() ==> #[trigger] self.road_ok(r)
        &&& forall|i: int| 0 <= i < self.intersections.len() ==> #[trigger] self.intersection_ok(i)
        &&& self.has_targets(self.edits.commands@)
    }

    /// Whether the map is sound. Every function that changes the map keeps it
    /// so.
    pub open spec fn wf(&self) -> bool {
        &&& self.base_ok()
        &&& forall|i: int| 0 <= i < self.intersections.len() ==> #[trigger] self.turns_ok(i)
    }

    /// Whether this map came from `old` by edits: the roads, intersections
    /// and transit routes are the same in number and name, every road runs
    /// between the same intersections and has the state it was imported with,
    /// every intersection joins the same roads, and borders are the same.
    pub open spec fn edited_from(&self, old: &StreetMap) -> bool {
        &&& self.city == old.city
        &&& self.roads.len() == old.roads.len()
        &&& forall|q: int|
            0 <= q < self.roads.len() ==> (#[trigger] self.roads[q]).same_but_state(&old.roads[q])
        &&& self.intersections.len() == old.intersections.len()
        &&& forall|j: int|
            0 <= j < self.intersections.len() ==> {
                &&& (#[trigger] self.intersections[j]).id == old.intersections[j].id
                &&& self.intersections[j].roads == old.intersections[j].roads
                &&& self.intersections[j].spec_is_border() == old.intersections[j].spec_is_border()
            }
        &&& self.transit_routes.len() == old.transit_routes.len()
        &&& forall|k: int|
            0 <= k < self.transit_routes.len() ==> {
                &&& (#[trigger] self.transit_routes[k]).id == old.transit_routes[k].id
                &&& self.transit_routes[k].short_name == old.transit_routes[k].short_name
                &&& self.transit_routes[k].orig_spawn_times
                    == old.transit_routes[k].orig_spawn_times
            }
        &&& self.buildings.len() == old.buildings.len()
        &&& self.parking_lots.len() == old.parking_lots.len()
        &&& self.transit_stops.len() == old.transit_stops.len()
    }

    /// The editable state of every road.
    pub open spec fn road_states(&self) -> Seq<EditRoadView> {
        Seq::new(self.roads@.len(), |r: int| self.roads[r].edit_state())
    }

    /// The state that every road was imported with.
    pub open spec fn road_baselines(&self) -> Seq<EditRoadView> {
        Seq::new(self.roads@.len(), |r: int| self.roads[r].orig@)
    }

    /// The editable state of every intersection.
    pub open spec fn intersection_states(&self) -> Seq<EditIntersectionView> {
        Seq::new(self.intersections@.len(), |i: int| self.intersections[i].edit_state())
    }

    /// The crossings of every intersection, with their types.
    pub open spec fn crosswalk_states(&self) -> Seq<Set<Turn>> {
        Seq::new(self.intersections@.len(), |i: int| self.intersections[i].crosswalks())
    }

    /// The schedule of every transit route.
    pub open spec fn schedules(&self) -> Seq<Seq<Time>> {
        Seq::new(self.transit_routes@.len(), |k: int| self.transit_routes[k].spawn_times@)
    }

    /// The schedule that every transit route was imported with.
    pub open spec fn schedule_baselines(&self) -> Seq<Seq<Time>> {
        Seq::new(self.transit_routes@.len(), |k: int| self.transit_routes[k].orig_spawn_times@)
    }

    /// A number that changes whenever the map is edited.
    pub fn get_edits_change_key(&self) -> (k: usize)
        ensures
            k == self.edits_generation,
    {
        self.edits_generation
    }

    /// The edits that are applied to the map.
    pub fn get_edits(&self) -> (e: &MapEdits)
        ensures
            e == &self.edits,
    {
        &self.edits
    }
}

} // verus!
