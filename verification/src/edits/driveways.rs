//! Connecting buildings, parking lots and transit stops to the lanes again
//! after the lanes changed.

use vstd::prelude::*;
use crate::edits::{ApplyError, EditEffects};
use crate::geometry::{PolyLine, Position, Pt2D};
use crate::ids::{BuildingID, ParkingLotID, RoadID, TransitStopID};
use crate::lane::PathConstraints;
use crate::map::StreetMap;
use crate::services::Geometry;
use crate::units::Distance;

verus! {

/// How near a driveway may come to the end of a lane: 7.5 metres.
pub fn sidewalk_buffer() -> (d: Distance)
    ensures
        d == Distance(75_000),
{
    Distance(75_000)
}

/// How far from a building or a parking lot its lane may be: one kilometre.
pub fn max_snap_distance() -> (d: Distance)
    ensures
        d == Distance(10_000_000),
{
    Distance(10_000_000)
}

/// What the geometry is asked when a place on a lane is looked for.
pub struct SnapQuery {
    /// The point from which the nearest place is looked for.
    pub pt: Pt2D,
    /// Who has to be able to use the lane.
    pub who: PathConstraints,
    /// How near the place may come to the end of the lane.
    pub buffer: Distance,
    /// How far from the point the place may be.
    pub max_dist: Distance,
}

/// What the geometry is asked for a building or a parking lot with the given
/// middle: the nearest place on a walkable lane, not too near its ends and
/// not too far away.
pub fn sidewalk_query(center: Pt2D) -> (q: SnapQuery)
    ensures
        q.pt == center,
        q.who == PathConstraints::Pedestrian,
        q.buffer == Distance(75_000),
        q.max_dist == Distance(10_000_000),
{
    SnapQuery {
        pt: center,
        who: PathConstraints::Pedestrian,
        buffer: sidewalk_buffer(),
        max_dist: max_snap_distance(),
    }
}

/// The connections of a parking lot: a driveway to a driving lane and a path
/// to a walkable lane.
pub struct ParkingLotSnap {
    pub driveway_line: PolyLine,
    pub driving_pos: Position,
    pub sidewalk_line: PolyLine,
    pub sidewalk_pos: Position,
}

impl StreetMap {
    /// Whether the place lies on a lane of the map that `who` may use.
    pub open spec fn usable_place(&self, pos: Position, who: PathConstraints) -> bool {
        self.has_lane(pos.lane) && who.spec_can_use(
            self.roads[pos.lane.road.0 as int].lanes[pos.lane.offset as int].lane_type,
        )
    }

    /// Whether the place lies on a lane of the map that `who` may use.
    pub fn is_usable_place(&self, pos: Position, who: PathConstraints) -> (b: bool)
        ensures
            b == self.usable_place(pos, who),
    {
        if pos.lane.road.0 >= self.roads.len() {
            return false;
        }
        let road = &self.roads[pos.lane.road.0];
        pos.lane.offset < road.lanes.len() && who.can_use(road.lanes[pos.lane.offset].lane_type)
    }

    /// Whether the two maps differ at most in their buildings.
    pub open spec fn same_but_buildings(&self, other: &StreetMap) -> bool {
        &&& self.city == other.city
        &&& self.roads == other.roads
        &&& self.intersections == other.intersections
        &&& self.parking_lots == other.parking_lots
        &&& self.transit_stops == other.transit_stops
        &&& self.transit_routes == other.transit_routes
        &&& self.zones == other.zones
        &&& self.edits == other.edits
        &&& self.edits_generation == other.edits_generation
        &&& self.pathfinder_dirty == other.pathfinder_dirty
        &&& self.buildings.len() == other.buildings.len()
    }

    /// Whether the two maps differ at most in their parking lots.
    pub open spec fn same_but_parking_lots(&self, other: &StreetMap) -> bool {
        &&& self.city == other.city
        &&& self.roads == other.roads
        &&& self.intersections == other.intersections
        &&& self.buildings == other.buildings
        &&& self.transit_stops == other.transit_stops
        &&& self.transit_routes == other.transit_routes
        &&& self.zones == other.zones
        &&& self.edits == other.edits
        &&& self.edits_generation == other.edits_generation
        &&& self.pathfinder_dirty == other.pathfinder_dirty
        &&& self.parking_lots.len() == other.parking_lots.len()
    }

    /// Whether the two maps differ at most in their transit stops.
    pub open spec fn same_but_transit_stops(&self, other: &StreetMap) -> bool {
        &&& self.city == other.city
        &&& self.roads == other.roads
        &&& self.intersections == other.intersections
        &&& self.buildings == other.buildings
        &&& self.parking_lots == other.parking_lots
        &&& self.transit_routes == other.transit_routes
        &&& self.zones == other.zones
        &&& self.edits == other.edits
        &&& self.edits_generation == other.edits_generation
        &&& self.pathfinder_dirty == other.pathfinder_dirty
        &&& self.transit_stops.len() == other.transit_stops.len()
    }

    /// Whether building number `b` of the map `new` is as it is in this map,
    /// or is connected anew: then it is the same building, its driveway
    /// meets a walkable lane of the map, and the road of that lane is
    /// recorded as changed in `effects`.
    pub open spec fn building_kept_or_snapped(
        &self,
        new: &StreetMap,
        effects: &EditEffects,
        b: int,
    ) -> bool {
        let now = new.buildings[b];
        now == self.buildings[b] || {
            &&& now.id == self.buildings[b].id
            &&& now.polygon == self.buildings[b].polygon
            &&& now.center == self.buildings[b].center
            &&& new.usable_place(now.sidewalk_pos, PathConstraints::Pedestrian)
            &&& effects.changed_roads@.contains(now.sidewalk_pos.lane.road)
        }
    }

    /// Whether parking lot number `p` of the map `new` is as it is in this
    /// map, or is connected anew: then it is the same lot, its path meets a
    /// walkable lane of the map, and its driveway meets the lane for cars of
    /// the same road that is nearest to that lane.
    pub open spec fn lot_kept_or_snapped(&self, new: &StreetMap, p: int) -> bool {
        let now = new.parking_lots[p];
        now == self.parking_lots[p] || {
            &&& now.id == self.parking_lots[p].id
            &&& now.polygon == self.parking_lots[p].polygon
            &&& now.center == self.parking_lots[p].center
            &&& new.usable_place(now.sidewalk_pos, PathConstraints::Pedestrian)
            &&& new.usable_place(now.driving_pos, PathConstraints::Car)
            &&& new.roads[now.sidewalk_pos.lane.road.0 as int].is_closest(
                now.sidewalk_pos.lane,
                PathConstraints::Car,
                now.driving_pos.lane.offset as int,
            )
        }
    }

    /// Stores a new driveway for building `b`, if one was found: `snapped` is
    /// the place where it meets a lane, and its line. It is stored only if the
    /// place lies on a walkable lane of the map; the road of that lane is then
    /// recorded as changed. Otherwise the building keeps the driveway that it
    /// had. Says whether the driveway was stored.
    pub fn install_building_driveway(
        &mut self,
        b: BuildingID,
        snapped: Option<(Position, PolyLine)>,
        effects: &mut EditEffects,
    ) -> (stored: bool)
        requires
            b.0 < old(self).buildings.len(),
        ensures
            final(self).same_but_buildings(old(self)),
            forall|k: int|
                0 <= k < old(self).buildings.len() && k != b.0 ==> final(self).buildings[k]
                    == old(self).buildings[k],
            final(self).buildings[b.0 as int].id == old(self).buildings[b.0 as int].id,
            final(self).buildings[b.0 as int].polygon == old(self).buildings[b.0 as int].polygon,
            final(self).buildings[b.0 as int].center == old(self).buildings[b.0 as int].center,
            stored == match snapped {
                Some((pos, line)) => old(self).usable_place(pos, PathConstraints::Pedestrian),
                None => false,
            },
            match snapped {
                Some((pos, line)) if stored => {
                    &&& final(self).buildings[b.0 as int].sidewalk_pos == pos
                    &&& final(self).buildings[b.0 as int].driveway_geom@ == line@
                    &&& final(effects).changed_roads@ == old(effects).changed_roads@.insert(
                        pos.lane.road,
                    )
                },
                _ => *final(self) == *old(self) && final(effects).changed_roads
                    == old(effects).changed_roads,
            },
            final(effects).same_but_roads(old(effects)),
    {
        match snapped {
            Some((pos, line)) => {
                if self.is_usable_place(pos, PathConstraints::Pedestrian) {
                    self.buildings[b.0].sidewalk_pos = pos;
                    self.buildings[b.0].driveway_geom = line;
                    effects.changed_roads.insert(pos.lane.road);
                    true
                } else {
                    false
                }
            },
            None => false,
        }
    }

    /// Looks for a new driveway for each of the given buildings: from the
    /// middle of the building to the nearest place on a walkable lane, not too
    /// near the ends of the lane and not too far from the building. A building
    /// for which none is found keeps the driveway that it had, though that
    /// may lead nowhere now.
    pub fn fix_building_driveways<G: Geometry>(
        &mut self,
        input: &Vec<BuildingID>,
        effects: &mut EditEffects,
        geom: &G,
    )
        ensures
            final(self).same_but_buildings(old(self)),
            forall|k: int|
                0 <= k < old(self).buildings.len() && !input@.contains(BuildingID(k as usize))
                    ==> final(self).buildings[k] == old(self).buildings[k],
            final(effects).same_but_roads(old(effects)),
            old(effects).changed_roads@.subset_of(final(effects).changed_roads@),
            forall|r: RoadID|
                final(effects).changed_roads@.contains(r) && !old(effects).changed_roads@.contains(
                    r,
                ) ==> final(self).has_road(r),
            input@.len() == 0 ==> final(effects).changed_roads@ == old(effects).changed_roads@,
            forall|b: int|
                0 <= b < old(self).buildings.len() ==> #[trigger] old(self).building_kept_or_snapped(
                    final(self),
                    final(effects),
                    b,
                ),
    {
        let mut k: usize = 0;
        while k < input.len()
            invariant
                k <= input.len(),
                k == 0 ==> effects.changed_roads@ == old(effects).changed_roads@,
                self.same_but_buildings(old(self)),
                forall|b: int|
                    0 <= b < old(self).buildings.len()
                        ==> #[trigger] old(self).building_kept_or_snapped(self, effects, b),
                forall|j: int|
                    0 <= j < old(self).buildings.len() && !input@.contains(BuildingID(j as usize))
                        ==> self.buildings[j] == old(self).buildings[j],
                effects.same_but_roads(old(effects)),
                old(effects).changed_roads@.subset_of(effects.changed_roads@),
                forall|r: RoadID|
                    effects.changed_roads@.contains(r) && !old(effects).changed_roads@.contains(r)
                        ==> self.has_road(r),
            decreases input.len() - k,
        {
            let id = input[k];
            if id.0 < self.buildings.len() {
                assert(input@.contains(input@[k as int]));
                let center = self.buildings[id.0].center;
                let query = sidewalk_query(center);
                let snapped = match geom.snap_to_lane(
                    self,
                    query.pt,
                    query.who,
                    query.buffer,
                    query.max_dist,
                ) {
                    Some(pos) => match geom.driveway(
                        self,
                        center,
                        &self.buildings[id.0].polygon,
                        pos,
                    ) {
                        Some(line) => Some((pos, line)),
                        None => None,
                    },
                    None => None,
                };
                let ghost found = snapped;
                let ghost before = *self;
                let ghost roads_before = effects.changed_roads@;
                let ghost effects_before = *effects;
                let stored = self.install_building_driveway(id, snapped, effects);
                proof {
                    assert forall|b: int|
                        0 <= b < old(self).buildings.len() implies #[trigger]
                        old(self).building_kept_or_snapped(self, effects, b) by {
                        assert(old(self).building_kept_or_snapped(&before, &effects_before, b));
                        if b == id.0 && stored {
                            match found {
                                Some((pos, line)) => {
                                    assert(before.usable_place(pos, PathConstraints::Pedestrian));
                                },
                                None => {},
                            }
                        } else {
                            assert(self.buildings[b] == before.buildings[b]);
                            assert(roads_before.subset_of(effects.changed_roads@));
                        }
                    }
                    assert forall|r: RoadID|
                        effects.changed_roads@.contains(r) && !old(effects).changed_roads@.contains(
                            r,
                        ) implies self.has_road(r) by {
                        if roads_before.contains(r) {
                            assert(before.has_road(r));
                        } else {
                            match found {
                                Some((pos, line)) => {
                                    assert(stored);
                                    assert(before.usable_place(pos, PathConstraints::Pedestrian));
                                    assert(r == pos.lane.road);
                                },
                                None => {},
                            }
                        }
                    }
                }
            }
            k = k + 1;
        }
    }

    /// Stores new connections for parking lot `pl`, if they were found. They
    /// are stored only if the one place lies on a walkable lane of the map and
    /// the other on a lane for cars. Otherwise the lot keeps the connections
    /// that it had. Says whether they were stored.
    pub fn install_parking_lot_driveway(
        &mut self,
        pl: ParkingLotID,
        snapped: Option<ParkingLotSnap>,
    ) -> (stored:
        bool)
        requires
            pl.0 < old(self).parking_lots.len(),
        ensures
            final(self).same_but_parking_lots(old(self)),
            forall|k: int|
                0 <= k < old(self).parking_lots.len() && k != pl.0 ==> final(self).parking_lots[k]
                    == old(self).parking_lots[k],
            final(self).parking_lots[pl.0 as int].id == old(self).parking_lots[pl.0 as int].id,
            final(self).parking_lots[pl.0 as int].polygon
                == old(self).parking_lots[pl.0 as int].polygon,
            final(self).parking_lots[pl.0 as int].center
                == old(self).parking_lots[pl.0 as int].center,
            stored == match snapped {
                Some(s) => old(self).usable_place(s.sidewalk_pos, PathConstraints::Pedestrian)
                    && old(self).usable_place(s.driving_pos, PathConstraints::Car),
                None => false,
            },
            match snapped {
                Some(s) if stored => {
                    &&& final(self).parking_lots[pl.0 as int].sidewalk_pos == s.sidewalk_pos
                    &&& final(self).parking_lots[pl.0 as int].driving_pos == s.driving_pos
                    &&& final(self).parking_lots[pl.0 as int].sidewalk_line@ == s.sidewalk_line@
                    &&& final(self).parking_lots[pl.0 as int].driveway_line@ == s.driveway_line@
                },
                _ => *final(self) == *old(self),
            },
    {
        match snapped {
            Some(s) => {
                if self.is_usable_place(s.sidewalk_pos, PathConstraints::Pedestrian)
                    && self.is_usable_place(s.driving_pos, PathConstraints::Car) {
                    self.parking_lots[pl.0].driveway_line = s.driveway_line;
                    self.parking_lots[pl.0].driving_pos = s.driving_pos;
                    self.parking_lots[pl.0].sidewalk_line = s.sidewalk_line;
                    self.parking_lots[pl.0].sidewalk_pos = s.sidewalk_pos;
                    true
                } else {
                    false
                }
            },
            None => false,
        }
    }

    /// Looks for the connections of a parking lot: the nearest place on a
    /// walkable lane, as for a building; beside it, on the lane for cars of
    /// the same road that is nearest to that lane, the place for the driveway;
    /// and the lines to both.
    fn snap_parking_lot<G: Geometry>(
        &self,
        pl: ParkingLotID,
        geom: &G,
    ) -> (r: Option<ParkingLotSnap>)
        requires
            pl.0 < self.parking_lots.len(),
        ensures
            match r {
                Some(s) => {
                    &&& self.usable_place(s.sidewalk_pos, PathConstraints::Pedestrian)
                    &&& self.usable_place(s.driving_pos, PathConstraints::Car)
                    &&& self.roads[s.sidewalk_pos.lane.road.0 as int].is_closest(
                        s.sidewalk_pos.lane,
                        PathConstraints::Car,
                        s.driving_pos.lane.offset as int,
                    )
                },
                None => true,
            },
    {
        let lot = &self.parking_lots[pl.0];
        let query = sidewalk_query(lot.center);
        let sidewalk_pos = match geom.snap_to_lane(
            self,
            query.pt,
            query.who,
            query.buffer,
            query.max_dist,
        ) {
            Some(pos) => pos,
            None => {
                return None;
            },
        };
        if !self.is_usable_place(sidewalk_pos, PathConstraints::Pedestrian) {
            return None;
        }
        let road = &self.roads[sidewalk_pos.lane.road.0];
        let driving_lane = match road.find_closest_lane(sidewalk_pos.lane, PathConstraints::Car) {
            Some(l) => l,
            None => {
                return None;
            },
        };
        let driving_pos = Position {
            lane: driving_lane,
            dist_along: geom.equiv_pos(self, sidewalk_pos, driving_lane),
        };
        if !self.is_usable_place(driving_pos, PathConstraints::Car) {
            return None;
        }
        let sidewalk_line = match geom.driveway(self, lot.center, &lot.polygon, sidewalk_pos) {
            Some(line) => line,
            None => {
                return None;
            },
        };
        let driveway_line = match geom.driveway(self, lot.center, &lot.polygon, driving_pos) {
            Some(line) => line,
            None => {
                return None;
            },
        };
        Some(ParkingLotSnap { driveway_line, driving_pos, sidewalk_line, sidewalk_pos })
    }

    /// Looks for new connections for each of the given parking lots. A lot for
    /// which none are found keeps the connections that it had, though they
    /// may lead nowhere now.
    pub fn fix_parking_lot_driveways<G: Geometry>(&mut self, input: &Vec<ParkingLotID>, geom: &G)
        ensures
            final(self).same_but_parking_lots(old(self)),
            forall|k: int|
                0 <= k < old(self).parking_lots.len() && !input@.contains(
                    ParkingLotID(k as usize),
                ) ==> final(self).parking_lots[k] == old(self).parking_lots[k],
            forall|p: int|
                0 <= p < old(self).parking_lots.len() ==> #[trigger] old(self).lot_kept_or_snapped(
                    final(self),
                    p,
                ),
    {
        let mut k: usize = 0;
        while k < input.len()
            invariant
                k <= input.len(),
                self.same_but_parking_lots(old(self)),
                forall|p: int|
                    0 <= p < old(self).parking_lots.len()
                        ==> #[trigger] old(self).lot_kept_or_snapped(self, p),
                forall|j: int|
                    0 <= j < old(self).parking_lots.len() && !input@.contains(
                        ParkingLotID(j as usize),
                    ) ==> self.parking_lots[j] == old(self).parking_lots[j],
            decreases input.len() - k,
        {
            let id = input[k];
            if id.0 < self.parking_lots.len() {
                assert(input@.contains(input@[k as int]));
                let snapped = self.snap_parking_lot(id, geom);
                let ghost before = *self;
                let ghost found = snapped;
                let stored = self.install_parking_lot_driveway(id, snapped);
                proof {
                    assert forall|p: int|
                        0 <= p < old(self).parking_lots.len() implies #[trigger]
                        old(self).lot_kept_or_snapped(self, p) by {
                        assert(old(self).lot_kept_or_snapped(&before, p));
                        if p == id.0 && stored {
                        } else {
                            assert(self.parking_lots[p] == before.parking_lots[p]);
                        }
                    }
                }
            }
            k = k + 1;
        }
    }

    /// Moves the place where vehicles stop at transit stop `s` to
    /// `driving_pos`.
    pub fn install_stop_position(&mut self, s: TransitStopID, driving_pos: Position)
        requires
            s.0 < old(self).transit_stops.len(),
        ensures
            final(self).same_but_transit_stops(old(self)),
            forall|k: int|
                0 <= k < old(self).transit_stops.len() && k != s.0 ==> final(self).transit_stops[k]
                    == old(self).transit_stops[k],
            final(self).transit_stops[s.0 as int].driving_pos == driving_pos,
            final(self).transit_stops[s.0 as int].id == old(self).transit_stops[s.0 as int].id,
            final(self).transit_stops[s.0 as int].sidewalk_pos
                == old(self).transit_stops[s.0 as int].sidewalk_pos,
            final(self).transit_stops[s.0 as int].is_train_stop
                == old(self).transit_stops[s.0 as int].is_train_stop,
    {
        self.transit_stops[s.0].driving_pos = driving_pos;
    }

    /// The vehicles that stop at transit stop `s`: trains or buses.
    pub open spec fn stop_mode(&self, s: TransitStopID) -> PathConstraints {
        if self.transit_stops[s.0 as int].is_train_stop {
            PathConstraints::Train
        } else {
            PathConstraints::Bus
        }
    }

    /// Whether road `r` has a lane other than the one where the passengers of
    /// stop `s` wait that the vehicles of the stop may use.
    pub open spec fn stop_has_lane(&self, r: RoadID, s: TransitStopID) -> bool {
        exists|j: int| #[trigger]
            self.roads[r.0 as int].candidate(
                self.transit_stops[s.0 as int].sidewalk_pos.lane,
                self.stop_mode(s),
                j,
            )
    }

    /// Whether the vehicles of stop `s` stop, in the map `new`, on the lane
    /// of road `r` that they may use and that is nearest to where the
    /// passengers wait: see [`Road::is_closest`].
    pub open spec fn stop_is_served(&self, new: &StreetMap, r: RoadID, s: TransitStopID) -> bool {
        &&& self.stop_has_lane(r, s)
        &&& self.roads[r.0 as int].is_closest(
            self.transit_stops[s.0 as int].sidewalk_pos.lane,
            self.stop_mode(s),
            new.transit_stops[s.0 as int].driving_pos.lane.offset as int,
        )
    }

    /// Whether the transit stop at position `k` of road `r` is a stop that the
    /// map has.
    pub open spec fn has_stop_of(&self, r: RoadID, k: int) -> bool {
        0 <= k < self.roads[r.0 as int].transit_stops.len()
            && self.roads[r.0 as int].transit_stops[k].0 < self.transit_stops.len()
    }

    /// Moves every transit stop of road `r` to the lane of that road that its
    /// vehicles may use, buses or trains, and that is nearest to where its
    /// passengers wait. A stop for which the road has no such lane is an
    /// error, and the stops after it on the road are not moved. A stop that
    /// the map does not have is passed over.
    pub fn fix_transit_stops<G: Geometry>(&mut self, r: RoadID, geom: &G) -> (res: Result<
        (),
        ApplyError,
    >)
        requires
            old(self).has_road(r),
        ensures
            final(self).same_but_transit_stops(old(self)),
            forall|k: int|
                0 <= k < old(self).transit_stops.len()
                    && !old(self).roads[r.0 as int].transit_stops@.contains(
                    TransitStopID(k as usize),
                ) ==> final(self).transit_stops[k] == old(self).transit_stops[k],
            forall|k: int|
                0 <= k < old(self).transit_stops.len() ==> (#[trigger] final(self).transit_stops[k]).keeps_place(
                    &old(self).transit_stops[k],
                ),
            match res {
                Ok(()) => forall|k: int| #[trigger]
                    old(self).has_stop_of(r, k) ==> old(self).stop_is_served(
                        final(self),
                        r,
                        old(self).roads[r.0 as int].transit_stops[k],
                    ),
                Err(e) => exists|k: int| #[trigger]
                    old(self).has_stop_of(r, k) && e == ApplyError::OrphanedStop(
                        old(self).roads[r.0 as int].transit_stops[k],
                    ) && !old(self).stop_has_lane(r, old(self).roads[r.0 as int].transit_stops[k]),
            },
    {
        let n = self.roads[r.0].transit_stops.len();
        let mut k: usize = 0;
        while k < n
            invariant
                k <= n,
                self.has_road(r),
                n == self.roads[r.0 as int].transit_stops.len(),
                self.same_but_transit_stops(old(self)),
                forall|j: int|
                    0 <= j < old(self).transit_stops.len()
                        && !old(self).roads[r.0 as int].transit_stops@.contains(TransitStopID(j as usize))
                        ==> self.transit_stops[j] == old(self).transit_stops[j],
                forall|j: int|
                    0 <= j < self.transit_stops.len() ==> (#[trigger] self.transit_stops[j]).keeps_place(
                        &old(self).transit_stops[j],
                    ),
                forall|j: int|
                    0 <= j < k && #[trigger] old(self).has_stop_of(r, j)
                        ==> old(self).stop_is_served(self, r,
                        old(self).roads[r.0 as int].transit_stops[j]),
            decreases n - k,
        {
            let s = self.roads[r.0].transit_stops[k];
            if s.0 < self.transit_stops.len() {
                proof {
                    assert(old(self).has_stop_of(r, k as int));
                    assert(old(self).roads[r.0 as int].transit_stops@.contains(
                        old(self).roads[r.0 as int].transit_stops@[k as int],
                    ));
                }
                let sidewalk_pos = self.transit_stops[s.0].sidewalk_pos;
                let who = if self.transit_stops[s.0].is_train_stop {
                    PathConstraints::Train
                } else {
                    PathConstraints::Bus
                };
                let driving_lane = match self.roads[r.0].find_closest_lane(sidewalk_pos.lane, who) {
                    Some(l) => l,
                    None => {
                        return Err(ApplyError::OrphanedStop(s));
                    },
                };
                let driving_pos = Position {
                    lane: driving_lane,
                    dist_along: geom.equiv_pos(self, sidewalk_pos, driving_lane),
                };
                let ghost before = *self;
                self.install_stop_position(s, driving_pos);
                proof {
                    assert(old(self).roads[r.0 as int].candidate(
                        sidewalk_pos.lane,
                        who,
                        driving_lane.offset as int,
                    ));
                    assert forall|j: int|
                        0 <= j < k + 1 && #[trigger] old(self).has_stop_of(
                            r,
                            j,
                        ) implies old(self).stop_is_served(
                        self,
                        r,
                        old(self).roads[r.0 as int].transit_stops[j],
                    ) by {
                        let sj = old(self).roads[r.0 as int].transit_stops[j];
                        if sj != s {
                            assert(old(self).stop_is_served(&before, r, sj));
                            assert(self.transit_stops[sj.0 as int]
                                == before.transit_stops[sj.0 as int]);
                        }
                    }
                }
            }
            k = k + 1;
        }
        Ok(())
    }
}

} // verus!
