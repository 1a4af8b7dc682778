//! Reducing a log to the commands that lead from the imported map straight to
//! the map as it is.

use vstd::prelude::*;
use vstd::string::*;
use crate::edits::log::{DerivedView, MapEdits};
use crate::edits::{
    cmds_view, EditCmd, EditCmdView, EditCrosswalks, EditIntersection, EditRoad,
};
use crate::id_set::IdSet;
use crate::ids::{IntersectionID, LaneID, RoadID, TransitRouteID};
use crate::map::StreetMap;
use crate::road::specs_of;
use crate::text::starts_with;
use crate::vecs::copy_vec;

verus! {

impl StreetMap {
    /// Whether every target that is recorded as changed is a target that the
    /// map has.
    pub open spec fn derived_fits(&self, d: DerivedView) -> bool {
        &&& forall|k: int|
            0 <= k < d.changed_roads.len() ==> self.has_road(#[trigger] d.changed_roads[k])
        &&& forall|k: int|
            0 <= k < d.original_intersections.len() ==> {
                &&& self.has_intersection((#[trigger] d.original_intersections[k]).0)
                &&& !self.intersections[d.original_intersections[k].0.0 as int].spec_is_border()
            }
        &&& forall|k: int|
            0 <= k < d.original_crosswalks.len() ==> self.has_intersection(
                (#[trigger] d.original_crosswalks[k]).0,
            )
        &&& forall|k: int|
            0 <= k < d.changed_routes.len() ==> self.has_route(#[trigger] d.changed_routes[k])
    }

    /// For each road that is recorded as changed, a command that leads from
    /// the state it was imported with to the state that it has.
    pub open spec fn compressed_roads(&self, d: DerivedView) -> Seq<EditCmdView> {
        Seq::new(
            d.changed_roads.len(),
            |k: int|
                EditCmdView::ChangeRoad {
                    r: d.changed_roads[k],
                    old: self.roads[d.changed_roads[k].0 as int].orig@,
                    new: self.roads[d.changed_roads[k].0 as int].edit_state(),
                },
        )
    }

    /// For each intersection that is recorded as changed, a command that
    /// leads from its first state to the state that it has.
    pub open spec fn compressed_intersections(&self, d: DerivedView) -> Seq<EditCmdView> {
        Seq::new(
            d.original_intersections.len(),
            |k: int|
                EditCmdView::ChangeIntersection {
                    i: d.original_intersections[k].0,
                    old: d.original_intersections[k].1,
                    new: self.intersections[d.original_intersections[k].0.0 as int].edit_state(),
                },
        )
    }

    /// For each intersection whose crossings are recorded as changed, a
    /// command that leads from its first crossings to those that it has.
    pub open spec fn compressed_crosswalks(&self, d: DerivedView) -> Seq<EditCmdView> {
        Seq::new(
            d.original_crosswalks.len(),
            |k: int|
                EditCmdView::ChangeCrosswalks {
                    i: d.original_crosswalks[k].0,
                    old: d.original_crosswalks[k].1,
                    new: self.intersections[d.original_crosswalks[k].0.0 as int].crosswalks(),
                },
        )
    }

    /// For each transit route that is recorded as changed, a command that
    /// leads from the schedule it was imported with to the one that it has.
    pub open spec fn compressed_routes(&self, d: DerivedView) -> Seq<EditCmdView> {
        Seq::new(
            d.changed_routes.len(),
            |k: int|
                EditCmdView::ChangeRouteSchedule {
                    id: d.changed_routes[k],
                    old: self.transit_routes[d.changed_routes[k].0 as int].orig_spawn_times@,
                    new: self.transit_routes[d.changed_routes[k].0 as int].spawn_times@,
                },
        )
    }

    /// For each target that is recorded as changed, one command that leads
    /// from its first state to the state that it has in this map: first the
    /// roads, then the intersections, then the crossings, then the transit
    /// routes.
    pub open spec fn compressed(&self, d: DerivedView) -> Seq<EditCmdView> {
        self.compressed_roads(d) + self.compressed_intersections(d) + self.compressed_crosswalks(
            d,
        ) + self.compressed_routes(d)
    }
}

impl StreetMap {
    /// Whether every target that the edits record as changed is a target that
    /// the map has: see [`StreetMap::derived_fits`].
    pub fn has_recorded_targets(&self, edits: &MapEdits) -> (b: bool)
        ensures
            b == self.derived_fits(edits.derived()),
    {
        let mut k: usize = 0;
        while k < edits.changed_roads.len()
            invariant
                k <= edits.changed_roads.len(),
                forall|j: int| 0 <= j < k ==> self.has_road(#[trigger] edits.changed_roads@[j]),
            decreases edits.changed_roads.len() - k,
        {
            if edits.changed_roads[k].0 >= self.roads.len() {
                assert(!self.has_road(edits.derived().changed_roads[k as int]));
                return false;
            }
            k = k + 1;
        }
        let mut k: usize = 0;
        while k < edits.original_intersections.len()
            invariant
                k <= edits.original_intersections.len(),
                forall|j: int|
                    0 <= j < k ==> self.has_intersection(
                        (#[trigger] edits.original_intersections@[j]).0,
                    ) && !self.intersections[edits.original_intersections@[j].0.0 as int].spec_is_border(),
            decreases edits.original_intersections.len() - k,
        {
            let i = edits.original_intersections[k].0;
            if i.0 >= self.intersections.len() || self.intersections[i.0].is_border() {
                assert(edits.derived().original_intersections[k as int].0 == i);
                return false;
            }
            k = k + 1;
        }
        let mut k: usize = 0;
        while k < edits.original_crosswalks.len()
            invariant
                k <= edits.original_crosswalks.len(),
                forall|j: int|
                    0 <= j < k ==> self.has_intersection(
                        (#[trigger] edits.original_crosswalks@[j]).0,
                    ),
            decreases edits.original_crosswalks.len() - k,
        {
            if edits.original_crosswalks[k].0.0 >= self.intersections.len() {
                assert(edits.derived().original_crosswalks[k as int].0
                    == edits.original_crosswalks@[k as int].0);
                return false;
            }
            k = k + 1;
        }
        let mut k: usize = 0;
        while k < edits.changed_routes.len()
            invariant
                k <= edits.changed_routes.len(),
                forall|j: int| 0 <= j < k ==> self.has_route(#[trigger] edits.changed_routes@[j]),
            decreases edits.changed_routes.len() - k,
        {
            if edits.changed_routes[k].0 >= self.transit_routes.len() {
                assert(!self.has_route(edits.derived().changed_routes[k as int]));
                return false;
            }
            k = k + 1;
        }
        proof {
            let d = edits.derived();
            assert forall|j: int| 0 <= j < d.original_intersections.len() implies {
                &&& self.has_intersection((#[trigger] d.original_intersections[j]).0)
                &&& !self.intersections[d.original_intersections[j].0.0 as int].spec_is_border()
            } by {
                assert(d.original_intersections[j].0 == edits.original_intersections@[j].0);
            }
            assert forall|j: int| 0 <= j < d.original_crosswalks.len() implies self.has_intersection(
                (#[trigger] d.original_crosswalks[j]).0,
            ) by {
                assert(d.original_crosswalks[j].0 == edits.original_crosswalks@[j].0);
            }
        }
        true
    }
}

/// A fresh vector with the same texts.
pub fn copy_texts(v: &Vec<String>) -> (r: Vec<String>)
    ensures
        r@ == v@,
{
    let mut r: Vec<String> = Vec::new();
    let mut k: usize = 0;
    while k < v.len()
        invariant
            k <= v.len(),
            r@ == v@.take(k as int),
        decreases v.len() - k,
    {
        r.push(v[k].clone());
        proof {
            assert(r@ =~= v@.take(k + 1));
        }
        k = k + 1;
    }
    proof {
        assert(v@.take(k as int) =~= v@);
    }
    r
}

impl MapEdits {
    /// Replaces the commands by the fewest that lead to the map as it is: for
    /// each target that is recorded as changed, one command that leads from
    /// its first state to the state that it has in the map, and nothing
    /// else: see [`StreetMap::compressed`]. What is recorded as changed must
    /// have been derived for this map.
    pub fn compress(&mut self, map: &StreetMap)
        requires
            map.derived_fits(old(self).derived()),
        ensures
            cmds_view(final(self).commands@) == map.compressed(old(self).derived()),
            final(self).derived() == old(self).derived(),
            final(self).edits_name == old(self).edits_name,
            final(self).merge_zones == old(self).merge_zones,
            final(self).proposal_description == old(self).proposal_description,
            final(self).proposal_link == old(self).proposal_link,
            map.wf() && old(self).records_wf() ==> map.has_targets(final(self).commands@),
    {
        let ghost d = self.derived();
        let ghost sound = map.wf() && self.records_wf();
        self.commands = Vec::new();
        let ghost start = Seq::<EditCmdView>::empty();
        let ghost roads = map.compressed_roads(d);
        let ghost intersections = map.compressed_intersections(d);
        let ghost crosswalks = map.compressed_crosswalks(d);
        let ghost routes = map.compressed_routes(d);
        let mut k: usize = 0;
        proof {
            assert(cmds_view(self.commands@) =~= start + roads.take(0));
        }
        while k < self.changed_roads.len()
            invariant
                k <= self.changed_roads.len(),
                self.derived() == d,
                d == old(self).derived(),
                start == Seq::<EditCmdView>::empty(),
                roads == map.compressed_roads(d),
                intersections == map.compressed_intersections(d),
                crosswalks == map.compressed_crosswalks(d),
                routes == map.compressed_routes(d),
                map.derived_fits(d),
                cmds_view(self.commands@) == start + roads.take(k as int),
                self.edits_name == old(self).edits_name,
                self.merge_zones == old(self).merge_zones,
                self.proposal_description == old(self).proposal_description,
                self.proposal_link == old(self).proposal_link,
                sound ==> map.has_targets(self.commands@),
                sound == (map.wf() && old(self).records_wf()),
                self.original_crosswalks == old(self).original_crosswalks,
            decreases self.changed_roads.len() - k,
        {
            let r = self.changed_roads[k];
            assert(map.has_road(d.changed_roads[k as int]));
            let cmd = EditCmd::ChangeRoad {
                r,
                old: EditRoad::get_orig_from_osm(&map.roads[r.0]),
                new: map.get_r_edit(r),
            };
            let ghost before = self.commands@;
            let ghost made = cmd@;
            self.commands.push(cmd);
            proof {
                assert(cmds_view(self.commands@) =~= cmds_view(before).push(made));
                assert(made == roads[k as int]);
                assert(roads.take(k + 1) =~= roads.take(k as int).push(roads[k as int]));
                assert(cmds_view(self.commands@) =~= start + roads.take(k + 1));
                if sound {
                    assert forall|c: int| 0 <= c < self.commands@.len() implies map.has_target(
                        #[trigger] self.commands@[c],
                    ) by {
                        if c < before.len() {
                            assert(map.has_target(before[c]));
                        }
                    }
                }
            }
            k = k + 1;
        }
        let mut k: usize = 0;
        proof {
            assert(roads.take(roads.len() as int) =~= roads);
            assert(cmds_view(self.commands@) =~= start + roads + intersections.take(0));
        }
        while k < self.original_intersections.len()
            invariant
                k <= self.original_intersections.len(),
                self.derived() == d,
                d == old(self).derived(),
                start == Seq::<EditCmdView>::empty(),
                roads == map.compressed_roads(d),
                intersections == map.compressed_intersections(d),
                crosswalks == map.compressed_crosswalks(d),
                routes == map.compressed_routes(d),
                map.derived_fits(d),
                cmds_view(self.commands@) == start + roads + intersections.take(k as int),
                self.edits_name == old(self).edits_name,
                self.merge_zones == old(self).merge_zones,
                self.proposal_description == old(self).proposal_description,
                self.proposal_link == old(self).proposal_link,
                sound ==> map.has_targets(self.commands@),
                sound == (map.wf() && old(self).records_wf()),
                self.original_crosswalks == old(self).original_crosswalks,
            decreases self.original_intersections.len() - k,
        {
            let i = self.original_intersections[k].0;
            assert(d.original_intersections[k as int].0 == i);
            assert(map.has_intersection(d.original_intersections[k as int].0));
            let cmd = EditCmd::ChangeIntersection {
                i,
                old: self.original_intersections[k].1.clone(),
                new: map.get_i_edit(i),
            };
            let ghost before = self.commands@;
            let ghost made = cmd@;
            self.commands.push(cmd);
            proof {
                assert(cmds_view(self.commands@) =~= cmds_view(before).push(made));
                assert(made == intersections[k as int]);
                assert(intersections.take(k + 1) =~= intersections.take(k as int).push(
                    intersections[k as int],
                ));
                assert(cmds_view(self.commands@) =~= start + roads + intersections.take(k + 1));
                if sound {
                    assert forall|c: int| 0 <= c < self.commands@.len() implies map.has_target(
                        #[trigger] self.commands@[c],
                    ) by {
                        if c < before.len() {
                            assert(map.has_target(before[c]));
                        }
                    }
                }
            }
            k = k + 1;
        }
        let mut k: usize = 0;
        proof {
            assert(intersections.take(intersections.len() as int) =~= intersections);
            assert(cmds_view(self.commands@) =~= start + roads + intersections + crosswalks.take(
                0,
            ));
        }
        while k < self.original_crosswalks.len()
            invariant
                k <= self.original_crosswalks.len(),
                self.derived() == d,
                d == old(self).derived(),
                start == Seq::<EditCmdView>::empty(),
                roads == map.compressed_roads(d),
                intersections == map.compressed_intersections(d),
                crosswalks == map.compressed_crosswalks(d),
                routes == map.compressed_routes(d),
                map.derived_fits(d),
                cmds_view(self.commands@) == start + roads + intersections + crosswalks.take(
                    k as int,
                ),
                self.edits_name == old(self).edits_name,
                self.merge_zones == old(self).merge_zones,
                self.proposal_description == old(self).proposal_description,
                self.proposal_link == old(self).proposal_link,
                sound ==> map.has_targets(self.commands@),
                sound == (map.wf() && old(self).records_wf()),
                self.original_crosswalks == old(self).original_crosswalks,
            decreases self.original_crosswalks.len() - k,
        {
            let i = self.original_crosswalks[k].0;
            assert(d.original_crosswalks[k as int].0 == i);
            assert(map.has_intersection(d.original_crosswalks[k as int].0));
            proof {
                if sound {
                    assert(map.turns_ok(i.0 as int));
                    assert(old(self).original_crosswalks[k as int].1.wf());
                }
            }
            let cmd = EditCmd::ChangeCrosswalks {
                i,
                old: self.original_crosswalks[k].1.clone(),
                new: map.get_i_crosswalks_edit(i),
            };
            let ghost before = self.commands@;
            let ghost made = cmd@;
            self.commands.push(cmd);
            proof {
                assert(cmds_view(self.commands@) =~= cmds_view(before).push(made));
                assert(made == crosswalks[k as int]);
                assert(crosswalks.take(k + 1) =~= crosswalks.take(k as int).push(
                    crosswalks[k as int],
                ));
                assert(cmds_view(self.commands@) =~= start + roads + intersections
                    + crosswalks.take(k + 1));
                if sound {
                    assert forall|c: int| 0 <= c < self.commands@.len() implies map.has_target(
                        #[trigger] self.commands@[c],
                    ) by {
                        if c < before.len() {
                            assert(map.has_target(before[c]));
                        }
                    }
                }
            }
            k = k + 1;
        }
        let mut k: usize = 0;
        proof {
            assert(crosswalks.take(crosswalks.len() as int) =~= crosswalks);
            assert(cmds_view(self.commands@) =~= start + roads + intersections + crosswalks
                + routes.take(0));
        }
        while k < self.changed_routes.len()
            invariant
                k <= self.changed_routes.len(),
                self.derived() == d,
                d == old(self).derived(),
                start == Seq::<EditCmdView>::empty(),
                roads == map.compressed_roads(d),
                intersections == map.compressed_intersections(d),
                crosswalks == map.compressed_crosswalks(d),
                routes == map.compressed_routes(d),
                map.derived_fits(d),
                cmds_view(self.commands@) == start + roads + intersections + crosswalks
                    + routes.take(k as int),
                self.edits_name == old(self).edits_name,
                self.merge_zones == old(self).merge_zones,
                self.proposal_description == old(self).proposal_description,
                self.proposal_link == old(self).proposal_link,
                sound ==> map.has_targets(self.commands@),
                sound == (map.wf() && old(self).records_wf()),
                self.original_crosswalks == old(self).original_crosswalks,
            decreases self.changed_routes.len() - k,
        {
            let id = self.changed_routes[k];
            assert(map.has_route(d.changed_routes[k as int]));
            let route = &map.transit_routes[id.0];
            let cmd = EditCmd::ChangeRouteSchedule {
                id,
                new: copy_vec(&route.spawn_times),
                old: copy_vec(&route.orig_spawn_times),
            };
            let ghost before = self.commands@;
            let ghost made = cmd@;
            self.commands.push(cmd);
            proof {
                assert(cmds_view(self.commands@) =~= cmds_view(before).push(made));
                assert(made == routes[k as int]);
                assert(routes.take(k + 1) =~= routes.take(k as int).push(routes[k as int]));
                assert(cmds_view(self.commands@) =~= start + roads + intersections + crosswalks
                    + routes.take(k + 1));
                if sound {
                    assert forall|c: int| 0 <= c < self.commands@.len() implies map.has_target(
                        #[trigger] self.commands@[c],
                    ) by {
                        if c < before.len() {
                            assert(map.has_target(before[c]));
                        }
                    }
                }
            }
            k = k + 1;
        }
        proof {
            assert(routes.take(routes.len() as int) =~= routes);
            assert(start + roads + intersections + crosswalks + routes =~= start + map.compressed(
                d,
            ));
        }
    }

    /// The edits without their commands: the name and the description, and
    /// what is recorded as changed.
    pub fn without_commands(&self) -> (e: MapEdits)
        ensures
            e.commands@.len() == 0,
            e.derived() == self.derived(),
            e.edits_name == self.edits_name,
            e.merge_zones == self.merge_zones,
            e.proposal_description@ == self.proposal_description@,
            e.proposal_link == self.proposal_link,
            self.records_wf() ==> e.records_wf(),
    {
        let mut original_intersections: Vec<(IntersectionID, EditIntersection)> = Vec::new();
        let mut k: usize = 0;
        while k < self.original_intersections.len()
            invariant
                k <= self.original_intersections.len(),
                crate::edits::log::intersections_view(original_intersections@)
                    == crate::edits::log::intersections_view(self.original_intersections@).take(
                    k as int,
                ),
            decreases self.original_intersections.len() - k,
        {
            let ghost before = original_intersections@;
            original_intersections.push(
                (self.original_intersections[k].0, self.original_intersections[k].1.clone()),
            );
            proof {
                assert(crate::edits::log::intersections_view(original_intersections@)
                    =~= crate::edits::log::intersections_view(before).push(
                    (self.original_intersections@[k as int].0,
                        self.original_intersections@[k as int].1@),
                ));
                assert(crate::edits::log::intersections_view(original_intersections@)
                    =~= crate::edits::log::intersections_view(self.original_intersections@).take(
                    k + 1,
                ));
            }
            k = k + 1;
        }
        let mut original_crosswalks: Vec<(IntersectionID, EditCrosswalks)> = Vec::new();
        let mut k: usize = 0;
        while k < self.original_crosswalks.len()
            invariant
                k <= self.original_crosswalks.len(),
                crate::edits::log::crosswalks_view(original_crosswalks@)
                    == crate::edits::log::crosswalks_view(self.original_crosswalks@).take(k as int),
                self.records_wf() ==> forall|j: int|
                    0 <= j < original_crosswalks.len() ==> (#[trigger] original_crosswalks[j]).1.wf(),
            decreases self.original_crosswalks.len() - k,
        {
            let ghost before = original_crosswalks@;
            original_crosswalks.push(
                (self.original_crosswalks[k].0, self.original_crosswalks[k].1.clone()),
            );
            proof {
                if self.records_wf() {
                    assert(self.original_crosswalks[k as int].1.wf());
                    assert forall|j: int| 0 <= j < original_crosswalks.len() implies (
                    #[trigger] original_crosswalks[j]).1.wf() by {
                        if j < before.len() {
                            assert(original_crosswalks[j] == before[j]);
                        }
                    }
                }
                assert(crate::edits::log::crosswalks_view(original_crosswalks@)
                    =~= crate::edits::log::crosswalks_view(before).push(
                    (self.original_crosswalks@[k as int].0, self.original_crosswalks@[k as int].1@),
                ));
                assert(crate::edits::log::crosswalks_view(original_crosswalks@)
                    =~= crate::edits::log::crosswalks_view(self.original_crosswalks@).take(k + 1));
            }
            k = k + 1;
        }
        proof {
            assert(crate::edits::log::intersections_view(self.original_intersections@).take(
                self.original_intersections.len() as int,
            ) =~= crate::edits::log::intersections_view(self.original_intersections@));
            assert(crate::edits::log::crosswalks_view(self.original_crosswalks@).take(
                self.original_crosswalks.len() as int,
            ) =~= crate::edits::log::crosswalks_view(self.original_crosswalks@));
        }
        MapEdits {
            edits_name: self.edits_name.clone(),
            commands: Vec::new(),
            merge_zones: self.merge_zones,
            changed_roads: copy_vec(&self.changed_roads),
            original_intersections,
            original_crosswalks,
            changed_routes: copy_vec(&self.changed_routes),
            proposal_description: copy_texts(&self.proposal_description),
            proposal_link: match &self.proposal_link {
                Some(s) => Some(s.clone()),
                None => None,
            },
        }
    }

    /// Whether a road that is recorded as changed changed as a whole: in its
    /// speed limit, its access restrictions or the number of its lanes.
    pub open spec fn whole_road_changed(map: &StreetMap, r: RoadID) -> bool {
        let road = map.roads[r.0 as int];
        road.speed_limit != road.orig.speed_limit || road.access_restrictions
            != road.orig.access_restrictions || road.lanes.len() != road.orig.lanes_ltr.len()
    }

    /// Tells apart, among the roads recorded as changed, those that changed
    /// as a whole from those of which only some lanes changed. Gives the
    /// changed lanes of the latter and the former roads.
    pub fn changed_lanes(&self, map: &StreetMap) -> (res: (IdSet<LaneID>, IdSet<RoadID>))
        requires
            map.derived_fits(self.derived()),
            forall|q: int| 0 <= q < map.roads.len() ==> #[trigger] map.road_ok(q),
        ensures
            forall|r: RoadID| #[trigger]
                res.1@.contains(r) <==> (self.changed_roads@.contains(r)
                    && Self::whole_road_changed(map, r)),
            forall|l: LaneID| #[trigger]
                res.0@.contains(l) <==> (self.changed_roads@.contains(l.road)
                    && !Self::whole_road_changed(map, l.road) && l.offset
                    < map.roads[l.road.0 as int].lanes.len()
                    && map.roads[l.road.0 as int].lanes[l.offset as int].spec_of()
                    != map.roads[l.road.0 as int].orig.lanes_ltr[l.offset as int]),
    {
        let mut lanes: IdSet<LaneID> = IdSet::new();
        let mut roads: IdSet<RoadID> = IdSet::new();
        let mut k: usize = 0;
        while k < self.changed_roads.len()
            invariant
                k <= self.changed_roads.len(),
                map.derived_fits(self.derived()),
                forall|q: int| 0 <= q < map.roads.len() ==> #[trigger] map.road_ok(q),
                forall|r: RoadID| #[trigger]
                    roads@.contains(r) <==> (self.changed_roads@.take(k as int).contains(r)
                        && Self::whole_road_changed(map, r)),
                forall|l: LaneID| #[trigger]
                    lanes@.contains(l) <==> (self.changed_roads@.take(k as int).contains(l.road)
                        && !Self::whole_road_changed(map, l.road) && l.offset
                        < map.roads[l.road.0 as int].lanes.len()
                        && map.roads[l.road.0 as int].lanes[l.offset as int].spec_of()
                        != map.roads[l.road.0 as int].orig.lanes_ltr[l.offset as int]),
            decreases self.changed_roads.len() - k,
        {
            let r = self.changed_roads[k];
            assert(map.has_road(self.derived().changed_roads[k as int]));
            assert(map.road_ok(r.0 as int));
            let road = &map.roads[r.0];
            let ghost lanes_before = lanes@;
            proof {
                crate::id_set::lemma_push_contains(self.changed_roads@.take(k as int), r);
                assert(self.changed_roads@.take(k + 1) =~= self.changed_roads@.take(k as int).push(
                    r,
                ));
            }
            if road.speed_limit != road.orig.speed_limit || !road.access_restrictions.same_as(
                &road.orig.access_restrictions,
            ) || road.lanes.len() != road.orig.lanes_ltr.len() {
                roads.insert(r);
            } else {
                let mut j: usize = 0;
                while j < road.lanes.len()
                    invariant
                        j <= road.lanes.len(),
                        road == &map.roads[r.0 as int],
                        map.has_road(r),
                        road.id == r,
                        road.lanes_numbered(),
                        road.lanes.len() == road.orig.lanes_ltr.len(),
                        forall|l: LaneID| #[trigger]
                            lanes@.contains(l) <==> (lanes_before.contains(l) || (l.road == r
                                && l.offset < j && road.lanes[l.offset as int].spec_of()
                                != road.orig.lanes_ltr[l.offset as int])),
                    decreases road.lanes.len() - j,
                {
                    if road.lanes[j].spec() != road.orig.lanes_ltr[j] {
                        lanes.insert(road.lanes[j].id);
                    }
                    j = j + 1;
                }
            }
            k = k + 1;
        }
        proof {
            assert(self.changed_roads@.take(k as int) =~= self.changed_roads@);
        }
        (lanes, roads)
    }
}

impl StreetMap {
    /// The edits of the map in the form in which they are saved: the same
    /// name and description, with the fewest commands that lead from the
    /// imported map to the map as it is. `None` if there is nothing to save:
    /// the edits have no name yet and hold no command.
    pub fn save_edits(&self) -> (saved: Option<MapEdits>)
        requires
            self.derived_fits(self.edits.derived()),
        ensures
            match saved {
                Some(e) => {
                    &&& cmds_view(e.commands@) == self.compressed(self.edits.derived())
                    &&& e.derived() == self.edits.derived()
                    &&& e.edits_name == self.edits.edits_name
                    &&& e.merge_zones == self.edits.merge_zones
                    &&& e.proposal_description@ == self.edits.proposal_description@
                    &&& e.proposal_link == self.edits.proposal_link
                    &&& !("Untitled Proposal"@.is_prefix_of(self.edits.edits_name@)
                        && self.compressed(self.edits.derived()).len() == 0)
                    &&& self.wf() && self.edits.records_wf() ==> self.has_targets(e.commands@)
                },
                None => "Untitled Proposal"@.is_prefix_of(self.edits.edits_name@)
                    && self.compressed(self.edits.derived()).len() == 0,
            },
    {
        let mut edits = self.edits.without_commands();
        edits.compress(self);
        if starts_with(edits.edits_name.as_str(), "Untitled Proposal") && edits.commands.len() == 0 {
            None
        } else {
            Some(edits)
        }
    }
}

} // verus!
