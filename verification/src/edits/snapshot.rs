//! Snapshots of the editable state of a map.

use vstd::prelude::*;
use crate::control::TrafficSignal;
use crate::edits::{EditCmd, EditCrosswalks, EditIntersection, EditRoad};
use crate::id_set::lemma_push_contains;
use crate::ids::{IntersectionID, RoadID};
use crate::intersection::Control;
use crate::map::StreetMap;
use crate::road::Road;
use crate::turn::Turn;

verus! {

impl EditRoad {
    /// The state that a road was imported with.
    pub fn get_orig_from_osm(r: &Road) -> (e: EditRoad)
        ensures
            e@ == r.orig@,
    {
        r.orig.clone()
    }
}

impl StreetMap {
    /// The current editable state of a road.
    pub fn get_r_edit(&self, r: RoadID) -> (e: EditRoad)
        requires
            self.has_road(r),
        ensures
            e@ == self.roads[r.0 as int].edit_state(),
    {
        let road = &self.roads[r.0];
        EditRoad {
            lanes_ltr: road.lane_specs(),
            speed_limit: road.speed_limit,
            access_restrictions: road.access_restrictions,
        }
    }

    /// A command that changes a road from its current state to what `f` makes
    /// of it.
    pub fn edit_road_cmd<F: FnOnce(EditRoad) -> EditRoad>(&self, r: RoadID, f: F) -> (cmd: EditCmd)
        requires
            self.has_road(r),
            forall|e: EditRoad| call_requires(f, (e,)),
        ensures
            match cmd {
                EditCmd::ChangeRoad { r: target, old, new } => {
                    &&& target == r
                    &&& old@ == self.roads[r.0 as int].edit_state()
                    &&& exists|e: EditRoad|
                        e@ == self.roads[r.0 as int].edit_state() && call_ensures(f, (e,), new)
                },
                _ => false,
            },
    {
        let old = self.get_r_edit(r);
        let new = f(old.clone());
        EditCmd::ChangeRoad { r, old, new }
    }

    /// The current editable state of an intersection that is no border.
    pub fn get_i_edit(&self, i: IntersectionID) -> (e: EditIntersection)
        requires
            self.has_intersection(i),
            !self.intersections[i.0 as int].spec_is_border(),
        ensures
            e@ == self.intersections[i.0 as int].edit_state(),
    {
        match &self.intersections[i.0].control {
            Control::StopSign(ss) => EditIntersection::StopSign(ss.clone()),
            Control::Uncontrolled(ss) => EditIntersection::StopSign(ss.clone()),
            Control::TrafficSignal(ts) => EditIntersection::TrafficSignal(ts.export()),
            Control::Border => EditIntersection::Closed,
            Control::Construction => EditIntersection::Closed,
        }
    }

    /// The turns of an intersection along which pedestrians cross a road, with
    /// their current types. Where no two turns of the intersection have the
    /// same name, as on a sound map, no turn is named twice.
    pub fn get_i_crosswalks_edit(&self, i: IntersectionID) -> (e: EditCrosswalks)
        requires
            self.has_intersection(i),
        ensures
            e@ == self.intersections[i.0 as int].crosswalks(),
            crate::turn::distinct_names(self.intersections[i.0 as int].turns@) ==> e.wf(),
    {
        let turns = &self.intersections[i.0].turns;
        let mut crossings: Vec<Turn> = Vec::new();
        let mut k: usize = 0;
        while k < turns.len()
            invariant
                k <= turns.len(),
                forall|t: Turn| #[trigger]
                    crossings@.contains(t) <==> (turns@.take(k as int).contains(t)
                        && t.turn_type.spec_pedestrian_crossing()),
                crate::turn::distinct_names(turns@) ==> crate::turn::distinct_names(crossings@),
            decreases turns.len() - k,
        {
            let ghost before = crossings@;
            proof {
                if crate::turn::distinct_names(turns@) {
                    assert forall|a: int| 0 <= a < before.len() implies (#[trigger] before[a]).id
                        != turns@[k as int].id by {
                        assert(before.contains(before[a]));
                        assert(turns@.take(k as int).contains(before[a]));
                        let w = choose|w: int|
                            0 <= w < turns@.take(k as int).len() && turns@.take(k as int)[w]
                                == before[a];
                        assert(turns@[w].id != turns@[k as int].id);
                    }
                }
            }
            if turns[k].turn_type.pedestrian_crossing() {
                crossings.push(turns[k]);
            }
            proof {
                lemma_push_contains(before, turns@[k as int]);
                lemma_push_contains(turns@.take(k as int), turns@[k as int]);
                assert(turns@.take(k + 1) =~= turns@.take(k as int).push(turns@[k as int]));
                assert forall|t: Turn| #[trigger]
                    crossings@.contains(t) <==> (turns@.take(k + 1).contains(t)
                        && t.turn_type.spec_pedestrian_crossing()) by {
                    assert(before.contains(t) <==> (turns@.take(k as int).contains(t)
                        && t.turn_type.spec_pedestrian_crossing()));
                    assert(before.push(turns@[k as int]).contains(t) <==> (before.contains(t) || t
                        == turns@[k as int]));
                    assert(turns@.take(k as int).push(turns@[k as int]).contains(t) <==> (
                    turns@.take(k as int).contains(t) || t == turns@[k as int]));
                }
            }
            k = k + 1;
        }
        proof {
            assert(turns@.take(k as int) =~= turns@);
            assert(crossings@.to_set() =~= self.intersections[i.0 as int].crosswalks());
        }
        let e = EditCrosswalks(crossings);
        proof {
            e.lemma_wf();
        }
        e
    }
}

} // verus!
