//! Applying one command to a map.

use vstd::prelude::*;
use crate::control::{ControlStopSign, ControlTrafficSignal};
use crate::edits::{
    ApplyError, EditCmd, EditCmdView, EditCrosswalks, EditEffects, EditIntersectionView,
    EditRoadView,
};
use crate::ids::{IntersectionID, RoadID};
use crate::intersection::Control;
use crate::map::StreetMap;
use crate::policy::{movements_view, timing_fits};
use crate::services::Geometry;
use crate::edits::turns::{lemma_kept_turns_follow, lemma_turns_follow_trans};
use crate::turn::{find_turn, has_turn, Turn};
use crate::units::Time;
use crate::vecs::copy_vec;

verus! {

/// The states of all roads after a command.
pub open spec fn road_states_after(states: Seq<EditRoadView>, cmd: EditCmdView) -> Seq<
    EditRoadView,
> {
    match cmd {
        EditCmdView::ChangeRoad { r, new, .. } => if r.0 < states.len() {
            states.update(r.0 as int, new)
        } else {
            states
        },
        _ => states,
    }
}

/// The schedules of all transit routes after a command.
pub open spec fn schedules_after(schedules: Seq<Seq<Time>>, cmd: EditCmdView) -> Seq<Seq<Time>> {
    match cmd {
        EditCmdView::ChangeRouteSchedule { id, new, .. } => if id.0 < schedules.len() {
            schedules.update(id.0 as int, new)
        } else {
            schedules
        },
        _ => schedules,
    }
}

/// The turns with the types that the first `n` of the given entries give
/// them: an entry gives its type to the first turn of its name.
pub open spec fn retyped(turns: Seq<Turn>, entries: Seq<Turn>, n: int) -> Seq<Turn>
    decreases n,
{
    if n <= 0 {
        turns
    } else {
        let before = retyped(turns, entries, n - 1);
        let e = entries[n - 1];
        Seq::new(
            before.len(),
            |k: int|
                if before[k].id == e.id && forall|j: int| 0 <= j < k ==> before[j].id != e.id {
                    Turn { id: e.id, turn_type: e.turn_type }
                } else {
                    before[k]
                },
        )
    }
}

/// Whether one of the entries names a turn that is not among the turns.
pub open spec fn names_unknown(turns: Seq<Turn>, entries: Seq<Turn>) -> bool {
    exists|k: int| 0 <= k < entries.len() && !has_turn(turns, #[trigger] entries[k].id)
}

/// The name of the first entry from position `k` on that names a turn which
/// is not among the turns; if there is none, the name of the last entry.
pub open spec fn first_unknown(turns: Seq<Turn>, entries: Seq<Turn>, k: int) -> crate::ids::TurnID
    decreases entries.len() - k,
{
    if k < 0 || k + 1 >= entries.len() || !has_turn(turns, entries[k].id) {
        entries[k].id
    } else {
        first_unknown(turns, entries, k + 1)
    }
}

/// Giving new types to turns keeps their names.
pub proof fn lemma_retyped_ids(turns: Seq<Turn>, entries: Seq<Turn>, n: int)
    ensures
        retyped(turns, entries, n).len() == turns.len(),
        forall|k: int| 0 <= k < turns.len() ==> (#[trigger] retyped(turns, entries, n)[k]).id
            == turns[k].id,
    decreases n,
{
    if n > 0 {
        lemma_retyped_ids(turns, entries, n - 1);
    }
}

/// Whether a command might change intersection `j` of a map with the given
/// roads: it changes that intersection or its crossings, or it changes a road
/// that ends there.
pub open spec fn cmd_touches(cmd: EditCmdView, roads: Seq<crate::road::Road>, j: int) -> bool {
    match cmd {
        EditCmdView::ChangeRoad { r, .. } => crate::map::road_touches(
            roads,
            r,
            IntersectionID(j as usize),
        ),
        EditCmdView::ChangeIntersection { i, .. } => i.0 == j,
        EditCmdView::ChangeCrosswalks { i, .. } => i.0 == j,
        EditCmdView::ChangeRouteSchedule { .. } => false,
    }
}

/// Whether a command might change road number `q`: it changes that road or
/// a road that meets it.
pub open spec fn road_near(cmd: EditCmdView, roads: Seq<crate::road::Road>, q: int) -> bool {
    match cmd {
        EditCmdView::ChangeRoad { r, .. } => r.0 < roads.len() && (q == r.0
            || crate::map::road_touches(roads, RoadID(q as usize), roads[r.0 as int].src_i)
            || crate::map::road_touches(roads, RoadID(q as usize), roads[r.0 as int].dst_i)),
        _ => false,
    }
}

/// The roads other than `r` that meet road `r` at one of its ends.
pub open spec fn neighbours_of(map: &StreetMap, r: RoadID) -> Set<RoadID> {
    let src = map.intersections[map.roads[r.0 as int].src_i.0 as int];
    let dst = map.intersections[map.roads[r.0 as int].dst_i.0 as int];
    (crate::edits::shape::others(src.roads@, r, src.roads.len() as int)
        + crate::edits::shape::others(dst.roads@, r, dst.roads.len() as int)).to_set()
}

impl EditEffects {
    /// What a change to the control of intersection `i` does to the turns
    /// recorded in the effects `before`: nothing, unless the turns of the
    /// intersection are `remade`; then those that it had are deleted and
    /// those that it has now are added, and no turn of another intersection
    /// is recorded anew.
    pub open spec fn control_effects(
        &self,
        before: &EditEffects,
        old: &StreetMap,
        new: &StreetMap,
        i: IntersectionID,
        remade: bool,
    ) -> bool {
        if remade {
            &&& self.turns_remade(old, new, i)
            &&& forall|t: crate::ids::TurnID| #[trigger]
                self.deleted_turns@.contains(t) ==> before.deleted_turns@.contains(t) || t.parent
                    == i
            &&& forall|t: crate::ids::TurnID| #[trigger]
                self.added_turns@.contains(t) ==> before.added_turns@.contains(t) || t.parent == i
        } else {
            self.added_turns@ == before.added_turns@ && self.deleted_turns@
                == before.deleted_turns@
        }
    }

    /// What a change to the lanes of road `r` adds to the effects `before`:
    /// the road and the roads that meet it are changed, and so are the
    /// intersections at its ends; the lanes that the road had are deleted;
    /// these and the lanes of the roads that meet it are modified. The turns
    /// that the intersections at its ends had are deleted, and the turns that
    /// they have now are added; no turn of another intersection is recorded
    /// anew, and no turn of a closed one is added.
    pub open spec fn road_effects(
        &self,
        before: &EditEffects,
        old: &StreetMap,
        new: &StreetMap,
        r: RoadID,
    ) -> bool {
        let src_i = old.roads[r.0 as int].src_i;
        let dst_i = old.roads[r.0 as int].dst_i;
        &&& self.changed_roads@ == before.changed_roads@.union(neighbours_of(old, r)).insert(r)
        &&& self.changed_intersections@ == before.changed_intersections@.insert(src_i).insert(
            dst_i,
        )
        &&& self.deleted_lanes@ == before.deleted_lanes@.union(
            crate::edits::lanes::lanes_upto(r, old.roads[r.0 as int].lanes.len() as int),
        )
        &&& self.modified_lanes@ == before.modified_lanes@.union(
            crate::edits::lanes::lanes_of(new.roads@, neighbours_of(old, r)),
        ).union(self.deleted_lanes@)
        &&& self.changed_parking_lots == before.changed_parking_lots
        &&& self.turns_remade(old, new, src_i)
        &&& self.turns_remade(old, new, dst_i)
        &&& forall|t: crate::ids::TurnID| #[trigger]
            self.deleted_turns@.contains(t) ==> before.deleted_turns@.contains(t) || t.parent
                == src_i || t.parent == dst_i
        &&& forall|t: crate::ids::TurnID| #[trigger]
            self.added_turns@.contains(t) ==> before.added_turns@.contains(t) || (t.parent == src_i
                && !old.intersections[src_i.0 as int].spec_is_closed()) || (t.parent == dst_i
                && !old.intersections[dst_i.0 as int].spec_is_closed())
    }
}

/// Making the turns of an intersection anew, once or again, is recorded as
/// [`EditEffects::control_effects`] says.
pub proof fn lemma_control_remade(
    before: &EditEffects,
    mid: &EditEffects,
    after: &EditEffects,
    old: &StreetMap,
    m1: &StreetMap,
    m2: &StreetMap,
    i: IntersectionID,
)
    requires
        m1.intersection_ok(i.0 as int),
        m2.intersection_ok(i.0 as int),
        mid.control_effects(before, old, m1, i, true) || (mid.control_effects(
            before,
            old,
            m1,
            i,
            false,
        ) && m1.intersections[i.0 as int].turns@ == old.intersections[i.0 as int].turns@),
        after.deleted_turns@ == mid.deleted_turns@.union(
            crate::edits::turns::turn_ids(m1.intersections[i.0 as int].turns@),
        ),
        after.added_turns@ == mid.added_turns@.union(
            crate::edits::turns::turn_ids(m2.intersections[i.0 as int].turns@),
        ),
    ensures
        after.control_effects(before, old, m2, i, true),
{
    let then = m1.intersections[i.0 as int].turns@;
    let now = m2.intersections[i.0 as int].turns@;
    assert forall|t: crate::ids::TurnID| #[trigger]
        after.deleted_turns@.contains(t) implies before.deleted_turns@.contains(t) || t.parent
        == i by {
        if !mid.deleted_turns@.contains(t) {
            assert(crate::edits::turns::turn_ids(then).contains(t));
            let w = choose|w: int| 0 <= w < then.len() && #[trigger] then[w].id == t;
            assert(m1.intersections[i.0 as int].turns[w].id.parent == i);
        }
    }
    assert forall|t: crate::ids::TurnID| #[trigger]
        after.added_turns@.contains(t) implies before.added_turns@.contains(t) || t.parent
        == i by {
        if !mid.added_turns@.contains(t) {
            assert(crate::edits::turns::turn_ids(now).contains(t));
            let w = choose|w: int| 0 <= w < now.len() && #[trigger] now[w].id == t;
            assert(m2.intersections[i.0 as int].turns[w].id.parent == i);
        }
    }
    assert forall|t: crate::ids::TurnID|
        crate::edits::turns::turn_ids(old.intersections[i.0 as int].turns@).contains(
            t,
        ) implies after.deleted_turns@.contains(t) by {
        if !mid.control_effects(before, old, m1, i, true) {
            assert(crate::edits::turns::turn_ids(then).contains(t));
        } else {
            assert(mid.deleted_turns@.contains(t));
        }
    }
}

/// Whether the state is a signal with a timing that does not fit an
/// intersection with the given movements: see [`timing_fits`].
pub open spec fn signal_misfit(
    new: EditIntersectionView,
    movements: Seq<crate::policy::MovementView>,
) -> bool {
    match new {
        EditIntersectionView::TrafficSignal(raw) => !timing_fits(raw, movements),
        _ => false,
    }
}

/// Whether a command changes the given road.
pub open spec fn changes_road(cmd: EditCmdView, road: RoadID) -> bool {
    match cmd {
        EditCmdView::ChangeRoad { r, .. } => r == road,
        _ => false,
    }
}

impl StreetMap {
    /// Whether intersection `i` lists the lanes that lead into it and those
    /// that leave it as the roads there have them now: see
    /// [`crate::edits::lanes::lane_list`].
    pub open spec fn lanes_listed(&self, i: IntersectionID) -> bool {
        let x = self.intersections[i.0 as int];
        &&& x.outgoing_lanes@ == crate::edits::lanes::lane_list(
            self.roads@,
            x.roads@,
            i,
            true,
            x.roads.len() as int,
        )
        &&& x.incoming_lanes@ == crate::edits::lanes::lane_list(
            self.roads@,
            x.roads@,
            i,
            false,
            x.roads.len() as int,
        )
    }

    /// What a change to road `r` leaves at intersection `i`, one of its ends:
    /// the lanes are listed anew, the intersection is controlled in the same
    /// way as before, by default, and an open intersection has the movements
    /// of its new turns.
    pub open spec fn end_remade(&self, old: &StreetMap, i: IntersectionID) -> bool {
        let x = self.intersections[i.0 as int];
        &&& self.lanes_listed(i)
        &&& x.kind() == old.intersections[i.0 as int].kind()
        &&& self.control_is_default(i)
        &&& !x.spec_is_border() && !x.spec_is_closed() ==> movements_view(x.movements@)
            == crate::policy::movements_of(self.roads@, i, x.turns@, x.turns.len() as int)
        &&& x.spec_is_closed() ==> x.turns@ == Seq::<Turn>::empty()
    }

    /// Whether the command would change nothing, since its target is in the
    /// state that the command leads to already.
    pub open spec fn already_applied(&self, cmd: EditCmd) -> bool {
        match cmd {
            EditCmd::ChangeRoad { r, new, .. } => self.roads[r.0 as int].edit_state() == new@,
            EditCmd::ChangeIntersection { i, new,
                .. } => self.intersections[i.0 as int].edit_state()
                == new@,
            EditCmd::ChangeCrosswalks { i, new, .. } => self.intersections[i.0 as int].crosswalks()
                == new@,
            EditCmd::ChangeRouteSchedule { id, new, .. } => false,
        }
    }

    /// Whether the two maps have the same buildings, parking lots, transit
    /// stops, zones, applied edits, edit count and pathfinding mark.
    pub open spec fn same_surroundings(&self, other: &StreetMap) -> bool {
        &&& self.buildings == other.buildings
        &&& self.parking_lots == other.parking_lots
        &&& self.transit_stops == other.transit_stops
        &&& self.zones == other.zones
        &&& self.edits == other.edits
        &&& self.edits_generation == other.edits_generation
        &&& self.pathfinder_dirty == other.pathfinder_dirty
    }
}

/// Changing lanes keeps the turns sound at every intersection where no road
/// has lanes that it had not before.
pub proof fn lemma_lanes_keep_turns(before: &StreetMap, after: &StreetMap, r: RoadID, j: int)
    requires
        before.base_ok(),
        before.has_road(r),
        after.same_but_lanes_of(before, r),
        0 <= j < before.intersections.len(),
        before.turns_ok(j),
        !before.touches(r, IntersectionID(j as usize)) || crate::road::specs_of(
            after.roads[r.0 as int].lanes@,
        ) == crate::road::specs_of(before.roads[r.0 as int].lanes@),
    ensures
        after.turns_ok(j),
{
    let x = after.intersections[j];
    assert(x.same_but_polygon(&before.intersections[j]));
    assert(before.intersection_ok(j));
    assert(crate::road::specs_of(after.roads[r.0 as int].lanes@).len()
        == after.roads[r.0 as int].lanes.len());
    assert(crate::road::specs_of(before.roads[r.0 as int].lanes@).len()
        == before.roads[r.0 as int].lanes.len());
    assert forall|k: int| 0 <= k < before.intersections[j].roads.len() implies crate::policy::same_for_signs(
        before.roads[(#[trigger] before.intersections[j].roads[k]).0 as int],
        after.roads[before.intersections[j].roads[k].0 as int],
    ) by {
        let q = before.intersections[j].roads[k];
        assert(before.touches(q, before.intersections[j].id));
        assert(after.roads[q.0 as int].same_but_lanes(&before.roads[q.0 as int]));
    }
    before.lemma_signs_stay(after, j);
    assert forall|k: int| 0 <= k < x.turns.len() implies after.turn_ok(#[trigger] x.turns[k],
        x.id) by {
        let t = x.turns[k];
        assert(before.turn_ok(before.intersections[j].turns[k], x.id));
        lemma_same_lane_count(before, after, r, t.id.src.road);
        lemma_same_lane_count(before, after, r, t.id.dst.road);
    }
}

/// A road other than `r` has as many lanes as before.
pub proof fn lemma_same_lane_count(before: &StreetMap, after: &StreetMap, r: RoadID, q: RoadID)
    requires
        after.same_but_lanes_of(before, r),
        before.has_road(q),
    ensures
        q != r ==> after.roads[q.0 as int].lanes.len() == before.roads[q.0 as int].lanes.len(),
        after.roads[q.0 as int].same_but_lanes(&before.roads[q.0 as int]),
{
    if q != r {
        assert(crate::road::specs_of(after.roads[q.0 as int].lanes@).len()
            == after.roads[q.0 as int].lanes.len());
        assert(crate::road::specs_of(before.roads[q.0 as int].lanes@).len()
            == before.roads[q.0 as int].lanes.len());
    }
}

/// Changing lanes keeps the roads, intersections and commands sound.
pub proof fn lemma_lanes_keep_frame(before: &StreetMap, after: &StreetMap, r: RoadID)
    requires
        before.base_ok(),
        after.base_ok(),
        before.has_road(r),
        after.same_but_lanes_of(before, r),
    ensures
        after.edited_from(before),
        after.same_surroundings(before),
        after.transit_routes == before.transit_routes,
{
    assert forall|q: int| 0 <= q < after.roads.len() implies (
    #[trigger] after.roads[q]).same_but_state(&before.roads[q]) by {
        assert(after.roads[q].same_but_lanes(&before.roads[q]));
    }
    assert forall|j: int| 0 <= j < after.intersections.len() implies {
        &&& (#[trigger] after.intersections[j]).id == before.intersections[j].id
        &&& after.intersections[j].roads == before.intersections[j].roads
        &&& after.intersections[j].spec_is_border() == before.intersections[j].spec_is_border()
    } by {
        assert(after.intersections[j].same_but_polygon(&before.intersections[j]));
    }
}

/// Listing the lanes of an intersection anew keeps the map sound.
pub proof fn lemma_lists_keep_base(before: &StreetMap, after: &StreetMap, i: IntersectionID)
    requires
        before.has_intersection(i),
        forall|q: int| 0 <= q < before.roads.len() ==> #[trigger] before.road_ok(q),
        forall|j: int| 0 <= j < before.intersections.len() ==> #[trigger] before.intersection_ok(j),
        before.has_targets(before.edits.commands@),
        after.roads == before.roads,
        after.edits == before.edits,
        after.transit_routes == before.transit_routes,
        after.intersections.len() == before.intersections.len(),
        forall|j: int|
            0 <= j < after.intersections.len() && j != i.0 ==> after.intersections[j]
                == before.intersections[j],
        after.intersections[i.0 as int].same_but_polygon_and_lists(&before.intersections[i.0 as int]),
    ensures
        after.base_ok(),
        forall|j: int|
            0 <= j < after.intersections.len() && before.turns_ok(j) ==> #[trigger] after.turns_ok(
                j,
            ),
{
    assert forall|q: int| 0 <= q < after.roads.len() implies #[trigger] after.road_ok(q) by {
        assert(before.road_ok(q));
    }
    assert forall|j: int| 0 <= j < after.intersections.len() implies #[trigger]
        after.intersection_ok(j) by {
        assert(before.intersection_ok(j));
    }
    assert forall|c: int| 0 <= c < after.edits.commands@.len() implies after.has_target(
        #[trigger] after.edits.commands@[c],
    ) by {
        assert(before.has_target(before.edits.commands@[c]));
    }
    assert forall|j: int|
        0 <= j < after.intersections.len() && before.turns_ok(j) implies #[trigger] after.turns_ok(
        j,
    ) by {}
}

/// Changing the control of an open or closed intersection keeps the roads,
/// intersections and commands sound, and the turns elsewhere.
pub proof fn lemma_control_keeps_base(before: &StreetMap, after: &StreetMap, i: IntersectionID)
    requires
        before.base_ok(),
        before.has_intersection(i),
        !before.intersections[i.0 as int].spec_is_border(),
        !after.intersections[i.0 as int].spec_is_border(),
        after.roads == before.roads,
        after.edits == before.edits,
        after.transit_routes == before.transit_routes,
        after.intersections.len() == before.intersections.len(),
        forall|j: int|
            0 <= j < after.intersections.len() && j != i.0 ==> after.intersections[j]
                == before.intersections[j],
        after.intersections[i.0 as int].id == before.intersections[i.0 as int].id,
        after.intersections[i.0 as int].roads == before.intersections[i.0 as int].roads,
        after.intersections[i.0 as int].turns == before.intersections[i.0 as int].turns,
    ensures
        after.base_ok(),
{
    assert forall|q: int| 0 <= q < after.roads.len() implies #[trigger] after.road_ok(q) by {
        assert(before.road_ok(q));
    }
    assert forall|j: int| 0 <= j < after.intersections.len() implies #[trigger]
        after.intersection_ok(j) by {
        assert(before.intersection_ok(j));
    }
    assert forall|c: int| 0 <= c < after.edits.commands@.len() implies after.has_target(
        #[trigger] after.edits.commands@[c],
    ) by {
        assert(before.has_target(before.edits.commands@[c]));
    }
}

/// A map that differs from a sound one at one intersection only, and is
/// sound there, is sound, and came from it by edits.
pub proof fn lemma_frame_compose(before: &StreetMap, after: &StreetMap, i: IntersectionID)
    requires
        before.wf(),
        before.has_intersection(i),
        after.base_ok(),
        after.turns_ok(i.0 as int),
        after.roads == before.roads,
        after.city == before.city,
        after.transit_routes == before.transit_routes,
        after.buildings == before.buildings,
        after.parking_lots == before.parking_lots,
        after.transit_stops == before.transit_stops,
        after.intersections.len() == before.intersections.len(),
        forall|j: int|
            0 <= j < after.intersections.len() && j != i.0 ==> after.intersections[j]
                == before.intersections[j],
        after.intersections[i.0 as int].id == before.intersections[i.0 as int].id,
        after.intersections[i.0 as int].roads == before.intersections[i.0 as int].roads,
        after.intersections[i.0 as int].spec_is_border()
            == before.intersections[i.0 as int].spec_is_border(),
    ensures
        after.wf(),
        after.edited_from(before),
{
    assert forall|j: int| 0 <= j < after.intersections.len() implies #[trigger] after.turns_ok(
        j,
    ) by {
        if j != i.0 {
            assert(before.turns_ok(j));
        }
    }
}

/// Giving new types to the turns of an intersection keeps the map sound.
pub proof fn lemma_types_keep_wf(before: &StreetMap, after: &StreetMap, i: IntersectionID)
    requires
        before.wf(),
        before.has_intersection(i),
        after.roads == before.roads,
        after.city == before.city,
        after.edits == before.edits,
        after.transit_routes == before.transit_routes,
        after.buildings == before.buildings,
        after.parking_lots == before.parking_lots,
        after.transit_stops == before.transit_stops,
        after.intersections.len() == before.intersections.len(),
        forall|j: int|
            0 <= j < after.intersections.len() && j != i.0 ==> after.intersections[j]
                == before.intersections[j],
        after.intersections[i.0 as int].same_but_turn_types(&before.intersections[i.0 as int]),
        after.intersections[i.0 as int].turns.len() == before.intersections[i.0 as int].turns.len(),
        forall|k: int|
            0 <= k < after.intersections[i.0 as int].turns.len() ==> (
            #[trigger] after.intersections[i.0 as int].turns[k]).id
                == before.intersections[i.0 as int].turns[k].id,
    ensures
        after.wf(),
        after.edited_from(before),
{
    assert forall|q: int| 0 <= q < after.roads.len() implies #[trigger] after.road_ok(q) by {
        assert(before.road_ok(q));
    }
    assert forall|j: int| 0 <= j < after.intersections.len() implies #[trigger]
        after.intersection_ok(j) by {
        assert(before.intersection_ok(j));
    }
    assert forall|c: int| 0 <= c < after.edits.commands@.len() implies after.has_target(
        #[trigger] after.edits.commands@[c],
    ) by {
        assert(before.has_target(before.edits.commands@[c]));
    }
    assert forall|j: int| 0 <= j < after.intersections.len() implies #[trigger] after.turns_ok(
        j,
    ) by {
        assert(before.turns_ok(j));
        if j == i.0 {
            let x = after.intersections[j];
            assert forall|k: int| 0 <= k < x.turns.len() implies after.turn_ok(
                #[trigger] x.turns[k],
                x.id,
            ) by {
                assert(before.turn_ok(before.intersections[j].turns[k], x.id));
            }
        }
    }
}

impl StreetMap {
    /// What a command that changes the control of intersection `i` to `new`
    /// leaves behind, where the intersection was not in that state already.
    /// `was` is the state that the command gives as the one before it.
    ///
    /// The intersection is closed if and only if `new` is. Stop signs are
    /// always set up from the roads and lanes alone. A signal gets the timing
    /// of the command. Where the command closes the intersection or opens it
    /// again, its turns are made anew: a closed intersection has none, and
    /// an opened one has the movements of its new turns and its control set
    /// up anew from them, so that a signal timing given by the command is
    /// lost. Otherwise the turns and movements stay.
    pub open spec fn control_follows(
        &self,
        old: &StreetMap,
        i: IntersectionID,
        new: EditIntersectionView,
        was: EditIntersectionView,
    ) -> bool {
        let x = self.intersections[i.0 as int];
        let remade = was is Closed || new is Closed;
        &&& x.incoming_lanes == old.intersections[i.0 as int].incoming_lanes
        &&& x.outgoing_lanes == old.intersections[i.0 as int].outgoing_lanes
        &&& x.polygon == old.intersections[i.0 as int].polygon
        &&& match new {
            EditIntersectionView::StopSign(_) => x.control is StopSign
                && self.control_is_default(i),
            EditIntersectionView::TrafficSignal(raw) => x.control is TrafficSignal && if remade {
                self.control_is_default(i)
            } else {
                x.edit_state() == new
            },
            EditIntersectionView::Closed => x.control is Construction && x.turns@
                == Seq::<Turn>::empty(),
        }
        &&& !remade ==> x.turns == old.intersections[i.0 as int].turns && x.movements
            == old.intersections[i.0 as int].movements
        &&& remade && !(new is Closed) ==> movements_view(x.movements@)
            == crate::policy::movements_of(self.roads@, i, x.turns@, x.turns.len() as int)
        &&& new is Closed ==> x.movements == old.intersections[i.0 as int].movements
    }
}

impl EditCmd {
    /// What [`EditCmd::apply`] leaves behind: `m0` and `e0` are the map and
    /// the effects before the command, `m1` and `e1` after it, and `res` is
    /// what came back.
    pub open spec fn outcome(
        &self,
        e0: &EditEffects,
        m0: &StreetMap,
        e1: &EditEffects,
        m1: &StreetMap,
        res: Result<(), ApplyError>,
    ) -> bool {
        &&& m1.wf()
        &&& m1.edited_from(m0)
        &&& m1.same_surroundings(m0)
        &&& m0.already_applied(*self) ==> res.is_ok() && *m1 == *m0
            && *e1 == *e0
        &&& res.is_ok() ==> m1.road_states() == road_states_after(
            m0.road_states(),
            self@,
        )
        &&& res.is_ok() ==> m1.schedules() == schedules_after(m0.schedules(), self@)
        &&& res.is_err() ==> m1.road_states() == m0.road_states()
            && m1.schedules() == m0.schedules()
        &&& forall|j: int|
            0 <= j < m0.intersections.len() && !cmd_touches(self@, m0.roads@, j)
                ==> m1.intersections[j] == m0.intersections[j]
        &&& forall|q: int|
            0 <= q < m0.roads.len() && !road_near(self@, m0.roads@, q)
                ==> m1.roads[q] == m0.roads[q]
        &&& forall|l: crate::ids::LaneID| #[trigger]
            e1.deleted_lanes@.contains(l) ==> e0.deleted_lanes@.contains(
                l,
            ) || changes_road(self@, l.road)
        &&& e1.turns_follow(e0, m0, m1)
        &&& e1.extends(e0)
        &&& match *self {
            EditCmd::ChangeRoad { r, old: _, new } => {
                &&& res.is_err() ==> *e1 == *e0
                &&& match res {
                    Ok(()) => true,
                    Err(e) => e == ApplyError::NoIntersectionShape(
                        m0.roads[r.0 as int].src_i,
                    ) || e == ApplyError::NoIntersectionShape(m0.roads[r.0 as int].dst_i),
                }
                &&& res.is_ok() && !m0.already_applied(*self) ==> {
                    &&& m1.end_remade(m0, m0.roads[r.0 as int].src_i)
                    &&& m1.end_remade(m0, m0.roads[r.0 as int].dst_i)
                    &&& e1.road_effects(e0, m0, m1, r)
                }
            },
            EditCmd::ChangeIntersection { i, new, old: was } => {
                &&& m1.roads == m0.roads
                &&& e1.same_but_intersections(e0)
                &&& !m0.already_applied(*self) ==> e1.changed_intersections@
                    == e0.changed_intersections@.insert(i)
                &&& match res {
                    Ok(()) => !m0.already_applied(*self) ==> m1.control_follows(
                        m0,
                        i,
                        new@,
                        was@,
                    ),
                    Err(e) => e == ApplyError::SignalDoesNotFit(i) && new@ is TrafficSignal,
                }
                &&& !m0.already_applied(*self) && !(was@ is Closed) ==> (res.is_err()
                    <==> signal_misfit(
                    new@,
                    movements_view(m0.intersections[i.0 as int].movements@),
                ))
                &&& e1.control_effects(
                    e0,
                    m0,
                    m1,
                    i,
                    (was@ is Closed || new@ is Closed) && !m0.already_applied(*self),
                )
            },
            EditCmd::ChangeCrosswalks { i, old: _, new } => {
                &&& m1.roads == m0.roads
                &&& m1.intersections[i.0 as int].same_but_turn_types(
                    &m0.intersections[i.0 as int],
                )
                &&& e1.same_but_intersections(e0)
                &&& e1.added_turns@ == e0.added_turns@
                &&& e1.deleted_turns@ == e0.deleted_turns@
                &&& match res {
                    Ok(()) => !m0.already_applied(*self) ==> {
                        &&& m1.intersections[i.0 as int].turns@ == retyped(
                            m0.intersections[i.0 as int].turns@,
                            new.0@,
                            new.0.len() as int,
                        )
                        &&& e1.changed_intersections@
                            == e0.changed_intersections@.insert(i)
                    },
                    Err(e) => {
                        &&& *m1 == *m0
                        &&& *e1 == *e0
                        &&& e == ApplyError::UnknownTurn(
                            first_unknown(m0.intersections[i.0 as int].turns@, new.0@, 0),
                        )
                    },
                }
                &&& res.is_err() <==> !m0.already_applied(*self) && names_unknown(
                    m0.intersections[i.0 as int].turns@,
                    new.0@,
                )
            },
            EditCmd::ChangeRouteSchedule { id, old: _, new } => {
                &&& res.is_ok()
                &&& m1.roads == m0.roads
                &&& m1.intersections == m0.intersections
                &&& *e1 == *e0
            },
        }
    }

    /// Applies the command to the map and records what it touched.
    ///
    /// Nothing happens if the target is in the state `new` of the command
    /// already; so a command may be applied again without harm.
    ///
    /// - `ChangeRoad` gives the road its new lanes (see
    ///   [`StreetMap::modify_lanes`]), speed limit and access restrictions,
    ///   records the road and the intersections at its ends as changed, and
    ///   makes the turns at both ends anew (see
    ///   [`StreetMap::recalculate_turns`]). The stop signs or the signal at
    ///   either end are set up anew from them: a signal timing that was set
    ///   by hand is lost. The lanes at both ends are listed anew, and the ends
    ///   stay controlled in the way they were: see
    ///   [`StreetMap::end_remade`]. It is an error if the geometry gives no
    ///   shape for one of the ends.
    /// - `ChangeIntersection` changes how the intersection is controlled: see
    ///   [`StreetMap::control_follows`]. It is an error if the command gives a
    ///   signal a timing that does not fit the movements of the intersection;
    ///   nothing else is an error.
    /// - `ChangeCrosswalks` gives each turn that the command names the type
    ///   that it names for it. If the intersection lacks one of them, that is
    ///   an error, with the first such name, and nothing changes. The turns
    ///   recorded as added and deleted stay as they are.
    /// - `ChangeRouteSchedule` gives the route its new schedule.
    ///
    /// The state of every road and the schedule of every route afterwards is
    /// that of [`road_states_after`] and [`schedules_after`]. An intersection
    /// that the command does not touch stays as it is, and so does a road
    /// that is not the changed one and does not meet it. What was recorded in
    /// the effects stays recorded. All of this is [`EditCmd::outcome`].
    pub fn apply<G: Geometry>(
        &self,
        effects: &mut EditEffects,
        map: &mut StreetMap,
        geom: &G,
    ) -> (res:
        Result<(), ApplyError>)
        requires
            old(map).wf(),
            old(map).has_target(*self),
        ensures
            self.outcome(old(effects), old(map), final(effects), final(map), res),
    {
        match self {
            EditCmd::ChangeRoad { r, old: _, new } => {
                let res = Self::apply_road(map, *r, new, effects, geom);
                proof {
                    assert(map.schedules() =~= old(map).schedules());
                    assert forall|q: int|
                        0 <= q < old(map).roads.len() && !road_near(
                            self@,
                            old(map).roads@,
                            q,
                        ) implies map.roads[q] == old(map).roads[q] by {
                        assert(!old(map).near(*r, q));
                    }
                }
                res
            },
            EditCmd::ChangeIntersection { i, new, old: was } => {
                let res = Self::apply_intersection(map, *i, new, was, effects, geom);
                proof {
                    assert(map.schedules() =~= old(map).schedules());
                    assert(map.road_states() =~= old(map).road_states());
                }
                res
            },
            EditCmd::ChangeCrosswalks { i, old: _, new } => {
                let res = Self::apply_crosswalks(map, *i, new, effects);
                proof {
                    assert(map.schedules() =~= old(map).schedules());
                    assert(map.road_states() =~= old(map).road_states());
                }
                res
            },
            EditCmd::ChangeRouteSchedule { id, old: _, new } => {
                Self::apply_schedule(map, *id, new);
                proof {
                    assert(map.road_states() =~= old(map).road_states());
                    lemma_kept_turns_follow(old(map), map, old(effects), effects);
                }
                Ok(())
            },
        }
    }

    /// Gives a road the state of the command.
    fn apply_road<G: Geometry>(
        map: &mut StreetMap,
        r: RoadID,
        new: &crate::edits::EditRoad,
        effects: &mut EditEffects,
        geom: &G,
    ) -> (res: Result<(), ApplyError>)
        requires
            old(map).has_road(r),
            old(map).wf(),
        ensures
            final(map).wf(),
            final(map).edited_from(old(map)),
            final(map).same_surroundings(old(map)),
            final(map).transit_routes == old(map).transit_routes,
            final(effects).turns_follow(old(effects), old(map), final(map)),
            final(effects).extends(old(effects)),
            old(map).roads[r.0 as int].edit_state() == new@ ==> res.is_ok() && *final(map)
                == *old(map) && *final(effects) == *old(effects),
            res.is_ok() ==> final(map).road_states() == old(map).road_states().update(
                r.0 as int,
                new@,
            ),
            res.is_err() ==> final(map).road_states() == old(map).road_states() && *final(effects)
                == *old(effects),
            match res {
                Ok(()) => true,
                Err(e) => e == ApplyError::NoIntersectionShape(old(map).roads[r.0 as int].src_i)
                    || e == ApplyError::NoIntersectionShape(old(map).roads[r.0 as int].dst_i),
            },
            forall|j: int|
                0 <= j < old(map).intersections.len() && !old(map).touches(
                    r,
                    IntersectionID(j as usize),
                ) ==> final(map).intersections[j] == old(map).intersections[j],
            forall|q: int|
                0 <= q < old(map).roads.len() && !old(map).near(r, q) ==> final(map).roads[q]
                    == old(map).roads[q],
            res.is_ok() && old(map).roads[r.0 as int].edit_state() != new@ ==> {
                &&& final(map).end_remade(old(map), old(map).roads[r.0 as int].src_i)
                &&& final(map).end_remade(old(map), old(map).roads[r.0 as int].dst_i)
                &&& final(effects).road_effects(old(effects), old(map), final(map), r)
            },
    {
        let current = map.get_r_edit(r);
        if current.same_as(new) {
            proof {
                assert(map.road_states() =~= old(map).road_states().update(r.0 as int, new@));
                lemma_kept_turns_follow(old(map), map, old(effects), effects);
            }
            return Ok(());
        }
        assert(map.road_ok(r.0 as int));
        let src_i = map.roads[r.0].src_i;
        let dst_i = map.roads[r.0].dst_i;
        match map.modify_lanes(r, &new.lanes_ltr, effects, geom) {
            Ok(()) => {},
            Err(e) => {
                proof {
                    assert forall|j: int| 0 <= j < map.intersections.len() implies map.intersections[j].turns
                        == old(map).intersections[j].turns by {
                        assert(map.intersections[j].same_but_polygon(&old(map).intersections[j]));
                    }
                    lemma_kept_turns_follow(old(map), map, old(effects), effects);
                    lemma_lanes_keep_frame(old(map), map, r);
                    assert forall|j: int| 0 <= j < map.intersections.len() implies #[trigger]
                        map.turns_ok(j) by {
                        lemma_lanes_keep_turns(old(map), map, r, j);
                    }
                    assert(map.road_states() =~= old(map).road_states()) by {
                        assert forall|q: int| 0 <= q < map.roads.len() implies map.roads[q].edit_state()
                            == old(map).roads[q].edit_state() by {
                            assert(map.roads[q].same_but_lanes(&old(map).roads[q]));
                        }
                    }
                }
                return Err(e);
            },
        }
        let ghost laned = *map;
        map.roads[r.0].speed_limit = new.speed_limit;
        map.roads[r.0].access_restrictions = new.access_restrictions;
        effects.changed_roads.insert(r);
        let ghost stated = *map;
        proof {
            assert forall|q: int| 0 <= q < map.roads.len() implies #[trigger] map.road_ok(q) by {
                assert(laned.road_ok(q));
            }
            assert forall|j: int| 0 <= j < map.intersections.len() implies #[trigger]
                map.intersection_ok(j) by {
                assert(laned.intersection_ok(j));
            }
            assert forall|c: int| 0 <= c < map.edits.commands@.len() implies map.has_target(
                #[trigger] map.edits.commands@[c],
            ) by {
                assert(laned.has_target(laned.edits.commands@[c]));
            }
        }
        effects.changed_intersections.insert(src_i);
        map.rebuild_lane_lists(src_i);
        proof {
            lemma_lists_keep_base(&stated, map, src_i);
        }
        let ghost first = *map;
        let ghost e_first = *effects;
        let ghost added_0 = effects.added_turns@;
        let ghost deleted_0 = effects.deleted_turns@;
        map.recalculate_turns(src_i, effects, geom);
        let ghost half = *map;
        let ghost e_half = *effects;
        let ghost added_1 = effects.added_turns@;
        let ghost deleted_1 = effects.deleted_turns@;
        effects.changed_intersections.insert(dst_i);
        map.rebuild_lane_lists(dst_i);
        proof {
            lemma_lists_keep_base(&half, map, dst_i);
        }
        let ghost listed = *map;
        let ghost e_listed = *effects;
        map.recalculate_turns(dst_i, effects, geom);
        proof {
            assert forall|j: int| 0 <= j < first.intersections.len() implies first.intersections[j].turns
                == old(map).intersections[j].turns by {
                assert(laned.intersections[j].same_but_polygon(&old(map).intersections[j]));
            }
            lemma_kept_turns_follow(old(map), &first, old(effects), &e_first);
            lemma_kept_turns_follow(&half, &listed, &e_half, &e_listed);
            lemma_turns_follow_trans(old(effects), &e_first, &e_half, old(map), &first, &half);
            lemma_turns_follow_trans(old(effects), &e_half, &e_listed, old(map), &half, &listed);
            lemma_turns_follow_trans(old(effects), &e_listed, effects, old(map), &listed, map);
            let src_before = old(map).intersections[src_i.0 as int].turns@;
            let dst_before = old(map).intersections[dst_i.0 as int].turns@;
            assert(added_0 == old(effects).added_turns@);
            assert(deleted_0 == old(effects).deleted_turns@);
            assert(first.intersections[src_i.0 as int].turns@ == src_before);
            assert(old(map).intersection_ok(src_i.0 as int));
            assert(old(map).intersection_ok(dst_i.0 as int));
            assert(old(map).turns_ok(dst_i.0 as int));
            assert(half.turns_ok(src_i.0 as int));
            assert(listed.intersection_ok(dst_i.0 as int));
            assert(map.intersection_ok(src_i.0 as int));
            assert(map.intersection_ok(dst_i.0 as int));
            assert(e_half.turns_remade(old(map), &half, src_i));
            lemma_turns_follow_trans(&e_half, &e_listed, effects, &half, &listed, map);
            crate::edits::turns::lemma_remade_stays(&e_half, effects, old(map), &half, map, src_i);
            if src_i != dst_i {
                assert(listed.intersections[dst_i.0 as int].turns@ == dst_before);
                assert(effects.turns_remade(old(map), map, dst_i));
            }
            assert forall|t: crate::ids::TurnID| #[trigger]
                effects.deleted_turns@.contains(t) implies old(effects).deleted_turns@.contains(t)
                || t.parent == src_i || t.parent == dst_i by {
                if !deleted_1.contains(t) {
                    let then = listed.intersections[dst_i.0 as int].turns@;
                    assert(crate::edits::turns::turn_ids(then).contains(t));
                    let w = choose|w: int| 0 <= w < then.len() && #[trigger] then[w].id == t;
                    assert(listed.intersections[dst_i.0 as int].turns[w].id.parent == dst_i);
                } else if !deleted_0.contains(t) {
                    assert(crate::edits::turns::turn_ids(src_before).contains(t));
                    let w = choose|w: int|
                        0 <= w < src_before.len() && #[trigger] src_before[w].id == t;
                    assert(old(map).intersections[src_i.0 as int].turns[w].id.parent == src_i);
                }
            }
            assert(laned.intersections[src_i.0 as int].same_but_polygon(
                &old(map).intersections[src_i.0 as int],
            ));
            assert(laned.intersections[dst_i.0 as int].same_but_polygon(
                &old(map).intersections[dst_i.0 as int],
            ));
            assert forall|t: crate::ids::TurnID| #[trigger]
                effects.added_turns@.contains(t) implies old(effects).added_turns@.contains(t) || (
                t.parent == src_i && !old(map).intersections[src_i.0 as int].spec_is_closed()) || (
                t.parent == dst_i && !old(map).intersections[dst_i.0 as int].spec_is_closed()) by {
                if !added_1.contains(t) {
                    let now = map.intersections[dst_i.0 as int].turns@;
                    assert(crate::edits::turns::turn_ids(now).contains(t));
                    let w = choose|w: int| 0 <= w < now.len() && #[trigger] now[w].id == t;
                    assert(map.intersections[dst_i.0 as int].turns[w].id.parent == dst_i);
                    assert(map.turns_ok(dst_i.0 as int));
                    assert(map.intersections[dst_i.0 as int].kind()
                        == old(map).intersections[dst_i.0 as int].kind());
                } else if !added_0.contains(t) {
                    let now = half.intersections[src_i.0 as int].turns@;
                    assert(crate::edits::turns::turn_ids(now).contains(t));
                    let w = choose|w: int| 0 <= w < now.len() && #[trigger] now[w].id == t;
                    assert(half.intersections[src_i.0 as int].turns[w].id.parent == src_i);
                    assert(half.turns_ok(src_i.0 as int));
                    assert(half.intersections[src_i.0 as int].kind()
                        == old(map).intersections[src_i.0 as int].kind());
                }
            }
            assert forall|q: int| 0 <= q < map.roads.len() implies (
            #[trigger] map.roads[q]).same_but_state(&old(map).roads[q]) by {
                assert(laned.roads[q].same_but_lanes(&old(map).roads[q]));
            }
            assert forall|j: int| 0 <= j < map.intersections.len() implies {
                &&& (#[trigger] map.intersections[j]).id == old(map).intersections[j].id
                &&& map.intersections[j].roads == old(map).intersections[j].roads
                &&& map.intersections[j].spec_is_border()
                    == old(map).intersections[j].spec_is_border()
            } by {
                assert(laned.intersections[j].same_but_polygon(&old(map).intersections[j]));
            }
            assert(map.road_states() =~= old(map).road_states().update(r.0 as int, new@)) by {
                assert forall|q: int| 0 <= q < map.roads.len() && q
                    != r.0 implies map.roads[q].edit_state()
                    == old(map).roads[q].edit_state() by {
                    assert(laned.roads[q].same_but_lanes(&old(map).roads[q]));
                }
            }
            assert forall|j: int| 0 <= j < map.intersections.len() implies #[trigger] map.turns_ok(
                j,
            ) by {
                if j != src_i.0 && j != dst_i.0 {
                    lemma_lanes_keep_turns(old(map), &laned, r, j);
                    assert(laned.intersections[j] == map.intersections[j]);
                    assert(laned.intersection_ok(j));
                    assert forall|k: int|
                        0 <= k < laned.intersections[j].roads.len() implies crate::policy::same_for_signs(
                        laned.roads[(#[trigger] laned.intersections[j].roads[k]).0 as int],
                        map.roads[laned.intersections[j].roads[k].0 as int],
                    ) by {}
                    laned.lemma_signs_stay(map, j);
                } else if j == src_i.0 && j != dst_i.0 {
                    assert(half.turns_ok(j));
                    assert(half.intersections[j] == map.intersections[j]);
                }
            }
            assert forall|j: int|
                0 <= j < old(map).intersections.len() && !old(map).touches(
                    r,
                    IntersectionID(j as usize),
                ) implies map.intersections[j] == old(map).intersections[j] by {
                assert(laned.intersections[j] == old(map).intersections[j]);
                assert(half.intersections[j] == laned.intersections[j]);
            }
            let around = neighbours_of(old(map), r);
            assert(crate::edits::lanes::lanes_of(map.roads@, around)
                =~= crate::edits::lanes::lanes_of(laned.roads@, around)) by {
                assert forall|q: int| 0 <= q < map.roads.len() implies (
                #[trigger] map.roads[q]).lanes.len() == laned.roads[q].lanes.len() by {}
            }
            assert(effects.changed_roads@ =~= old(effects).changed_roads@.union(around).insert(r));
            assert(effects.changed_intersections@ =~= old(effects).changed_intersections@.insert(
                src_i,
            ).insert(dst_i));
            assert(laned.intersections[src_i.0 as int].turns
                == old(map).intersections[src_i.0 as int].turns);
            assert(laned.intersections[dst_i.0 as int].turns
                == old(map).intersections[dst_i.0 as int].turns);
        }
        Ok(())
    }

    /// Gives an intersection the control of the command.
    fn apply_intersection<G: Geometry>(
        map: &mut StreetMap,
        i: IntersectionID,
        new: &crate::edits::EditIntersection,
        old_state: &crate::edits::EditIntersection,
        effects: &mut EditEffects,
        geom: &G,
    ) -> (res: Result<(), ApplyError>)
        requires
            old(map).has_intersection(i),
            !old(map).intersections[i.0 as int].spec_is_border(),
            old(map).wf(),
        ensures
            final(map).wf(),
            final(map).edited_from(old(map)),
            final(map).same_surroundings(old(map)),
            final(map).transit_routes == old(map).transit_routes,
            final(map).roads == old(map).roads,
            forall|j: int|
                0 <= j < old(map).intersections.len() && j != i.0 ==> final(map).intersections[j]
                    == old(map).intersections[j],
            old(map).intersections[i.0 as int].edit_state() == new@ ==> res.is_ok() && *final(map)
                == *old(map) && *final(effects) == *old(effects),
            final(effects).same_but_intersections(old(effects)),
            final(effects).turns_follow(old(effects), old(map), final(map)),
            final(effects).extends(old(effects)),
            old(map).intersections[i.0 as int].edit_state() != new@
                ==> final(effects).changed_intersections@
                == old(effects).changed_intersections@.insert(i),
            match res {
                Ok(()) => old(map).intersections[i.0 as int].edit_state() != new@
                    ==> final(map).control_follows(old(map), i, new@, old_state@),
                Err(e) => e == ApplyError::SignalDoesNotFit(i) && new@ is TrafficSignal,
            },
            old(map).intersections[i.0 as int].edit_state() != new@ && !(old_state@ is Closed)
                ==> (res.is_err() <==> signal_misfit(
                new@,
                movements_view(old(map).intersections[i.0 as int].movements@),
            )),
            final(effects).control_effects(
                old(effects),
                old(map),
                final(map),
                i,
                (old_state@ is Closed || new@ is Closed) && old(map).intersections[i.0 as int].edit_state()
                    != new@,
            ),
    {
        let current = map.get_i_edit(i);
        if current.same_as(new) {
            proof {
                lemma_kept_turns_follow(old(map), map, old(effects), effects);
            }
            return Ok(());
        }
        proof {
            assert(map.turns_ok(i.0 as int));
        }
        effects.changed_intersections.insert(i);
        let reopen = old_state.is_closed();
        proof {
            lemma_kept_turns_follow(old(map), map, old(effects), effects);
        }
        match new {
            crate::edits::EditIntersection::StopSign(_) => {
                proof {
                    assert(map.intersection_ok(i.0 as int));
                }
                let ss = ControlStopSign::new(map, i);
                map.intersections[i.0].control = Control::StopSign(ss);
                proof {
                    lemma_control_keeps_base(old(map), map, i);
                    lemma_kept_turns_follow(old(map), map, old(effects), effects);
                }
            },
            crate::edits::EditIntersection::TrafficSignal(raw) => {
                if reopen {
                    let ts = ControlTrafficSignal::new(map, i);
                    map.intersections[i.0].control = Control::TrafficSignal(ts);
                    proof {
                        lemma_control_keeps_base(old(map), map, i);
                        lemma_kept_turns_follow(old(map), map, old(effects), effects);
                    }
                    let ghost m_a = *map;
                    let ghost e_a = *effects;
                    map.recalculate_turns(i, effects, geom);
                    proof {
                        lemma_turns_follow_trans(old(effects), &e_a, effects, old(map), &m_a, map);
                        assert(m_a.intersection_ok(i.0 as int));
                        assert(map.intersection_ok(i.0 as int));
                        lemma_control_remade(old(effects), &e_a, effects, old(map), &m_a, map, i);
                    }
                }
                let ghost before = *map;
                let ghost e_before = *effects;
                match ControlTrafficSignal::import(raw.clone(), i, map) {
                    Some(ts) => {
                        map.intersections[i.0].control = Control::TrafficSignal(ts);
                        proof {
                            if reopen {
                                lemma_control_keeps_base(&before, map, i);
                            } else {
                                lemma_control_keeps_base(old(map), map, i);
                            }
                            lemma_kept_turns_follow(&before, map, &e_before, effects);
                            lemma_turns_follow_trans(
                                old(effects),
                                &e_before,
                                effects,
                                old(map),
                                &before,
                                map,
                            );
                        }
                    },
                    None => {
                        proof {
                            assert(map.turns_ok(i.0 as int));
                            lemma_frame_compose(old(map), map, i);
                        }
                        return Err(ApplyError::SignalDoesNotFit(i));
                    },
                }
            },
            crate::edits::EditIntersection::Closed => {
                map.intersections[i.0].control = Control::Construction;
                proof {
                    lemma_control_keeps_base(old(map), map, i);
                    lemma_kept_turns_follow(old(map), map, old(effects), effects);
                }
            },
        }
        if reopen || new.is_closed() {
            let ghost m_b = *map;
            let ghost e_b = *effects;
            map.recalculate_turns(i, effects, geom);
            proof {
                lemma_turns_follow_trans(old(effects), &e_b, effects, old(map), &m_b, map);
                assert(m_b.intersection_ok(i.0 as int));
                assert(map.intersection_ok(i.0 as int));
                lemma_control_remade(old(effects), &e_b, effects, old(map), &m_b, map, i);
            }
        } else {
            proof {
                assert(map.turns_ok(i.0 as int));
            }
        }
        proof {
            lemma_frame_compose(old(map), map, i);
        }
        Ok(())
    }

    /// Gives the crossings of an intersection the types of the command.
    fn apply_crosswalks(
        map: &mut StreetMap,
        i: IntersectionID,
        new: &EditCrosswalks,
        effects: &mut EditEffects,
    ) -> (res: Result<(), ApplyError>)
        requires
            old(map).has_intersection(i),
            old(map).wf(),
        ensures
            final(map).wf(),
            final(map).edited_from(old(map)),
            final(map).same_surroundings(old(map)),
            final(map).transit_routes == old(map).transit_routes,
            final(map).roads == old(map).roads,
            forall|j: int|
                0 <= j < old(map).intersections.len() && j != i.0 ==> final(map).intersections[j]
                    == old(map).intersections[j],
            old(map).intersections[i.0 as int].crosswalks() == new@ ==> res.is_ok() && *final(map)
                == *old(map) && *final(effects) == *old(effects),
            final(map).intersections[i.0 as int].same_but_turn_types(
                &old(map).intersections[i.0 as int],
            ),
            final(effects).same_but_intersections(old(effects)),
            final(effects).added_turns@ == old(effects).added_turns@,
            final(effects).deleted_turns@ == old(effects).deleted_turns@,
            final(effects).turns_follow(old(effects), old(map), final(map)),
            final(effects).extends(old(effects)),
            match res {
                Ok(()) => old(map).intersections[i.0 as int].crosswalks() != new@ ==> {
                    &&& final(map).intersections[i.0 as int].turns@ == retyped(
                        old(map).intersections[i.0 as int].turns@,
                        new.0@,
                        new.0.len() as int,
                    )
                    &&& final(effects).changed_intersections@
                        == old(effects).changed_intersections@.insert(i)
                },
                Err(e) => {
                    &&& *final(map) == *old(map)
                    &&& *final(effects) == *old(effects)
                    &&& e == ApplyError::UnknownTurn(
                        first_unknown(old(map).intersections[i.0 as int].turns@, new.0@, 0),
                    )
                },
            },
            res.is_err() <==> old(map).intersections[i.0 as int].crosswalks() != new@
                && names_unknown(old(map).intersections[i.0 as int].turns@, new.0@),
    {
        let current = map.get_i_crosswalks_edit(i);
        proof {
            lemma_kept_turns_follow(old(map), map, old(effects), effects);
        }
        if current.same_as(new) {
            return Ok(());
        }
        let mut k: usize = 0;
        while k < new.0.len()
            invariant
                k <= new.0.len(),
                *map == *old(map),
                *effects == *old(effects),
                old(map).wf(),
                old(map).intersections[i.0 as int].crosswalks() != new@,
                map.has_intersection(i),
                forall|j: int|
                    0 <= j < k ==> has_turn(map.intersections[i.0 as int].turns@,
                        #[trigger] new.0[j].id),
                k < new.0.len() ==> first_unknown(
                    map.intersections[i.0 as int].turns@,
                    new.0@,
                    0,
                ) == first_unknown(map.intersections[i.0 as int].turns@, new.0@, k as int),
            decreases new.0.len() - k,
        {
            match find_turn(&map.intersections[i.0].turns, new.0[k].id) {
                Some(_) => {},
                None => {
                    return Err(ApplyError::UnknownTurn(new.0[k].id));
                },
            }
            k = k + 1;
        }
        effects.changed_intersections.insert(i);
        let ghost turns = map.intersections[i.0 as int].turns@;
        let mut k: usize = 0;
        while k < new.0.len()
            invariant
                k <= new.0.len(),
                map.has_intersection(i),
                old(map).wf(),
                old(map).intersections[i.0 as int].crosswalks() != new@,
                effects.same_but_intersections(old(effects)),
                effects.changed_intersections@ == old(effects).changed_intersections@.insert(i),
                effects.added_turns == old(effects).added_turns,
                effects.deleted_turns == old(effects).deleted_turns,
                turns == old(map).intersections[i.0 as int].turns@,
                map.edits == old(map).edits,
                map.intersections[i.0 as int].turns@ == retyped(turns, new.0@, k as int),
                map.intersections[i.0 as int].same_but_turn_types(
                    &old(map).intersections[i.0 as int],
                ),
                map.roads == old(map).roads,
                map.city == old(map).city,
                map.transit_routes == old(map).transit_routes,
                map.same_surroundings(old(map)),
                map.intersections.len() == old(map).intersections.len(),
                forall|j: int|
                    0 <= j < map.intersections.len() && j != i.0 ==> map.intersections[j]
                        == old(map).intersections[j],
            decreases new.0.len() - k,
        {
            let e = new.0[k];
            proof {
                lemma_retyped_ids(turns, new.0@, k as int);
                lemma_retyped_ids(turns, new.0@, k + 1);
            }
            match find_turn(&map.intersections[i.0].turns, e.id) {
                Some(at) => {
                    let ghost before = map.intersections[i.0 as int].turns@;
                    map.intersections[i.0].turns[at].turn_type = e.turn_type;
                    proof {
                        assert(map.intersections[i.0 as int].turns@ =~= retyped(
                            turns,
                            new.0@,
                            k + 1,
                        ));
                    }
                },
                None => {
                    proof {
                        let before = map.intersections[i.0 as int].turns@;
                        assert(before =~= retyped(turns, new.0@, k + 1)) by {
                            assert forall|j: int| 0 <= j < before.len() implies before[j].id
                                != e.id by {
                                if before[j].id == e.id {
                                    assert(has_turn(before, e.id));
                                }
                            }
                        }
                    }
                },
            }
            k = k + 1;
        }
        proof {
            lemma_retyped_ids(turns, new.0@, new.0.len() as int);
            lemma_types_keep_wf(old(map), map, i);
            assert forall|j: int, t: crate::ids::TurnID|
                0 <= j < old(map).intersections.len() implies (#[trigger] has_turn(
                map.intersections[j].turns@,
                t,
            ) <==> has_turn(old(map).intersections[j].turns@, t)) by {
                if j == i.0 {
                    let now = map.intersections[j].turns@;
                    if has_turn(now, t) {
                        let k = choose|k: int| 0 <= k < now.len() && #[trigger] now[k].id == t;
                        assert(turns[k].id == t);
                    }
                    if has_turn(turns, t) {
                        let k = choose|k: int| 0 <= k < turns.len() && #[trigger] turns[k].id == t;
                        assert(now[k].id == t);
                    }
                }
            }
            lemma_kept_turns_follow(old(map), map, old(effects), effects);
        }
        Ok(())
    }

    /// Gives a transit route the schedule of the command.
    fn apply_schedule(map: &mut StreetMap, id: crate::ids::TransitRouteID, new: &Vec<Time>)
        requires
            old(map).has_route(id),
            old(map).wf(),
        ensures
            final(map).wf(),
            final(map).edited_from(old(map)),
            final(map).same_surroundings(old(map)),
            final(map).roads == old(map).roads,
            final(map).intersections == old(map).intersections,
            final(map).schedules() == old(map).schedules().update(id.0 as int, new@),
    {
        map.transit_routes[id.0].spawn_times = copy_vec(new);
        proof {
            assert(map.schedules() =~= old(map).schedules().update(id.0 as int, new@));
            assert forall|q: int| 0 <= q < map.roads.len() implies #[trigger] map.road_ok(q) by {
                assert(old(map).road_ok(q));
            }
            assert forall|j: int| 0 <= j < map.intersections.len() implies #[trigger]
                map.intersection_ok(j) by {
                assert(old(map).intersection_ok(j));
            }
            assert forall|j: int| 0 <= j < map.intersections.len() implies #[trigger] map.turns_ok(
                j,
            ) by {
                assert(old(map).turns_ok(j));
            }
            assert forall|c: int| 0 <= c < map.edits.commands@.len() implies map.has_target(
                #[trigger] map.edits.commands@[c],
            ) by {
                assert(old(map).has_target(old(map).edits.commands@[c]));
            }
        }
    }
}

} // verus!
