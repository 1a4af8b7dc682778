//! Making the turns of an intersection anew.

use vstd::prelude::*;
use crate::control::{ControlStopSign, ControlTrafficSignal};
use crate::edits::EditEffects;
use crate::ids::{IntersectionID, TurnID};
use crate::intersection::Control;
use crate::map::{turn_fits_roads, StreetMap};
use crate::road::Road;
use crate::policy::{default_stop_sign, default_timing, movements_of, movements_view};
use crate::services::Geometry;
use crate::turn::{find_turn, has_turn, Movement, Turn};

verus! {

/// The names of the given turns.
pub open spec fn turn_ids(turns: Seq<Turn>) -> Set<TurnID> {
    Set::new(|id: TurnID| has_turn(turns, id))
}

/// Those of the first `n` of the given turns that fit intersection `i` (see
/// [`turn_fits_roads`]); of turns with the same name, the first only.
pub open spec fn fitting_turns(roads: Seq<Road>, i: IntersectionID, made: Seq<Turn>, n: int) -> Seq<
    Turn,
>
    decreases n,
{
    if n <= 0 {
        Seq::empty()
    } else if turn_fits_roads(roads, made[n - 1], i) && !has_turn(
        fitting_turns(roads, i, made, n - 1),
        made[n - 1].id,
    ) {
        fitting_turns(roads, i, made, n - 1).push(made[n - 1])
    } else {
        fitting_turns(roads, i, made, n - 1)
    }
}

/// No two of the fitting turns have the same name.
pub proof fn lemma_fitting_turns_distinct(
    roads: Seq<Road>,
    i: IntersectionID,
    made: Seq<Turn>,
    n: int,
)
    ensures
        crate::turn::distinct_names(fitting_turns(roads, i, made, n)),
    decreases n,
{
    if n > 0 {
        lemma_fitting_turns_distinct(roads, i, made, n - 1);
        let before = fitting_turns(roads, i, made, n - 1);
        let now = fitting_turns(roads, i, made, n);
        assert forall|a: int, b: int| 0 <= a < b < now.len() implies (#[trigger] now[a]).id != (
        #[trigger] now[b]).id by {
            if b < before.len() {
                assert(before[a].id != before[b].id);
            } else {
                assert(now[a] == before[a]);
            }
        }
    }
}

/// Every one of the fitting turns fits.
pub proof fn lemma_fitting_turns_fit(roads: Seq<Road>, i: IntersectionID, made: Seq<Turn>, n: int)
    ensures
        forall|k: int|
            0 <= k < fitting_turns(roads, i, made, n).len() ==> turn_fits_roads(
                roads,
                #[trigger] fitting_turns(roads, i, made, n)[k],
                i,
            ),
    decreases n,
{
    if n > 0 {
        lemma_fitting_turns_fit(roads, i, made, n - 1);
        let before = fitting_turns(roads, i, made, n - 1);
        assert forall|k: int| 0 <= k < fitting_turns(roads, i, made,
            n).len() implies turn_fits_roads(
            roads,
            #[trigger] fitting_turns(roads, i, made, n)[k],
            i,
        ) by {
            if k < before.len() {
                assert(turn_fits_roads(roads, before[k], i));
            }
        }
    }
}

impl StreetMap {
    /// Whether a turn fits intersection `i`: see [`StreetMap::turn_ok`].
    pub fn turn_fits(&self, t: Turn, i: IntersectionID) -> (b: bool)
        ensures
            b == self.turn_ok(t, i),
    {
        t.id.parent == i && self.lane_at(t.id.src, i) && self.lane_at(t.id.dst, i)
    }

    /// Whether the lane exists and its road ends at intersection `i`.
    fn lane_at(&self, l: crate::ids::LaneID, i: IntersectionID) -> (b: bool)
        ensures
            b == (self.has_lane(l) && self.touches(l.road, i)),
    {
        if l.road.0 >= self.roads.len() {
            return false;
        }
        let road = &self.roads[l.road.0];
        l.offset < road.lanes.len() && (road.src_i == i || road.dst_i == i)
    }

    /// The map with the turns of intersection `i` replaced, and nothing else
    /// changed.
    pub open spec fn same_but_turns_of(&self, other: &StreetMap, i: IntersectionID) -> bool {
        &&& self.city == other.city
        &&& self.roads == other.roads
        &&& self.buildings == other.buildings
        &&& self.parking_lots == other.parking_lots
        &&& self.transit_stops == other.transit_stops
        &&& self.transit_routes == other.transit_routes
        &&& self.zones == other.zones
        &&& self.edits == other.edits
        &&& self.edits_generation == other.edits_generation
        &&& self.pathfinder_dirty == other.pathfinder_dirty
        &&& self.intersections.len() == other.intersections.len()
        &&& forall|j: int|
            0 <= j < self.intersections.len() && j != i.0 ==> self.intersections[j]
                == other.intersections[j]
        &&& self.intersections[i.0 as int].id == other.intersections[i.0 as int].id
        &&& self.intersections[i.0 as int].roads == other.intersections[i.0 as int].roads
        &&& self.intersections[i.0 as int].incoming_lanes
            == other.intersections[i.0 as int].incoming_lanes
        &&& self.intersections[i.0 as int].outgoing_lanes
            == other.intersections[i.0 as int].outgoing_lanes
        &&& self.intersections[i.0 as int].polygon == other.intersections[i.0 as int].polygon
    }

    /// Takes all turns away from intersection `i`, and records each as
    /// deleted.
    pub fn clear_turns(&mut self, i: IntersectionID, effects: &mut EditEffects)
        requires
            old(self).has_intersection(i),
        ensures
            final(self).same_but_turns_of(old(self), i),
            final(self).intersections[i.0 as int].turns@ == Seq::<Turn>::empty(),
            final(self).intersections[i.0 as int].control
                == old(self).intersections[i.0 as int].control,
            final(self).intersections[i.0 as int].movements
                == old(self).intersections[i.0 as int].movements,
            final(effects).deleted_turns@ == old(effects).deleted_turns@.union(
                turn_ids(old(self).intersections[i.0 as int].turns@),
            ),
            final(effects).added_turns == old(effects).added_turns,
            final(effects).same_but_turns(old(effects)),
    {
        let ghost turns = self.intersections[i.0 as int].turns@;
        let n = self.intersections[i.0].turns.len();
        let mut k: usize = 0;
        proof {
            assert(turn_ids(turns.take(0)) =~= Set::<TurnID>::empty());
            assert(effects.deleted_turns@ =~= old(effects).deleted_turns@.union(
                turn_ids(turns.take(0)),
            ));
        }
        while k < n
            invariant
                k <= n,
                n == turns.len(),
                *self == *old(self),
                self.has_intersection(i),
                turns == self.intersections[i.0 as int].turns@,
                effects.deleted_turns@ == old(effects).deleted_turns@.union(
                    turn_ids(turns.take(k as int)),
                ),
                effects.added_turns == old(effects).added_turns,
                effects.same_but_turns(old(effects)),
            decreases n - k,
        {
            let id = self.intersections[i.0].turns[k].id;
            effects.deleted_turns.insert(id);
            proof {
                lemma_turn_ids_take(turns, k as int);
                assert(effects.deleted_turns@ =~= old(effects).deleted_turns@.union(
                    turn_ids(turns.take(k + 1)),
                ));
            }
            k = k + 1;
        }
        proof {
            assert(turns.take(n as int) =~= turns);
        }
        self.intersections[i.0].turns = Vec::new();
    }
}

impl EditEffects {
    /// Whether the turns recorded here follow what happened to the turns of
    /// the map, since the effects were `before` and the map was `old`:
    ///
    /// - a turn that was recorded as deleted or as added is so still;
    /// - a turn is recorded as deleted only if it was so before, or the old
    ///   map had it, or it is recorded as added;
    /// - a turn that the new map has and the old map had not is recorded as
    ///   added;
    /// - a turn is recorded as added only if it was so before, or the new map
    ///   has it, or it is recorded as deleted;
    /// - a turn that the old map had and the new map has not is recorded as
    ///   deleted.
    pub open spec fn turns_follow(
        &self,
        before: &EditEffects,
        old: &StreetMap,
        new: &StreetMap,
    ) -> bool {
        &&& before.deleted_turns@.subset_of(self.deleted_turns@)
        &&& before.added_turns@.subset_of(self.added_turns@)
        &&& forall|t: TurnID| #[trigger]
            self.deleted_turns@.contains(t) ==> before.deleted_turns@.contains(t)
                || old.has_turn_named(t) || self.added_turns@.contains(t)
        &&& forall|t: TurnID| #[trigger]
            new.has_turn_named(t) ==> old.has_turn_named(t) || self.added_turns@.contains(t)
        &&& forall|t: TurnID| #[trigger]
            self.added_turns@.contains(t) ==> before.added_turns@.contains(t)
                || new.has_turn_named(t) || self.deleted_turns@.contains(t)
        &&& forall|t: TurnID| #[trigger]
            old.has_turn_named(t) && !new.has_turn_named(t) ==> self.deleted_turns@.contains(t)
    }

    /// Whether the turns of intersection `i` were made anew since the map was
    /// `old`: the turns that it had then are recorded as deleted, and those
    /// that it has in `new` as added.
    pub open spec fn turns_remade(&self, old: &StreetMap, new: &StreetMap, i: IntersectionID) -> bool {
        &&& turn_ids(old.intersections[i.0 as int].turns@).subset_of(self.deleted_turns@)
        &&& turn_ids(new.intersections[i.0 as int].turns@).subset_of(self.added_turns@)
    }
}

/// What follows what follows: see [`EditEffects::turns_follow`].
pub proof fn lemma_turns_follow_trans(
    e0: &EditEffects,
    e1: &EditEffects,
    e2: &EditEffects,
    m0: &StreetMap,
    m1: &StreetMap,
    m2: &StreetMap,
)
    requires
        e1.turns_follow(e0, m0, m1),
        e2.turns_follow(e1, m1, m2),
    ensures
        e2.turns_follow(e0, m0, m2),
{
    assert forall|t: TurnID| #[trigger] e2.deleted_turns@.contains(t) implies e0.deleted_turns@.contains(
        t,
    ) || m0.has_turn_named(t) || e2.added_turns@.contains(t) by {
        if e1.deleted_turns@.contains(t) {
            if e1.added_turns@.contains(t) {
                assert(e2.added_turns@.contains(t));
            }
        } else if m1.has_turn_named(t) {
            if e1.added_turns@.contains(t) {
                assert(e2.added_turns@.contains(t));
            }
        }
    }
    assert forall|t: TurnID| #[trigger] m2.has_turn_named(t) implies m0.has_turn_named(t)
        || e2.added_turns@.contains(t) by {
        if !e2.added_turns@.contains(t) {
            assert(m1.has_turn_named(t));
            if e1.added_turns@.contains(t) {
                assert(e2.added_turns@.contains(t));
            }
        }
    }
    assert forall|t: TurnID| #[trigger] e2.added_turns@.contains(t) implies e0.added_turns@.contains(
        t,
    ) || m2.has_turn_named(t) || e2.deleted_turns@.contains(t) by {
        if e1.added_turns@.contains(t) {
            if e1.deleted_turns@.contains(t) {
                assert(e2.deleted_turns@.contains(t));
            }
        }
    }
    assert forall|t: TurnID| #[trigger]
        m0.has_turn_named(t) && !m2.has_turn_named(t) implies e2.deleted_turns@.contains(t) by {
        if !m1.has_turn_named(t) {
            assert(e1.deleted_turns@.contains(t));
            assert(e2.deleted_turns@.contains(t));
        }
    }
    assert forall|t: TurnID| e0.deleted_turns@.contains(t) implies e2.deleted_turns@.contains(
        t,
    ) by {
        assert(e1.deleted_turns@.contains(t));
    }
    assert forall|t: TurnID| e0.added_turns@.contains(t) implies e2.added_turns@.contains(t) by {
        assert(e1.added_turns@.contains(t));
    }
}

/// Turns that were made anew stay so, whatever follows: see
/// [`EditEffects::turns_remade`].
pub proof fn lemma_remade_stays(
    e1: &EditEffects,
    e2: &EditEffects,
    m0: &StreetMap,
    m1: &StreetMap,
    m2: &StreetMap,
    i: IntersectionID,
)
    requires
        e1.turns_remade(m0, m1, i),
        e2.turns_follow(e1, m1, m2),
        m1.intersections.len() == m2.intersections.len(),
        m2.has_intersection(i),
        m2.intersection_ok(i.0 as int),
    ensures
        e2.turns_remade(m0, m2, i),
{
    let now = m2.intersections[i.0 as int].turns@;
    assert forall|t: TurnID| turn_ids(m0.intersections[i.0 as int].turns@).contains(
        t,
    ) implies e2.deleted_turns@.contains(t) by {
        assert(e1.deleted_turns@.contains(t));
    }
    assert forall|t: TurnID| turn_ids(now).contains(t) implies e2.added_turns@.contains(t) by {
        let k = choose|k: int| 0 <= k < now.len() && #[trigger] now[k].id == t;
        assert(m2.intersections[i.0 as int].turns[k].id.parent == i);
        assert(m2.has_turn_named(t));
        if !e2.added_turns@.contains(t) {
            assert(m1.has_turn_named(t));
            assert(turn_ids(m1.intersections[i.0 as int].turns@).contains(t));
            assert(e1.added_turns@.contains(t));
        }
    }
}

/// Turns that are made anew after other changes were made anew since before
/// those: see [`EditEffects::turns_remade`].
pub proof fn lemma_remade_since(
    e0: &EditEffects,
    e1: &EditEffects,
    e2: &EditEffects,
    m0: &StreetMap,
    m1: &StreetMap,
    m2: &StreetMap,
    i: IntersectionID,
)
    requires
        e1.turns_follow(e0, m0, m1),
        e1.deleted_turns@.subset_of(e2.deleted_turns@),
        e2.turns_remade(m1, m2, i),
        m0.intersections.len() == m1.intersections.len(),
        m0.has_intersection(i),
        m0.intersection_ok(i.0 as int),
    ensures
        e2.turns_remade(m0, m2, i),
{
    let then = m0.intersections[i.0 as int].turns@;
    assert forall|t: TurnID| turn_ids(then).contains(t) implies e2.deleted_turns@.contains(t) by {
        let k = choose|k: int| 0 <= k < then.len() && #[trigger] then[k].id == t;
        assert(m0.intersections[i.0 as int].turns[k].id.parent == i);
        assert(m0.has_turn_named(t));
        if m1.has_turn_named(t) {
            assert(turn_ids(m1.intersections[i.0 as int].turns@).contains(t));
        } else {
            assert(e1.deleted_turns@.contains(t));
        }
    }
}

/// Where the turns of the map keep their names and the records of turns stay
/// as they are, the records follow the map: see
/// [`EditEffects::turns_follow`].
pub proof fn lemma_kept_turns_follow(
    old: &StreetMap,
    new: &StreetMap,
    before: &EditEffects,
    after: &EditEffects,
)
    requires
        new.intersections.len() == old.intersections.len(),
        forall|j: int, t: TurnID|
            0 <= j < old.intersections.len() ==> (#[trigger] has_turn(
                new.intersections[j].turns@,
                t,
            ) <==> has_turn(old.intersections[j].turns@, t)),
        after.added_turns@ == before.added_turns@,
        after.deleted_turns@ == before.deleted_turns@,
    ensures
        after.turns_follow(before, old, new),
{
    assert forall|t: TurnID| #[trigger] new.has_turn_named(t) <==> old.has_turn_named(t) by {
        if t.parent.0 < old.intersections.len() {
            assert(has_turn(new.intersections[t.parent.0 as int].turns@, t) <==> has_turn(
                old.intersections[t.parent.0 as int].turns@,
                t,
            ));
        }
    }
}

/// Replacing the turns of one intersection, with the records that
/// [`StreetMap::clear_turns`] and [`StreetMap::install_turns`] make of it,
/// is followed by the records: see [`EditEffects::turns_follow`].
pub proof fn lemma_replaced_turns_follow(
    old: &StreetMap,
    new: &StreetMap,
    before: &EditEffects,
    after: &EditEffects,
    i: IntersectionID,
)
    requires
        old.has_intersection(i),
        old.intersection_ok(i.0 as int),
        new.intersection_ok(i.0 as int),
        new.intersections.len() == old.intersections.len(),
        forall|j: int|
            0 <= j < new.intersections.len() && j != i.0 ==> new.intersections[j]
                == old.intersections[j],
        after.deleted_turns@ == before.deleted_turns@.union(
            turn_ids(old.intersections[i.0 as int].turns@),
        ),
        after.added_turns@ == before.added_turns@.union(
            turn_ids(new.intersections[i.0 as int].turns@),
        ),
    ensures
        after.turns_follow(before, old, new),
        after.turns_remade(old, new, i),
{
    let old_turns = old.intersections[i.0 as int].turns@;
    let new_turns = new.intersections[i.0 as int].turns@;
    assert forall|t: TurnID| has_turn(old_turns, t) implies t.parent == i by {
        let k = choose|k: int| 0 <= k < old_turns.len() && #[trigger] old_turns[k].id == t;
        assert(old.intersections[i.0 as int].turns[k].id.parent == i);
    }
    assert forall|t: TurnID| has_turn(new_turns, t) implies t.parent == i by {
        let k = choose|k: int| 0 <= k < new_turns.len() && #[trigger] new_turns[k].id == t;
        assert(new.intersections[i.0 as int].turns[k].id.parent == i);
    }
    assert forall|t: TurnID| #[trigger] old.has_turn_named(t) <==> (if t.parent == i {
        has_turn(old_turns, t)
    } else {
        new.has_turn_named(t)
    }) by {}
    assert forall|t: TurnID| t.parent == i implies (#[trigger] new.has_turn_named(t) <==> has_turn(
        new_turns,
        t,
    )) by {}
    assert forall|t: TurnID| #[trigger] after.deleted_turns@.contains(t) implies before.deleted_turns@.contains(
        t,
    ) || old.has_turn_named(t) || after.added_turns@.contains(t) by {
        if !before.deleted_turns@.contains(t) {
            assert(turn_ids(old_turns).contains(t));
        }
    }
    assert forall|t: TurnID| #[trigger] new.has_turn_named(t) implies old.has_turn_named(t)
        || after.added_turns@.contains(t) by {
        if t.parent == i {
            assert(turn_ids(new_turns).contains(t));
        }
    }
    assert forall|t: TurnID| #[trigger] after.added_turns@.contains(t) implies before.added_turns@.contains(
        t,
    ) || new.has_turn_named(t) || after.deleted_turns@.contains(t) by {
        if turn_ids(new_turns).contains(t) {
            assert(has_turn(new_turns, t));
        }
    }
    assert forall|t: TurnID| #[trigger]
        old.has_turn_named(t) && !new.has_turn_named(t) implies after.deleted_turns@.contains(
        t,
    ) by {
        assert(turn_ids(old_turns).contains(t));
    }
}

impl StreetMap {
    /// Whether the control of intersection `i` is what follows from its roads,
    /// lanes and movements alone. Borders and closed intersections have no
    /// control.
    pub open spec fn control_is_default(&self, i: IntersectionID) -> bool {
        let x = self.intersections[i.0 as int];
        match x.control {
            Control::StopSign(ss) => ss@ == default_stop_sign(self.roads@, x.roads@, i),
            Control::Uncontrolled(ss) => ss@ == default_stop_sign(self.roads@, x.roads@, i),
            Control::TrafficSignal(ts) => ts.id == i && ts.timing@ == default_timing(
                movements_view(x.movements@),
            ),
            Control::Border => true,
            Control::Construction => true,
        }
    }

    /// Gives intersection `i`, which is open and has no turns, those of the
    /// turns `made` that fit it, of turns with the same name the first only;
    /// records them as added, groups them into movements, and sets up the
    /// stop signs or the signal anew from those.
    pub fn install_turns(&mut self, i: IntersectionID, effects: &mut EditEffects, made: Vec<Turn>)
        requires
            old(self).has_intersection(i),
            old(self).base_ok(),
            old(self).intersections[i.0 as int].turns.len() == 0,
            !old(self).intersections[i.0 as int].spec_is_border(),
            !old(self).intersections[i.0 as int].spec_is_closed(),
        ensures
            final(self).same_but_turns_of(old(self), i),
            final(self).intersections[i.0 as int].turns@ == fitting_turns(
                old(self).roads@,
                i,
                made@,
                made.len() as int,
            ),
            movements_view(final(self).intersections[i.0 as int].movements@) == movements_of(
                final(self).roads@,
                i,
                final(self).intersections[i.0 as int].turns@,
                final(self).intersections[i.0 as int].turns.len() as int,
            ),
            final(self).intersections[i.0 as int].kind()
                == old(self).intersections[i.0 as int].kind(),
            final(self).control_is_default(i),
            final(effects).added_turns@ == old(effects).added_turns@.union(
                turn_ids(final(self).intersections[i.0 as int].turns@),
            ),
            final(effects).same_but_added_turns(old(effects)),
    {
        let mut k: usize = 0;
        proof {
            assert(turn_ids(Seq::<Turn>::empty()) =~= Set::<TurnID>::empty());
            assert(self.intersections[i.0 as int].turns@ =~= Seq::<Turn>::empty());
            assert(effects.added_turns@ =~= old(effects).added_turns@.union(
                turn_ids(self.intersections[i.0 as int].turns@),
            ));
        }
        while k < made.len()
            invariant
                k <= made.len(),
                self.has_intersection(i),
                self.same_but_turns_of(old(self), i),
                self.intersections[i.0 as int].control
                    == old(self).intersections[i.0 as int].control,
                self.intersections[i.0 as int].turns@ == fitting_turns(
                    old(self).roads@,
                    i,
                    made@,
                    k as int,
                ),
                effects.added_turns@ == old(effects).added_turns@.union(
                    turn_ids(self.intersections[i.0 as int].turns@),
                ),
                effects.same_but_added_turns(old(effects)),
            decreases made.len() - k,
        {
            let t = made[k];
            if self.turn_fits(t, i) && find_turn(&self.intersections[i.0].turns, t.id).is_none() {
                let ghost before = self.intersections[i.0 as int].turns@;
                effects.added_turns.insert(t.id);
                self.intersections[i.0].turns.push(t);
                proof {
                    let after = self.intersections[i.0 as int].turns@;
                    assert(after.take(before.len() as int) =~= before);
                    lemma_turn_ids_take(after, before.len() as int);
                    assert(after.take(before.len() as int + 1) =~= after);
                    assert(effects.added_turns@ =~= old(effects).added_turns@.union(
                        turn_ids(after),
                    ));
                }
            }
            k = k + 1;
        }
        proof {
            lemma_fitting_turns_fit(old(self).roads@, i, made@, made.len() as int);
            assert(old(self).intersection_ok(i.0 as int));
            assert(self.intersection_ok(i.0 as int));
        }
        let movements = Movement::for_i(i, self);
        self.intersections[i.0].movements = movements;
        proof {
            assert(self.intersection_ok(i.0 as int));
        }
        let control = match &self.intersections[i.0].control {
            Control::StopSign(_) => Control::StopSign(ControlStopSign::new(self, i)),
            Control::Uncontrolled(_) => Control::Uncontrolled(ControlStopSign::new(self, i)),
            Control::TrafficSignal(_) => Control::TrafficSignal(ControlTrafficSignal::new(self, i)),
            Control::Border => Control::Border,
            Control::Construction => Control::Construction,
        };
        self.intersections[i.0].control = control;
    }

    /// Makes the turns of intersection `i` anew after its lanes or its control
    /// changed. A border has no turns and is left alone. Otherwise all turns
    /// are taken away; a closed intersection is left without any; an open one
    /// gets the turns that `geom` makes for it, and its movements and control
    /// from those. A signal timing that was set by hand is lost by this. Every
    /// turn that is taken away is recorded as deleted and every turn that is
    /// made as added, whatever was recorded before.
    pub fn recalculate_turns<G: Geometry>(
        &mut self,
        i: IntersectionID,
        effects: &mut EditEffects,
        geom: &G,
    )
        requires
            old(self).has_intersection(i),
            old(self).base_ok(),
        ensures
            final(self).same_but_turns_of(old(self), i),
            final(self).base_ok(),
            final(self).turns_ok(i.0 as int),
            final(self).intersections[i.0 as int].kind()
                == old(self).intersections[i.0 as int].kind(),
            old(self).intersections[i.0 as int].spec_is_border() ==> *final(self) == *old(self)
                && *final(effects) == *old(effects),
            old(self).intersections[i.0 as int].spec_is_closed()
                ==> final(self).intersections[i.0 as int].turns@ == Seq::<Turn>::empty(),
            !old(self).intersections[i.0 as int].spec_is_border() ==> {
                &&& final(self).control_is_default(i)
                &&& final(effects).deleted_turns@ == old(effects).deleted_turns@.union(
                    turn_ids(old(self).intersections[i.0 as int].turns@),
                )
                &&& final(effects).added_turns@ == old(effects).added_turns@.union(
                    turn_ids(final(self).intersections[i.0 as int].turns@),
                )
            },
            !old(self).intersections[i.0 as int].spec_is_border()
                && !old(self).intersections[i.0 as int].spec_is_closed() ==> movements_view(
                final(self).intersections[i.0 as int].movements@,
            ) == movements_of(
                final(self).roads@,
                i,
                final(self).intersections[i.0 as int].turns@,
                final(self).intersections[i.0 as int].turns.len() as int,
            ),
            old(self).intersections[i.0 as int].spec_is_closed()
                ==> final(self).intersections[i.0 as int].movements
                == old(self).intersections[i.0 as int].movements,
            final(effects).turns_remade(old(self), final(self), i),
            final(effects).same_but_turns(old(effects)),
            final(effects).turns_follow(old(effects), old(self), final(self)),
    {
        if self.intersections[i.0].is_border() {
            proof {
                assert(self.intersection_ok(i.0 as int));
            }
            return ;
        }
        proof {
            assert(old(self).intersection_ok(i.0 as int));
        }
        self.clear_turns(i, effects);
        proof {
            assert(self.intersection_ok(i.0 as int)) by {
                assert(old(self).intersection_ok(i.0 as int));
            }
            assert forall|j: int| 0 <= j < self.intersections.len() implies #[trigger]
                self.intersection_ok(j) by {
                assert(old(self).intersection_ok(j));
            }
            assert forall|r: int| 0 <= r < self.roads.len() implies #[trigger] self.road_ok(r) by {
                assert(old(self).road_ok(r));
            }
            assert(self.has_targets(self.edits.commands@)) by {
                assert forall|k: int| 0 <= k < self.edits.commands@.len() implies self.has_target(
                    #[trigger] self.edits.commands@[k],
                ) by {
                    assert(old(self).has_target(old(self).edits.commands@[k]));
                }
            }
        }
        if self.intersections[i.0].is_closed() {
            proof {
                assert(turn_ids(Seq::<Turn>::empty()) =~= Set::<TurnID>::empty());
                assert(effects.added_turns@ =~= old(effects).added_turns@.union(
                    turn_ids(self.intersections[i.0 as int].turns@),
                ));
                assert(old(self).intersection_ok(i.0 as int));
                lemma_replaced_turns_follow(old(self), self, old(effects), effects, i);
            }
            return ;
        }
        let ghost cleared = *self;
        let made = geom.make_all_turns(self, i);
        self.install_turns(i, effects, made);
        proof {
            lemma_fitting_turns_fit(cleared.roads@, i, made@, made.len() as int);
            lemma_fitting_turns_distinct(cleared.roads@, i, made@, made.len() as int);
            assert forall|j: int| 0 <= j < self.intersections.len() implies #[trigger]
                self.intersection_ok(j) by {
                assert(cleared.intersection_ok(j));
            }
            assert forall|r: int| 0 <= r < self.roads.len() implies #[trigger] self.road_ok(r) by {
                assert(cleared.road_ok(r));
            }
            assert(self.has_targets(self.edits.commands@)) by {
                assert forall|k: int| 0 <= k < self.edits.commands@.len() implies self.has_target(
                    #[trigger] self.edits.commands@[k],
                ) by {
                    assert(cleared.has_target(cleared.edits.commands@[k]));
                }
            }
            assert(old(self).intersection_ok(i.0 as int));
            assert(self.intersection_ok(i.0 as int));
            lemma_replaced_turns_follow(old(self), self, old(effects), effects, i);
        }
    }
}

/// The names of one more turn.
pub proof fn lemma_turn_ids_take(turns: Seq<Turn>, k: int)
    requires
        0 <= k < turns.len(),
    ensures
        turn_ids(turns.take(k + 1)) == turn_ids(turns.take(k)).insert(turns[k].id),
{
    let a = turns.take(k + 1);
    let b = turns.take(k);
    assert forall|id: TurnID| turn_ids(a).contains(id) <==> turn_ids(b).insert(
        turns[k].id,
    ).contains(id) by {
        if has_turn(a, id) {
            let j = choose|j: int| 0 <= j < a.len() && #[trigger] a[j].id == id;
            if j < k {
                assert(b[j].id == id);
            }
        }
        if has_turn(b, id) {
            let j = choose|j: int| 0 <= j < b.len() && #[trigger] b[j].id == id;
            assert(a[j].id == id);
        }
        if id == turns[k].id {
            assert(a[k].id == id);
        }
    }
    assert(turn_ids(a) =~= turn_ids(b).insert(turns[k].id));
}

} // verus!
