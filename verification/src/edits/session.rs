//! What else a map offers around its edits: saving them, starting anew, and
//! preparing the search for paths again.

use vstd::prelude::*;
use vstd::string::*;
use crate::connectivity::are_components;
use crate::control::ControlTrafficSignal;
use crate::edits::log::MapEdits;
use crate::ids::LaneID;
use crate::intersection::Control;
use crate::lane::PathConstraints;
use crate::map::StreetMap;
use crate::services::Pathfinder;
use crate::text::{decimal, decimal_string, join, starts_with};

verus! {

/// The name of the edits number `i` that have no name yet.
pub open spec fn untitled_name(i: nat) -> Seq<char> {
    "Untitled Proposal "@ + decimal(i)
}

/// Numbers that hold every number from 1 to `n` are at least `n` numbers.
pub proof fn lemma_numbers_fit(taken: Seq<usize>, n: int)
    requires
        0 <= n <= usize::MAX,
        forall|m: usize| 1 <= m <= n ==> taken.contains(m),
    ensures
        n <= taken.len(),
{
    let numbers = Seq::new(taken.len(), |k: int| taken[k] as int);
    let range = vstd::set_lib::set_int_range(1, n + 1);
    vstd::set_lib::lemma_int_range(1, n + 1);
    assert forall|i: int| range.contains(i) implies numbers.to_set().contains(i) by {
        let m = i as usize;
        assert(taken.contains(m));
        let k = choose|k: int| 0 <= k < taken.len() && taken[k] == m;
        assert(numbers[k] == i);
    }
    vstd::seq_lib::seq_to_set_is_finite(numbers);
    vstd::set_lib::lemma_len_subset(range, numbers.to_set());
    numbers.lemma_cardinality_of_set();
}

/// The number that new edits without a name get: the least number from 1 on
/// that is not among those taken.
pub fn first_free_number(taken: &Vec<usize>) -> (n: usize)
    requires
        taken.len() < usize::MAX,
    ensures
        n >= 1,
        !taken@.contains(n),
        forall|m: usize| 1 <= m < n ==> taken@.contains(m),
{
    let mut n: usize = 1;
    while crate::vecs::vec_contains(taken, n)
        invariant
            1 <= n <= taken.len() + 1,
            taken.len() < usize::MAX,
            forall|m: usize| 1 <= m < n ==> taken@.contains(m),
        decreases taken.len() + 1 - n,
    {
        proof {
            lemma_numbers_fit(taken@, n as int);
        }
        n = n + 1;
    }
    n
}

impl StreetMap {
    /// Empty edits under the name that edits without a name get, with the
    /// number `i`.
    pub fn new_edits(&self, i: usize) -> (e: MapEdits)
        ensures
            e.edits_name@ == untitled_name(i as nat),
            e.commands@.len() == 0,
            e.merge_zones,
            e.changed_roads@.len() == 0,
            e.original_intersections@.len() == 0,
            e.original_crosswalks@.len() == 0,
            e.changed_routes@.len() == 0,
            e.proposal_description@.len() == 0,
            e.proposal_link.is_none(),
    {
        let mut edits = MapEdits::new();
        let number = decimal_string(i);
        edits.edits_name = join("Untitled Proposal ", number.as_str());
        edits
    }

    /// Whether the map has edits without a name that hold commands.
    pub fn unsaved_edits(&self) -> (b: bool)
        ensures
            b == ("Untitled Proposal"@.is_prefix_of(self.edits.edits_name@)
                && self.edits.commands@.len() > 0),
    {
        starts_with(self.edits.edits_name.as_str(), "Untitled Proposal") && self.edits.commands.len()
            > 0
    }

    /// Forgets the edits of the map without taking them back, as if the map
    /// had been imported the way it is now. The map gets empty edits with the
    /// number `i`.
    pub fn clear_edits_before_save(&mut self, i: usize)
        requires
            old(self).wf(),
        ensures
            final(self).wf(),
            final(self).edits.edits_name@ == untitled_name(i as nat),
            final(self).edits.commands@.len() == 0,
            final(self).city == old(self).city,
            final(self).roads == old(self).roads,
            final(self).intersections == old(self).intersections,
            final(self).buildings == old(self).buildings,
            final(self).parking_lots == old(self).parking_lots,
            final(self).transit_stops == old(self).transit_stops,
            final(self).transit_routes == old(self).transit_routes,
            final(self).zones == old(self).zones,
            final(self).edits_generation == old(self).edits_generation,
            final(self).pathfinder_dirty == old(self).pathfinder_dirty,
    {
        let edits = self.new_edits(i);
        self.edits = edits;
        proof {
            crate::edits::orchestrate::lemma_wf_frame(old(self), self);
        }
    }

    /// Replaces the signal of an intersection that has one, while the signal
    /// is being edited. The new signal is taken as it is: it need not fit the
    /// movements of the intersection.
    pub fn incremental_edit_traffic_signal(&mut self, signal: ControlTrafficSignal)
        requires
            old(self).wf(),
            old(self).has_intersection(signal.id),
            old(self).intersections[signal.id.0 as int].control is TrafficSignal,
        ensures
            final(self).wf(),
            final(self).intersections[signal.id.0 as int].control == Control::TrafficSignal(signal),
            final(self).intersections[signal.id.0 as int].same_but_control(
                &old(self).intersections[signal.id.0 as int],
            ),
            final(self).intersections.len() == old(self).intersections.len(),
            forall|j: int|
                0 <= j < old(self).intersections.len() && j != signal.id.0
                    ==> final(self).intersections[j] == old(self).intersections[j],
            final(self).city == old(self).city,
            final(self).roads == old(self).roads,
            final(self).buildings == old(self).buildings,
            final(self).parking_lots == old(self).parking_lots,
            final(self).transit_stops == old(self).transit_stops,
            final(self).transit_routes == old(self).transit_routes,
            final(self).zones == old(self).zones,
            final(self).edits == old(self).edits,
            final(self).edits_generation == old(self).edits_generation,
            final(self).pathfinder_dirty == old(self).pathfinder_dirty,
    {
        let i = signal.id;
        proof {
            assert(self.turns_ok(i.0 as int));
        }
        self.intersections[i.0].control = Control::TrafficSignal(signal);
        proof {
            crate::edits::apply::lemma_control_keeps_base(old(self), self, i);
            assert(self.turns_ok(i.0 as int));
            crate::edits::apply::lemma_frame_compose(old(self), self, i);
        }
    }

    /// Whether the two maps differ at most in the blackhole marks of their
    /// lanes.
    pub open spec fn same_but_blackholes(&self, other: &StreetMap) -> bool {
        &&& self.city == other.city
        &&& self.intersections == other.intersections
        &&& self.buildings == other.buildings
        &&& self.parking_lots == other.parking_lots
        &&& self.transit_stops == other.transit_stops
        &&& self.transit_routes == other.transit_routes
        &&& self.zones == other.zones
        &&& self.edits == other.edits
        &&& self.edits_generation == other.edits_generation
        &&& self.roads.len() == other.roads.len()
        &&& forall|r: int|
            0 <= r < self.roads.len() ==> {
                &&& (#[trigger] self.roads[r]).same_but_lanes(&other.roads[r])
                &&& self.roads[r].center_pts == other.roads[r].center_pts
                &&& self.roads[r].lanes.len() == other.roads[r].lanes.len()
                &&& forall|j: int|
                    0 <= j < self.roads[r].lanes.len()
                        ==> (#[trigger] self.roads[r].lanes[j]).same_but_blackholes(
                        &other.roads[r].lanes[j],
                    )
            }
    }

    /// Marks as blackholes exactly the lanes in the two lists: those in
    /// `driving` for cars, those in `biking` for bikes. A lane is named by its
    /// road and its position there; a name of no lane of the map is passed
    /// over.
    pub fn set_blackholes(&mut self, driving: &Vec<LaneID>, biking: &Vec<LaneID>)
        requires
            old(self).wf(),
        ensures
            final(self).wf(),
            final(self).same_but_blackholes(old(self)),
            final(self).pathfinder_dirty == old(self).pathfinder_dirty,
            forall|r: int, j: int|
                0 <= r < final(self).roads.len() && 0 <= j < final(self).roads[r].lanes.len() ==> {
                    &&& (#[trigger] final(self).roads[r].lanes[j]).driving_blackhole
                        == driving@.contains(LaneID { road: crate::ids::RoadID(r as usize),
                            offset: j as usize })
                    &&& final(self).roads[r].lanes[j].biking_blackhole == biking@.contains(
                        LaneID { road: crate::ids::RoadID(r as usize), offset: j as usize },
                    )
                },
    {
        let count = self.roads.len();
        let mut r: usize = 0;
        while r < count
            invariant
                r <= count,
                count == self.roads.len(),
                self.same_but_blackholes(old(self)),
                self.pathfinder_dirty == old(self).pathfinder_dirty,
                forall|q: int, j: int|
                    0 <= q < r && 0 <= j < self.roads[q].lanes.len() ==> !(
                    #[trigger] self.roads[q].lanes[j]).driving_blackhole
                        && !self.roads[q].lanes[j].biking_blackhole,
            decreases count - r,
        {
            let n = self.roads[r].lanes.len();
            let mut j: usize = 0;
            while j < n
                invariant
                    j <= n,
                    r < count,
                    count == self.roads.len(),
                    n == self.roads[r as int].lanes.len(),
                    self.same_but_blackholes(old(self)),
                    self.pathfinder_dirty == old(self).pathfinder_dirty,
                    forall|q: int, x: int|
                        0 <= q < r && 0 <= x < self.roads[q].lanes.len() ==> !(
                        #[trigger] self.roads[q].lanes[x]).driving_blackhole
                            && !self.roads[q].lanes[x].biking_blackhole,
                    forall|x: int|
                        0 <= x < j ==> !(#[trigger] self.roads[r as int].lanes[x]).driving_blackhole
                            && !self.roads[r as int].lanes[x].biking_blackhole,
                decreases n - j,
            {
                let ghost before = *self;
                self.roads[r].lanes[j].driving_blackhole = false;
                self.roads[r].lanes[j].biking_blackhole = false;
                proof {
                    lemma_marks_compose(old(self), &before, self);
                }
                j = j + 1;
            }
            r = r + 1;
        }
        let mut k: usize = 0;
        while k < driving.len()
            invariant
                k <= driving.len(),
                self.same_but_blackholes(old(self)),
                self.pathfinder_dirty == old(self).pathfinder_dirty,
                forall|q: int, j: int|
                    0 <= q < self.roads.len() && 0 <= j < self.roads[q].lanes.len() ==> {
                        &&& (#[trigger] self.roads[q].lanes[j]).driving_blackhole
                            == driving@.take(k as int).contains(
                            LaneID { road: crate::ids::RoadID(q as usize), offset: j as usize },
                        )
                        &&& !self.roads[q].lanes[j].biking_blackhole
                    },
            decreases driving.len() - k,
        {
            let l = driving[k];
            let ghost before = *self;
            if l.road.0 < self.roads.len() && l.offset < self.roads[l.road.0].lanes.len() {
                self.roads[l.road.0].lanes[l.offset].driving_blackhole = true;
            }
            proof {
                lemma_marks_compose(old(self), &before, self);
                crate::id_set::lemma_push_contains(driving@.take(k as int), l);
                assert(driving@.take(k + 1) =~= driving@.take(k as int).push(l));
                assert forall|q: int, j: int|
                    0 <= q < self.roads.len() && 0 <= j < self.roads[q].lanes.len() implies (
                #[trigger] self.roads[q].lanes[j]).driving_blackhole == driving@.take(
                    k + 1,
                ).contains(LaneID { road: crate::ids::RoadID(q as usize), offset: j as usize })
                    && !self.roads[q].lanes[j].biking_blackhole by {
                    assert(before.roads[q].lanes[j].driving_blackhole == driving@.take(
                        k as int,
                    ).contains(LaneID { road: crate::ids::RoadID(q as usize),
                        offset: j as usize }));
                }
            }
            k = k + 1;
        }
        proof {
            assert(driving@.take(k as int) =~= driving@);
        }
        let mut k: usize = 0;
        while k < biking.len()
            invariant
                k <= biking.len(),
                self.same_but_blackholes(old(self)),
                self.pathfinder_dirty == old(self).pathfinder_dirty,
                forall|q: int, j: int|
                    0 <= q < self.roads.len() && 0 <= j < self.roads[q].lanes.len() ==> {
                        &&& (#[trigger] self.roads[q].lanes[j]).driving_blackhole
                            == driving@.contains(
                            LaneID { road: crate::ids::RoadID(q as usize), offset: j as usize },
                        )
                        &&& self.roads[q].lanes[j].biking_blackhole == biking@.take(
                            k as int,
                        ).contains(
                            LaneID { road: crate::ids::RoadID(q as usize), offset: j as usize },
                        )
                    },
            decreases biking.len() - k,
        {
            let l = biking[k];
            let ghost before = *self;
            if l.road.0 < self.roads.len() && l.offset < self.roads[l.road.0].lanes.len() {
                self.roads[l.road.0].lanes[l.offset].biking_blackhole = true;
            }
            proof {
                lemma_marks_compose(old(self), &before, self);
                crate::id_set::lemma_push_contains(biking@.take(k as int), l);
                assert(biking@.take(k + 1) =~= biking@.take(k as int).push(l));
                assert forall|q: int, j: int|
                    0 <= q < self.roads.len() && 0 <= j < self.roads[q].lanes.len() implies (
                #[trigger] self.roads[q].lanes[j]).driving_blackhole == driving@.contains(
                    LaneID { road: crate::ids::RoadID(q as usize), offset: j as usize },
                ) && self.roads[q].lanes[j].biking_blackhole == biking@.take(k + 1).contains(
                    LaneID { road: crate::ids::RoadID(q as usize), offset: j as usize },
                ) by {
                    assert(before.roads[q].lanes[j].biking_blackhole == biking@.take(
                        k as int,
                    ).contains(LaneID { road: crate::ids::RoadID(q as usize),
                        offset: j as usize }));
                }
            }
            k = k + 1;
        }
        proof {
            assert(biking@.take(k as int) =~= biking@);
            lemma_marks_keep_wf(old(self), self);
        }
    }

    /// Prepares the search for paths again after the map was edited, and
    /// marks the lanes from which no trip can be completed by car or by bike:
    /// see [`StreetMap::find_blackholes`]. Nothing happens if the map was not
    /// edited since the search was last prepared: the map and the pathfinder
    /// stay as they are.
    pub fn recalculate_pathfinding_after_edits<P: Pathfinder>(&mut self, pathfinder: &mut P)
        requires
            old(self).wf(),
        ensures
            final(self).wf(),
            !final(self).pathfinder_dirty,
            !old(self).pathfinder_dirty ==> *final(self) == *old(self),
            !old(self).pathfinder_dirty ==> *final(pathfinder) == *old(pathfinder),
            final(self).same_but_blackholes(old(self)),
            old(self).pathfinder_dirty ==> exists|
                driving: Seq<Vec<LaneID>>,
                biking: Seq<Vec<LaneID>>,
            | #[trigger]
                final(self).blackholes_follow(old(self), driving, biking),
    {
        if !self.pathfinder_dirty {
            proof {
                lemma_marks_compose(old(self), old(self), self);
            }
            return ;
        }
        pathfinder.rebuild(self);
        let driving = self.find_blackholes(PathConstraints::Car);
        let biking = self.find_blackholes(PathConstraints::Bike);
        let ghost driving_groups = choose|groups: Seq<Vec<LaneID>>| #[trigger]
            are_components(
                self.edges_for(PathConstraints::Car, self.intersections.len() as int),
                groups,
            ) && forall|r: int, j: int|
                0 <= r < self.roads.len() && 0 <= j < self.roads[r].lanes.len() ==> (
                driving@.contains(LaneID { road: crate::ids::RoadID(r as usize),
                    offset: j as usize })
                    <==> #[trigger] self.is_blackhole(PathConstraints::Car, groups, r, j));
        let ghost biking_groups = choose|groups: Seq<Vec<LaneID>>| #[trigger]
            are_components(
                self.edges_for(PathConstraints::Bike, self.intersections.len() as int),
                groups,
            ) && forall|r: int, j: int|
                0 <= r < self.roads.len() && 0 <= j < self.roads[r].lanes.len() ==> (
                biking@.contains(LaneID { road: crate::ids::RoadID(r as usize),
                    offset: j as usize })
                    <==> #[trigger] self.is_blackhole(PathConstraints::Bike, groups, r, j));
        self.set_blackholes(&driving, &biking);
        let ghost marked = *self;
        self.pathfinder_dirty = false;
        proof {
            crate::edits::orchestrate::lemma_wf_frame(&marked, self);
            assert forall|r: int, j: int|
                0 <= r < self.roads.len() && 0 <= j < self.roads[r].lanes.len() implies (
            #[trigger] self.roads[r].lanes[j]).driving_blackhole == old(self).is_blackhole(
                PathConstraints::Car,
                driving_groups,
                r,
                j,
            ) && self.roads[r].lanes[j].biking_blackhole == old(self).is_blackhole(
                PathConstraints::Bike,
                biking_groups,
                r,
                j,
            ) by {
                assert(marked.roads[r].lanes.len() == old(self).roads[r].lanes.len());
                assert(marked.roads[r].lanes[j].driving_blackhole == driving@.contains(
                    LaneID { road: crate::ids::RoadID(r as usize), offset: j as usize },
                ));
                assert(old(self).is_blackhole(PathConstraints::Car, driving_groups, r, j)
                    == driving@.contains(
                    LaneID { road: crate::ids::RoadID(r as usize), offset: j as usize },
                ));
                assert(old(self).is_blackhole(PathConstraints::Bike, biking_groups, r, j)
                    == biking@.contains(
                    LaneID { road: crate::ids::RoadID(r as usize), offset: j as usize },
                ));
            }
            assert(self.blackholes_follow(old(self), driving_groups, biking_groups));
        }
    }

    /// Whether the lanes of this map are marked as blackholes as the groups
    /// say: `driving` are the strongly connected components of the graph of
    /// the turns of `old` that cars may use, `biking` those of the graph for
    /// bikes, and a lane is marked for cars or bikes if and only if they may
    /// use it and it is not in the largest group. See
    /// [`StreetMap::is_blackhole`].
    pub open spec fn blackholes_follow(
        &self,
        old: &StreetMap,
        driving: Seq<Vec<LaneID>>,
        biking: Seq<Vec<LaneID>>,
    ) -> bool {
        &&& are_components(
            old.edges_for(PathConstraints::Car, old.intersections.len() as int),
            driving,
        )
        &&& are_components(
            old.edges_for(PathConstraints::Bike, old.intersections.len() as int),
            biking,
        )
        &&& forall|r: int, j: int|
            0 <= r < self.roads.len() && 0 <= j < self.roads[r].lanes.len() ==> (
            #[trigger] self.roads[r].lanes[j]).driving_blackhole == old.is_blackhole(
                PathConstraints::Car,
                driving,
                r,
                j,
            ) && self.roads[r].lanes[j].biking_blackhole == old.is_blackhole(
                PathConstraints::Bike,
                biking,
                r,
                j,
            )
    }
}

/// Changing blackhole marks twice is changing blackhole marks.
pub proof fn lemma_marks_compose(a: &StreetMap, b: &StreetMap, c: &StreetMap)
    requires
        b.same_but_blackholes(a),
        c.city == b.city,
        c.intersections == b.intersections,
        c.buildings == b.buildings,
        c.parking_lots == b.parking_lots,
        c.transit_stops == b.transit_stops,
        c.transit_routes == b.transit_routes,
        c.zones == b.zones,
        c.edits == b.edits,
        c.edits_generation == b.edits_generation,
        c.roads.len() == b.roads.len(),
        forall|r: int|
            0 <= r < c.roads.len() ==> {
                &&& (#[trigger] c.roads[r]).same_but_lanes(&b.roads[r])
                &&& c.roads[r].center_pts == b.roads[r].center_pts
                &&& c.roads[r].lanes.len() == b.roads[r].lanes.len()
                &&& forall|j: int|
                    0 <= j < c.roads[r].lanes.len()
                        ==> (#[trigger] c.roads[r].lanes[j]).same_but_blackholes(
                        &b.roads[r].lanes[j],
                    )
            },
    ensures
        c.same_but_blackholes(a),
{
    assert forall|r: int| 0 <= r < c.roads.len() implies {
        &&& (#[trigger] c.roads[r]).same_but_lanes(&a.roads[r])
        &&& c.roads[r].center_pts == a.roads[r].center_pts
        &&& c.roads[r].lanes.len() == a.roads[r].lanes.len()
        &&& forall|j: int|
            0 <= j < c.roads[r].lanes.len()
                ==> (#[trigger] c.roads[r].lanes[j]).same_but_blackholes(
                &a.roads[r].lanes[j],
            )
    } by {
        assert(b.roads[r].same_but_lanes(&a.roads[r]));
        assert forall|j: int| 0 <= j < c.roads[r].lanes.len() implies (
        #[trigger] c.roads[r].lanes[j]).same_but_blackholes(&a.roads[r].lanes[j]) by {
            assert(b.roads[r].lanes[j].same_but_blackholes(&a.roads[r].lanes[j]));
        }
    }
}

/// Changing blackhole marks keeps a map sound.
pub proof fn lemma_marks_keep_wf(before: &StreetMap, after: &StreetMap)
    requires
        before.wf(),
        after.same_but_blackholes(before),
    ensures
        after.wf(),
{
    assert forall|q: int| 0 <= q < after.roads.len() implies #[trigger] after.road_ok(q) by {
        assert(before.road_ok(q));
        assert(after.roads[q].same_but_lanes(&before.roads[q]));
        assert forall|j: int| 0 <= j < after.roads[q].lanes.len() implies (
        #[trigger] after.roads[q].lanes[j]).id == (LaneID {
            road: after.roads[q].id,
            offset: j as usize,
        }) by {
            assert(after.roads[q].lanes[j].same_but_blackholes(&before.roads[q].lanes[j]));
        }
    }
    assert forall|j: int| 0 <= j < after.intersections.len() implies #[trigger]
        after.intersection_ok(j) by {
        assert(before.intersection_ok(j));
        let x = after.intersections[j];
        assert forall|k: int| 0 <= k < x.roads.len() implies after.touches(
            #[trigger] x.roads[k],
            x.id,
        ) by {
            assert(before.touches(x.roads[k], x.id));
            assert(after.roads[x.roads[k].0 as int].same_but_lanes(
                &before.roads[x.roads[k].0 as int],
            ));
        }
    }
    assert forall|j: int| 0 <= j < after.intersections.len() implies #[trigger] after.turns_ok(
        j,
    ) by {
        assert(before.turns_ok(j));
        assert(before.intersection_ok(j));
        let x = after.intersections[j];
        assert forall|k: int| 0 <= k < before.intersections[j].roads.len() implies crate::policy::same_for_signs(
            before.roads[(#[trigger] before.intersections[j].roads[k]).0 as int],
            after.roads[before.intersections[j].roads[k].0 as int],
        ) by {
            let q = before.intersections[j].roads[k];
            assert(before.touches(q, before.intersections[j].id));
            assert(after.roads[q.0 as int].same_but_lanes(&before.roads[q.0 as int]));
            assert(crate::road::specs_of(after.roads[q.0 as int].lanes@) =~= crate::road::specs_of(
                before.roads[q.0 as int].lanes@,
            )) by {
                assert forall|y: int| 0 <= y < after.roads[q.0 as int].lanes.len() implies after.roads[q.0 as int].lanes[y].spec_of()
                    == before.roads[q.0 as int].lanes[y].spec_of() by {
                    assert(after.roads[q.0 as int].lanes[y].same_but_blackholes(
                        &before.roads[q.0 as int].lanes[y],
                    ));
                }
            }
        }
        before.lemma_signs_stay(after, j);
        assert forall|k: int| 0 <= k < x.turns.len() implies after.turn_ok(
            #[trigger] x.turns[k],
            x.id,
        ) by {
            let t = x.turns[k];
            assert(before.turn_ok(t, x.id));
            assert(after.roads[t.id.src.road.0 as int].same_but_lanes(
                &before.roads[t.id.src.road.0 as int],
            ));
            assert(after.roads[t.id.dst.road.0 as int].same_but_lanes(
                &before.roads[t.id.dst.road.0 as int],
            ));
        }
    }
    assert forall|c: int| 0 <= c < after.edits.commands@.len() implies after.has_target(
        #[trigger] after.edits.commands@[c],
    ) by {
        assert(before.has_target(before.edits.commands@[c]));
    }
}

} // verus!
