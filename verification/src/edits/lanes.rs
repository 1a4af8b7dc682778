//! Changing the lanes of a road.

use vstd::prelude::*;
use crate::edits::{ApplyError, EditEffects};
use crate::ids::{IntersectionID, LaneID, RoadID};
use crate::intersection::Intersection;
use crate::lane::LaneSpec;
use crate::map::StreetMap;
use crate::road::{specs_of, Road};
use crate::services::Geometry;
use crate::edits::shape::others;

verus! {

/// The lanes of road `r` at the positions below `n`.
pub open spec fn lanes_upto(r: RoadID, n: int) -> Set<LaneID> {
    Set::new(|l: LaneID| l.road == r && l.offset < n)
}

/// The lanes of the given roads as they stand in `roads`.
pub open spec fn lanes_of(roads: Seq<Road>, of: Set<RoadID>) -> Set<LaneID> {
    Set::new(
        |l: LaneID|
            of.contains(l.road) && l.road.0 < roads.len() && l.offset
                < roads[l.road.0 as int].lanes.len(),
    )
}

impl Road {
    /// Whether the two roads differ at most in their lanes and centerline.
    pub open spec fn same_but_lanes(&self, other: &Road) -> bool {
        &&& self.id == other.id
        &&& self.src_i == other.src_i
        &&& self.dst_i == other.dst_i
        &&& self.speed_limit == other.speed_limit
        &&& self.access_restrictions == other.access_restrictions
        &&& self.untrimmed_center_pts == other.untrimmed_center_pts
        &&& self.rank == other.rank
        &&& self.osm_tags == other.osm_tags
        &&& self.orig == other.orig
        &&& self.transit_stops == other.transit_stops
    }
}

impl Intersection {
    /// Whether the two intersections differ at most in their outline and in
    /// their lists of lanes.
    pub open spec fn same_but_polygon_and_lists(&self, other: &Intersection) -> bool {
        &&& self.id == other.id
        &&& self.control == other.control
        &&& self.roads == other.roads
        &&& self.turns == other.turns
        &&& self.movements == other.movements
    }

    /// Whether the two intersections differ at most in their control.
    pub open spec fn same_but_control(&self, other: &Intersection) -> bool {
        &&& self.id == other.id
        &&& self.roads == other.roads
        &&& self.incoming_lanes == other.incoming_lanes
        &&& self.outgoing_lanes == other.outgoing_lanes
        &&& self.turns == other.turns
        &&& self.movements == other.movements
        &&& self.polygon == other.polygon
    }

    /// Whether the two intersections differ at most in the types of their
    /// turns.
    pub open spec fn same_but_turn_types(&self, other: &Intersection) -> bool {
        &&& self.id == other.id
        &&& self.control == other.control
        &&& self.roads == other.roads
        &&& self.incoming_lanes == other.incoming_lanes
        &&& self.outgoing_lanes == other.outgoing_lanes
        &&& self.movements == other.movements
        &&& self.polygon == other.polygon
    }

    /// Whether the two intersections differ at most in their outline.
    pub open spec fn same_but_polygon(&self, other: &Intersection) -> bool {
        &&& self.id == other.id
        &&& self.control == other.control
        &&& self.roads == other.roads
        &&& self.incoming_lanes == other.incoming_lanes
        &&& self.outgoing_lanes == other.outgoing_lanes
        &&& self.turns == other.turns
        &&& self.movements == other.movements
    }
}

impl StreetMap {
    /// Whether the two maps differ at most in the lanes of road `r`, in
    /// shapes, and in that lanes of other roads were made anew from the
    /// descriptions that they had.
    pub open spec fn same_but_lanes_of(&self, other: &StreetMap, r: RoadID) -> bool {
        &&& self.city == other.city
        &&& self.buildings == other.buildings
        &&& self.parking_lots == other.parking_lots
        &&& self.transit_stops == other.transit_stops
        &&& self.transit_routes == other.transit_routes
        &&& self.zones == other.zones
        &&& self.edits == other.edits
        &&& self.edits_generation == other.edits_generation
        &&& self.pathfinder_dirty == other.pathfinder_dirty
        &&& self.roads.len() == other.roads.len()
        &&& forall|q: int|
            0 <= q < self.roads.len() ==> (#[trigger] self.roads[q]).same_but_lanes(&other.roads[q])
        &&& forall|q: int|
            0 <= q < self.roads.len() && q != r.0 ==> specs_of((#[trigger] self.roads[q]).lanes@)
                == specs_of(other.roads[q].lanes@)
        &&& self.intersections.len() == other.intersections.len()
        &&& forall|j: int|
            0 <= j < self.intersections.len()
                ==> (#[trigger] self.intersections[j]).same_but_polygon(
                &other.intersections[j],
            )
    }

    /// Whether road number `q` is road `r` or meets it at one of its ends.
    pub open spec fn near(&self, r: RoadID, q: int) -> bool {
        q == r.0 || crate::map::road_touches(
            self.roads@,
            RoadID(q as usize),
            self.roads[r.0 as int].src_i,
        ) || crate::map::road_touches(self.roads@, RoadID(q as usize), self.roads[r.0 as int].dst_i)
    }

    /// Gives road `r` the lanes `lanes_ltr`, from left to right.
    ///
    /// First the intersections at both ends of the road are shaped anew for
    /// the new width of the road, which cuts the centerlines of all roads that
    /// meet there to a new length. Then the old lanes of the road are recorded
    /// as deleted and its new lanes are made. The lanes of every other road
    /// whose centerline changed are made anew from the descriptions that they
    /// had; such a road is recorded as changed, and its lanes as modified,
    /// together with the deleted lanes.
    pub fn modify_lanes<G: Geometry>(
        &mut self,
        r: RoadID,
        lanes_ltr: &Vec<LaneSpec>,
        effects: &mut EditEffects,
        geom: &G,
    ) -> (res: Result<(), ApplyError>)
        requires
            old(self).has_road(r),
            old(self).base_ok(),
        ensures
            final(self).base_ok(),
            final(self).same_but_lanes_of(old(self), r),
            forall|j: int|
                0 <= j < old(self).intersections.len() && j != old(self).roads[r.0 as int].src_i.0
                    && j != old(self).roads[r.0 as int].dst_i.0 ==> final(self).intersections[j]
                    == old(self).intersections[j],
            final(effects).same_but_lanes(old(effects)),
            forall|q: int|
                0 <= q < old(self).roads.len() && !old(self).near(r, q) ==> final(self).roads[q]
                    == old(self).roads[q],
            match res {
                Ok(()) => {
                    let src = old(self).intersections[old(self).roads[r.0 as int].src_i.0 as int];
                    let dst = old(self).intersections[old(self).roads[r.0 as int].dst_i.0 as int];
                    let affected = (others(src.roads@, r, src.roads.len() as int) + others(
                        dst.roads@,
                        r,
                        dst.roads.len() as int,
                    )).to_set();
                    &&& specs_of(final(self).roads[r.0 as int].lanes@) == lanes_ltr@
                    &&& final(effects).deleted_lanes@ == old(effects).deleted_lanes@.union(
                        lanes_upto(r, old(self).roads[r.0 as int].lanes.len() as int),
                    )
                    &&& final(effects).changed_roads@ == old(effects).changed_roads@.union(affected)
                    &&& final(effects).modified_lanes@ == old(effects).modified_lanes@.union(
                        lanes_of(final(self).roads@, affected),
                    ).union(final(effects).deleted_lanes@)
                },
                Err(e) => {
                    &&& specs_of(final(self).roads[r.0 as int].lanes@) == specs_of(
                        old(self).roads[r.0 as int].lanes@,
                    )
                    &&& *final(effects) == *old(effects)
                    &&& (e == ApplyError::NoIntersectionShape(old(self).roads[r.0 as int].src_i)
                        || e == ApplyError::NoIntersectionShape(old(self).roads[r.0 as int].dst_i))
                },
            },
    {
        assert(self.road_ok(r.0 as int));
        let src_i = self.roads[r.0].src_i;
        let dst_i = self.roads[r.0].dst_i;
        let width = crate::lane::sum_widths(lanes_ltr);
        assert(self.intersection_ok(src_i.0 as int));
        assert(self.intersection_ok(dst_i.0 as int));
        let mut road_geom_changed = match self.recalculate_intersection_polygon(
            r,
            width,
            src_i,
            geom,
        ) {
            Ok(affected) => affected,
            Err(e) => {
                return Err(e);
            },
        };
        let ghost first = *self;
        proof {
            lemma_shape_keeps_base(old(self), &first, src_i);
            assert(first.intersection_ok(dst_i.0 as int));
        }
        let mut second = match self.recalculate_intersection_polygon(r, width, dst_i, geom) {
            Ok(affected) => affected,
            Err(e) => {
                proof {
                    assert forall|q: int| 0 <= q < self.roads.len() implies (
                    #[trigger] self.roads[q]).same_but_lanes(&old(self).roads[q]) by {
                        assert(first.roads[q].same_but_center(&old(self).roads[q]));
                    }
                    assert forall|q: int| 0 <= q < self.roads.len() && q != r.0 implies specs_of(
                        (#[trigger] self.roads[q]).lanes@,
                    ) == specs_of(old(self).roads[q].lanes@) by {
                        assert(first.roads[q].same_but_center(&old(self).roads[q]));
                    }
                    assert(first.roads[r.0 as int].same_but_center(&old(self).roads[r.0 as int]));
                    assert forall|q: int|
                        0 <= q < old(self).roads.len() && !old(self).near(
                            r,
                            q,
                        ) implies self.roads[q] == old(self).roads[q] by {
                        lemma_far_not_listed(old(self), src_i, q);
                    }
                }
                return Err(e);
            },
        };
        let ghost shaped = *self;
        let ghost src_others = road_geom_changed@;
        let ghost dst_others = second@;
        road_geom_changed.append(&mut second);
        proof {
            lemma_shape_keeps_base(&first, &shaped, dst_i);
            assert(road_geom_changed@ =~= src_others + dst_others);
            assert forall|q: int| 0 <= q < self.roads.len() implies (
            #[trigger] shaped.roads[q]).same_but_center(&old(self).roads[q]) by {
                assert(first.roads[q].same_but_center(&old(self).roads[q]));
                assert(shaped.roads[q].same_but_center(&first.roads[q]));
            }
            assert(first.intersections[dst_i.0 as int].roads
                == old(self).intersections[dst_i.0 as int].roads);
            assert forall|q: int|
                0 <= q < old(self).roads.len() && !old(self).near(r, q) implies shaped.roads[q]
                == old(self).roads[q] by {
                lemma_far_not_listed(old(self), src_i, q);
                lemma_far_not_listed(old(self), dst_i, q);
                assert(first.roads[q] == old(self).roads[q]);
            }
        }
        // The old lanes of the road go.
        let n = self.roads[r.0].lanes.len();
        let mut k: usize = 0;
        while k < n
            invariant
                k <= n,
                *self == shaped,
                self.has_road(r),
                self.road_ok(r.0 as int),
                n == self.roads[r.0 as int].lanes.len(),
                effects.deleted_lanes@ == old(effects).deleted_lanes@.union(lanes_upto(r,
                    k as int)),
                effects.same_but_deleted_lanes(old(effects)),
            decreases n - k,
        {
            effects.deleted_lanes.insert(self.roads[r.0].lanes[k].id);
            proof {
                assert(self.roads[r.0 as int].lanes[k as int].id == LaneID { road: r, offset: k });
                assert(lanes_upto(r, k + 1) =~= lanes_upto(r, k as int).insert(
                    LaneID { road: r, offset: k },
                ));
                assert(effects.deleted_lanes@ =~= old(effects).deleted_lanes@.union(
                    lanes_upto(r, k + 1),
                ));
            }
            k = k + 1;
        }
        self.roads[r.0].recreate_lanes(lanes_ltr, geom);
        let ghost relaned = *self;
        proof {
            assert forall|q: int| 0 <= q < self.roads.len() implies #[trigger] self.road_ok(q) by {
                assert(shaped.road_ok(q));
            }
            assert forall|j: int| 0 <= j < self.intersections.len() implies #[trigger]
                self.intersection_ok(j) by {
                assert(shaped.intersection_ok(j));
            }
        }
        // The lanes of the roads around it are made anew.
        let ghost all = road_geom_changed@;
        let mut k: usize = 0;
        proof {
            assert(all.take(0).to_set() =~= Set::<RoadID>::empty());
            assert(lanes_of(self.roads@, Set::<RoadID>::empty()) =~= Set::<LaneID>::empty());
            assert(effects.modified_lanes@ =~= old(effects).modified_lanes@.union(
                lanes_of(self.roads@, all.take(0).to_set()),
            ));
            assert(effects.changed_roads@ =~= old(effects).changed_roads@.union(
                all.take(0).to_set(),
            ));
            lemma_others_exist(
                old(self).intersections[src_i.0 as int].roads@,
                r,
                old(self).intersections[src_i.0 as int].roads.len() as int,
            );
            lemma_others_exist(
                old(self).intersections[dst_i.0 as int].roads@,
                r,
                old(self).intersections[dst_i.0 as int].roads.len() as int,
            );
            assert forall|j: int| 0 <= j < all.len() implies self.has_road(#[trigger] all[j])
                && all[j] != r && old(self).near(r, all[j].0 as int) by {
                if j < src_others.len() {
                    let w = choose|w: int|
                        0 <= w < old(self).intersections[src_i.0 as int].roads.len()
                            && old(self).intersections[src_i.0 as int].roads[w] == src_others[j];
                    assert(old(self).touches(old(self).intersections[src_i.0 as int].roads[w],
                        src_i));
                } else {
                    let w = choose|w: int|
                        0 <= w < old(self).intersections[dst_i.0 as int].roads.len()
                            && old(self).intersections[dst_i.0 as int].roads[w] == dst_others[j
                            - src_others.len()];
                    assert(old(self).touches(old(self).intersections[dst_i.0 as int].roads[w],
                        dst_i));
                }
            }
        }
        while k < road_geom_changed.len()
            invariant
                k <= road_geom_changed.len(),
                all == road_geom_changed@,
                self.has_road(r),
                forall|j: int| 0 <= j < all.len() ==> self.has_road(#[trigger] all[j]) && all[j]
                    != r && old(self).near(r, all[j].0 as int),
                self.roads.len() == old(self).roads.len(),
                forall|p: int|
                    0 <= p < old(self).roads.len() && !old(self).near(r, p) ==> self.roads[p]
                        == old(self).roads[p],
                self.same_but_lanes_of(&relaned, r),
                self.intersections == shaped.intersections,
                self.roads[r.0 as int] == relaned.roads[r.0 as int],
                forall|q: int| 0 <= q < self.roads.len() ==> #[trigger] self.road_ok(q),
                forall|j: int|
                    0 <= j < self.intersections.len() ==> #[trigger] self.intersection_ok(j),
                self.has_targets(self.edits.commands@),
                effects.changed_roads@ == old(effects).changed_roads@.union(
                    all.take(k as int).to_set(),
                ),
                effects.modified_lanes@ == old(effects).modified_lanes@.union(
                    lanes_of(self.roads@, all.take(k as int).to_set()),
                ),
                effects.deleted_lanes@ == old(effects).deleted_lanes@.union(lanes_upto(r,
                    n as int)),
                effects.same_but_lanes(old(effects)),
            decreases road_geom_changed.len() - k,
        {
            let q = road_geom_changed[k];
            assert(self.has_road(all[k as int]) && all[k as int] != r && old(self).near(
                r,
                all[k as int].0 as int,
            ));
            let ghost before = *self;
            let ghost modified_before = effects.modified_lanes@;
            effects.changed_roads.insert(q);
            let lane_specs = self.roads[q.0].lane_specs();
            self.roads[q.0].recreate_lanes(&lane_specs, geom);
            let m = self.roads[q.0].lanes.len();
            let mut j: usize = 0;
            let ghost listed = *effects;
            proof {
                assert(before.road_ok(q.0 as int));
                assert(effects.modified_lanes@ =~= modified_before.union(lanes_upto(q, 0)));
            }
            while j < m
                invariant
                    j <= m,
                    self.has_road(q),
                    m == self.roads[q.0 as int].lanes.len(),
                    self.roads[q.0 as int].lanes_numbered(),
                    self.roads[q.0 as int].id == q,
                    effects.modified_lanes@ == modified_before.union(lanes_upto(q, j as int)),
                    effects.same_but_modified_lanes(&listed),
                    listed.same_but_lanes(old(effects)),
                    effects.changed_roads@ == old(effects).changed_roads@.union(
                        all.take(k as int).to_set(),
                    ).insert(q),
                    effects.deleted_lanes@ == old(effects).deleted_lanes@.union(
                        lanes_upto(r, n as int),
                    ),
                decreases m - j,
            {
                effects.modified_lanes.insert(self.roads[q.0].lanes[j].id);
                proof {
                    assert(self.roads[q.0 as int].lanes[j as int].id == LaneID {
                        road: q,
                        offset: j,
                    });
                    assert(lanes_upto(q, j + 1) =~= lanes_upto(q, j as int).insert(
                        LaneID { road: q, offset: j },
                    ));
                    assert(effects.modified_lanes@ =~= modified_before.union(lanes_upto(q, j + 1)));
                }
                j = j + 1;
            }
            proof {
                assert(before.road_ok(q.0 as int));
                assert(specs_of(self.roads[q.0 as int].lanes@).len() == specs_of(
                    before.roads[q.0 as int].lanes@,
                ).len());
                assert forall|p: int| 0 <= p < self.roads.len() implies #[trigger] self.road_ok(
                    p,
                ) by {
                    assert(before.road_ok(p));
                }
                assert forall|p: int| 0 <= p < self.intersections.len() implies #[trigger]
                    self.intersection_ok(p) by {
                    assert(before.intersection_ok(p));
                }
                assert(self.has_targets(self.edits.commands@)) by {
                    assert forall|c: int|
                        0 <= c < self.edits.commands@.len() implies self.has_target(
                        #[trigger] self.edits.commands@[c],
                    ) by {
                        assert(before.has_target(before.edits.commands@[c]));
                    }
                }
                assert forall|p: int| 0 <= p < self.roads.len() implies (
                #[trigger] self.roads[p]).same_but_lanes(&relaned.roads[p]) by {
                    assert(before.roads[p].same_but_lanes(&relaned.roads[p]));
                }
                assert forall|p: int| 0 <= p < self.roads.len() && p != r.0 implies specs_of(
                    (#[trigger] self.roads[p]).lanes@,
                ) == specs_of(relaned.roads[p].lanes@) by {
                    assert(specs_of(before.roads[p].lanes@) == specs_of(relaned.roads[p].lanes@));
                }
                assert forall|p: int| 0 <= p < self.intersections.len() implies (
                #[trigger] self.intersections[p]).same_but_polygon(&relaned.intersections[p]) by {
                    assert(before.intersections[p].same_but_polygon(&relaned.intersections[p]));
                }
                assert forall|p: int|
                    0 <= p < old(self).roads.len() && !old(self).near(r, p) implies self.roads[p]
                    == old(self).roads[p] by {
                    assert(old(self).near(r, all[k as int].0 as int));
                    assert(p != q.0);
                    assert(self.roads[p] == before.roads[p]);
                }
                assert(all.take(k + 1) =~= all.take(k as int).push(q));
                crate::id_set::lemma_push_contains(all.take(k as int), q);
                assert(all.take(k + 1).to_set() =~= all.take(k as int).to_set().insert(q));
                assert(effects.changed_roads@ =~= old(effects).changed_roads@.union(
                    all.take(k + 1).to_set(),
                ));
                assert forall|p: int| 0 <= p < self.roads.len() implies (
                #[trigger] self.roads[p]).lanes.len() == before.roads[p].lanes.len() by {
                    if p == q.0 {
                        assert(specs_of(self.roads[p].lanes@).len() == self.roads[p].lanes.len());
                        assert(specs_of(before.roads[p].lanes@).len()
                            == before.roads[p].lanes.len());
                    }
                }
                assert(effects.modified_lanes@ =~= old(effects).modified_lanes@.union(
                    lanes_of(self.roads@, all.take(k + 1).to_set()),
                )) by {
                    assert forall|l: LaneID|
                        lanes_of(self.roads@, all.take(k + 1).to_set()).contains(l) <==> (lanes_of(
                            before.roads@,
                            all.take(k as int).to_set(),
                        ).contains(l) || lanes_upto(q, m as int).contains(l)) by {
                        if l.road.0 < self.roads.len() {
                            assert(self.roads[l.road.0 as int].lanes.len()
                                == before.roads[l.road.0 as int].lanes.len());
                        }
                    }
                }
            }
            k = k + 1;
        }
        effects.modified_lanes.extend(&effects.deleted_lanes);
        proof {
            assert(all.take(k as int) =~= all);
            assert forall|q: int| 0 <= q < self.roads.len() implies (
            #[trigger] self.roads[q]).same_but_lanes(&old(self).roads[q]) by {
                assert(self.roads[q].same_but_lanes(&relaned.roads[q]));
                assert(shaped.roads[q].same_but_center(&old(self).roads[q]));
            }
            assert forall|q: int| 0 <= q < self.roads.len() && q != r.0 implies specs_of(
                (#[trigger] self.roads[q]).lanes@,
            ) == specs_of(old(self).roads[q].lanes@) by {
                assert(specs_of(self.roads[q].lanes@) == specs_of(relaned.roads[q].lanes@));
                assert(shaped.roads[q].same_but_center(&old(self).roads[q]));
            }
            assert forall|j: int| 0 <= j < self.intersections.len() implies (
            #[trigger] self.intersections[j]).same_but_polygon(&old(self).intersections[j]) by {
                assert(self.intersections[j].same_but_polygon(&relaned.intersections[j]));
                if j == dst_i.0 {
                } else {
                    assert(shaped.intersections[j] == first.intersections[j]);
                }
                if j == src_i.0 {
                } else {
                    assert(first.intersections[j] == old(self).intersections[j]);
                }
            }
            assert(shaped.roads[r.0 as int].same_but_center(&old(self).roads[r.0 as int]));
        }
        Ok(())
    }
}

/// Those of the first `n` of the given lanes that leave intersection `i`, if
/// `outgoing`, or else those that do not.
pub open spec fn lanes_by_side(
    lanes: Seq<crate::lane::Lane>,
    i: IntersectionID,
    outgoing: bool,
    n: int,
) -> Seq<
    LaneID,
>
    decreases n,
{
    if n <= 0 {
        Seq::empty()
    } else if (lanes[n - 1].src_i == i) == outgoing {
        lanes_by_side(lanes, i, outgoing, n - 1).push(lanes[n - 1].id)
    } else {
        lanes_by_side(lanes, i, outgoing, n - 1)
    }
}

/// The lanes of the first `n` of the roads `at` intersection `i` that leave
/// it, if `outgoing`, or else those that lead into it, road by road.
pub open spec fn lane_list(
    roads: Seq<Road>,
    at: Seq<RoadID>,
    i: IntersectionID,
    outgoing: bool,
    n: int,
) -> Seq<
    LaneID,
>
    decreases n,
{
    if n <= 0 {
        Seq::empty()
    } else {
        lane_list(roads, at, i, outgoing, n - 1) + lanes_by_side(
            roads[at[n - 1].0 as int].lanes@,
            i,
            outgoing,
            roads[at[n - 1].0 as int].lanes.len() as int,
        )
    }
}

/// An intersection does not list a road that does not end there.
pub proof fn lemma_far_not_listed(map: &StreetMap, i: IntersectionID, q: int)
    requires
        map.has_intersection(i),
        map.intersection_ok(i.0 as int),
        !crate::map::road_touches(map.roads@, RoadID(q as usize), i),
        0 <= q <= usize::MAX,
    ensures
        !map.intersections[i.0 as int].roads@.contains(RoadID(q as usize)),
{
    let at = map.intersections[i.0 as int].roads@;
    if at.contains(RoadID(q as usize)) {
        let k = choose|k: int| 0 <= k < at.len() && at[k] == RoadID(q as usize);
        assert(map.touches(map.intersections[i.0 as int].roads[k], map.intersections[i.0 as int].id));
    }
}

impl StreetMap {
    /// Lists anew the lanes that lead into intersection `i` and those that
    /// leave it, from the lanes that the roads there have now.
    pub fn rebuild_lane_lists(&mut self, i: IntersectionID)
        requires
            old(self).has_intersection(i),
            old(self).intersection_ok(i.0 as int),
        ensures
            final(self).intersections[i.0 as int].outgoing_lanes@ == lane_list(
                old(self).roads@,
                old(self).intersections[i.0 as int].roads@,
                i,
                true,
                old(self).intersections[i.0 as int].roads.len() as int,
            ),
            final(self).intersections[i.0 as int].incoming_lanes@ == lane_list(
                old(self).roads@,
                old(self).intersections[i.0 as int].roads@,
                i,
                false,
                old(self).intersections[i.0 as int].roads.len() as int,
            ),
            final(self).roads == old(self).roads,
            final(self).city == old(self).city,
            final(self).buildings == old(self).buildings,
            final(self).parking_lots == old(self).parking_lots,
            final(self).transit_stops == old(self).transit_stops,
            final(self).transit_routes == old(self).transit_routes,
            final(self).zones == old(self).zones,
            final(self).edits == old(self).edits,
            final(self).edits_generation == old(self).edits_generation,
            final(self).pathfinder_dirty == old(self).pathfinder_dirty,
            final(self).intersections.len() == old(self).intersections.len(),
            forall|j: int|
                0 <= j < final(self).intersections.len() && j != i.0
                    ==> final(self).intersections[j] == old(self).intersections[j],
            final(self).intersections[i.0 as int].same_but_polygon_and_lists(
                &old(self).intersections[i.0 as int],
            ),
            final(self).intersections[i.0 as int].polygon
                == old(self).intersections[i.0 as int].polygon,
    {
        let mut outgoing: Vec<LaneID> = Vec::new();
        let mut incoming: Vec<LaneID> = Vec::new();
        let n = self.intersections[i.0].roads.len();
        let mut k: usize = 0;
        while k < n
            invariant
                k <= n,
                *self == *old(self),
                self.has_intersection(i),
                self.intersection_ok(i.0 as int),
                n == self.intersections[i.0 as int].roads.len(),
                outgoing@ == lane_list(
                    self.roads@,
                    self.intersections[i.0 as int].roads@,
                    i,
                    true,
                    k as int,
                ),
                incoming@ == lane_list(
                    self.roads@,
                    self.intersections[i.0 as int].roads@,
                    i,
                    false,
                    k as int,
                ),
            decreases n - k,
        {
            let r = self.intersections[i.0].roads[k];
            assert(self.touches(self.intersections[i.0 as int].roads[k as int], i));
            let lanes = &self.roads[r.0].lanes;
            let ghost out_before = outgoing@;
            let ghost in_before = incoming@;
            let mut j: usize = 0;
            while j < lanes.len()
                invariant
                    j <= lanes.len(),
                    outgoing@ == out_before + lanes_by_side(lanes@, i, true, j as int),
                    incoming@ == in_before + lanes_by_side(lanes@, i, false, j as int),
                decreases lanes.len() - j,
            {
                if lanes[j].src_i == i {
                    outgoing.push(lanes[j].id);
                } else {
                    incoming.push(lanes[j].id);
                }
                proof {
                    assert(outgoing@ =~= out_before + lanes_by_side(lanes@, i, true, j + 1));
                    assert(incoming@ =~= in_before + lanes_by_side(lanes@, i, false, j + 1));
                }
                j = j + 1;
            }
            k = k + 1;
        }
        self.intersections[i.0].outgoing_lanes = outgoing;
        self.intersections[i.0].incoming_lanes = incoming;
    }
}

/// Shaping an intersection anew keeps the map sound.
pub proof fn lemma_shape_keeps_base(before: &StreetMap, after: &StreetMap, i: IntersectionID)
    requires
        before.base_ok(),
        before.has_intersection(i),
        after.same_but_shape_at(before, i),
    ensures
        after.base_ok(),
        forall|j: int|
            0 <= j < before.intersections.len() && before.turns_ok(j) ==> #[trigger] after.turns_ok(
                j,
            ),
{
    assert forall|q: int| 0 <= q < after.roads.len() implies #[trigger] after.road_ok(q) by {
        assert(before.road_ok(q));
        assert(after.roads[q].same_but_center(&before.roads[q]));
    }
    assert forall|j: int| 0 <= j < after.intersections.len() implies #[trigger]
        after.intersection_ok(j) by {
        assert(before.intersection_ok(j));
        let x = after.intersections[j];
        assert forall|k: int| 0 <= k < x.roads.len() implies after.touches(
            #[trigger] x.roads[k],
            x.id,
        ) by {
            assert(before.touches(before.intersections[j].roads[k], x.id));
            assert(after.roads[x.roads[k].0 as int].same_but_center(
                &before.roads[x.roads[k].0 as int],
            ));
        }
    }
    assert(after.has_targets(after.edits.commands@)) by {
        assert forall|c: int| 0 <= c < after.edits.commands@.len() implies after.has_target(
            #[trigger] after.edits.commands@[c],
        ) by {
            assert(before.has_target(before.edits.commands@[c]));
        }
    }
    assert forall|j: int|
        0 <= j < before.intersections.len() && before.turns_ok(j) implies #[trigger] after.turns_ok(
        j,
    ) by {
        let x = after.intersections[j];
        assert(before.intersection_ok(j));
        assert forall|k: int| 0 <= k < before.intersections[j].roads.len() implies crate::policy::same_for_signs(
            before.roads[(#[trigger] before.intersections[j].roads[k]).0 as int],
            after.roads[before.intersections[j].roads[k].0 as int],
        ) by {
            let q = before.intersections[j].roads[k];
            assert(before.touches(q, before.intersections[j].id));
            assert(after.roads[q.0 as int].same_but_center(&before.roads[q.0 as int]));
        }
        before.lemma_signs_stay(after, j);
        assert forall|k: int| 0 <= k < x.turns.len() implies after.turn_ok(
            #[trigger] x.turns[k],
            x.id,
        ) by {
            let t = x.turns[k];
            assert(before.turn_ok(before.intersections[j].turns[k], x.id));
            assert(after.roads[t.id.src.road.0 as int].same_but_center(
                &before.roads[t.id.src.road.0 as int],
            ));
            assert(after.roads[t.id.dst.road.0 as int].same_but_center(
                &before.roads[t.id.dst.road.0 as int],
            ));
        }
    }
}

/// Each of the other roads is one of the roads.
pub proof fn lemma_others_exist(at: Seq<RoadID>, changed: RoadID, n: int)
    requires
        0 <= n <= at.len(),
    ensures
        forall|j: int|
            0 <= j < others(at, changed, n).len() ==> (#[trigger] others(at, changed, n)[j])
                != changed && exists|w: int| 0 <= w < n && at[w] == others(at, changed, n)[j],
    decreases n,
{
    if n > 0 {
        lemma_others_exist(at, changed, n - 1);
        let before = others(at, changed, n - 1);
        assert forall|j: int| 0 <= j < others(at, changed, n).len() implies (#[trigger] others(
            at,
            changed,
            n,
        )[j]) != changed && exists|w: int| 0 <= w < n && at[w] == others(at, changed, n)[j] by {
            if j < before.len() {
                let w = choose|w: int| 0 <= w < n - 1 && at[w] == before[j];
                assert(at[w] == others(at, changed, n)[j]);
            } else {
                assert(at[n - 1] == others(at, changed, n)[j]);
            }
        }
    }
}

} // verus!
