//! Keeping the shapes of intersections and the centerlines of roads in step
//! with the widths of the roads.

use vstd::prelude::*;
use crate::edits::ApplyError;
use crate::geometry::PolyLine;
use crate::ids::{IntersectionID, RoadID};
use crate::lane::{sum_widths, total_width};
use crate::map::StreetMap;
use crate::road::{specs_of, Road};
use crate::services::{Geometry, InputRoad, IntersectionGeometry, RoadEnd};
use crate::units::RoadWidth;

verus! {

/// The end of the road that lies at intersection `i`, where its centerline is
/// lengthened before the intersection is shaped anew: the start of a road
/// that starts there, and the end of any other.
pub fn end_at(road: &Road, i: IntersectionID) -> (end: RoadEnd)
    ensures
        end == (if road.src_i == i {
            RoadEnd::Src
        } else {
            RoadEnd::Dst
        }),
{
    if road.src_i == i {
        RoadEnd::Src
    } else {
        RoadEnd::Dst
    }
}

/// The centerline that is handed on for a road: the lengthened line `answer`
/// where there is one, and else the centerline as it is, cut back.
pub fn lengthened_or_kept(center_pts: &PolyLine, answer: Option<PolyLine>) -> (pl: PolyLine)
    ensures
        pl@ == (match answer {
            Some(line) => line@,
            None => center_pts@,
        }),
{
    match answer {
        Some(line) => line,
        None => center_pts.clone(),
    }
}


/// A fresh copy of some tags.
pub fn copy_tags(tags: &Vec<(String, String)>) -> (r: Vec<(String, String)>)
    ensures
        r@ == tags@,
{
    let mut r: Vec<(String, String)> = Vec::new();
    let mut k: usize = 0;
    while k < tags.len()
        invariant
            k <= tags.len(),
            r@ == tags@.take(k as int),
        decreases tags.len() - k,
    {
        r.push((tags[k].0.clone(), tags[k].1.clone()));
        proof {
            assert(r@ =~= tags@.take(k + 1));
        }
        k = k + 1;
    }
    proof {
        assert(tags@.take(k as int) =~= tags@);
    }
    r
}

impl Road {
    /// Half of the width of the road as its lanes stand now.
    pub fn get_half_width(&self) -> (w: RoadWidth)
        ensures
            w.0 == total_width(specs_of(self.lanes@)) / 2,
    {
        let specs = self.lane_specs();
        sum_widths(&specs).half()
    }

    /// Whether the two roads differ at most in their centerline.
    pub open spec fn same_but_center(&self, other: &Road) -> bool {
        &&& self.id == other.id
        &&& self.src_i == other.src_i
        &&& self.dst_i == other.dst_i
        &&& self.lanes == other.lanes
        &&& self.speed_limit == other.speed_limit
        &&& self.access_restrictions == other.access_restrictions
        &&& self.untrimmed_center_pts == other.untrimmed_center_pts
        &&& self.rank == other.rank
        &&& self.osm_tags == other.osm_tags
        &&& self.orig == other.orig
        &&& self.transit_stops == other.transit_stops
    }
}

/// Those of the first `n` of the given roads that are not `changed`.
pub open spec fn others(at: Seq<RoadID>, changed: RoadID, n: int) -> Seq<RoadID>
    decreases n,
{
    if n <= 0 {
        Seq::empty()
    } else if at[n - 1] != changed {
        others(at, changed, n - 1).push(at[n - 1])
    } else {
        others(at, changed, n - 1)
    }
}

/// Whether one of the centerlines is for road `r`.
pub open spec fn names_road(lines: Seq<(RoadID, PolyLine)>, r: RoadID) -> bool {
    exists|j: int| 0 <= j < lines.len() && (#[trigger] lines[j]).0 == r
}

/// Whether an answer of the geometry gives one centerline for each of the
/// given roads, in whatever order: every centerline is for one of the roads,
/// no road has two, and every road has one.
pub open spec fn shape_covers(shape: &IntersectionGeometry, at: Seq<RoadID>) -> bool {
    let lines = shape.trimmed_center_pts@;
    &&& forall|k: int| 0 <= k < lines.len() ==> at.contains((#[trigger] lines[k]).0)
    &&& forall|a: int, b: int|
        0 <= a < b < lines.len() ==> (#[trigger] lines[a]).0 != (#[trigger] lines[b]).0
    &&& forall|k: int| 0 <= k < at.len() ==> names_road(lines, #[trigger] at[k])
}

/// The position of the first centerline for road `r`, if there is one.
pub fn find_line(lines: &Vec<(RoadID, PolyLine)>, r: RoadID) -> (res: Option<usize>)
    ensures
        match res {
            Some(j) => j < lines.len() && lines[j as int].0 == r && forall|x: int|
                0 <= x < j ==> (#[trigger] lines[x]).0 != r,
            None => !names_road(lines@, r),
        },
{
    let mut j: usize = 0;
    while j < lines.len()
        invariant
            j <= lines.len(),
            forall|x: int| 0 <= x < j ==> (#[trigger] lines[x]).0 != r,
        decreases lines.len() - j,
    {
        if lines[j].0 == r {
            return Some(j);
        }
        j = j + 1;
    }
    None
}

impl StreetMap {
    /// Whether the two maps differ at most in the shape of intersection `i`
    /// and in the centerlines of the roads that meet there.
    pub open spec fn same_but_shape_at(&self, other: &StreetMap, i: IntersectionID) -> bool {
        &&& self.city == other.city
        &&& self.buildings == other.buildings
        &&& self.parking_lots == other.parking_lots
        &&& self.transit_stops == other.transit_stops
        &&& self.transit_routes == other.transit_routes
        &&& self.zones == other.zones
        &&& self.edits == other.edits
        &&& self.edits_generation == other.edits_generation
        &&& self.pathfinder_dirty == other.pathfinder_dirty
        &&& self.roads.len() == other.roads.len()
        &&& forall|r: int|
            0 <= r < self.roads.len() ==> (#[trigger] self.roads[r]).same_but_center(
                &other.roads[r],
            )
        &&& forall|r: int|
            0 <= r < self.roads.len() && !other.intersections[i.0 as int].roads@.contains(
                RoadID(r as usize),
            ) ==> (#[trigger] self.roads[r]) == other.roads[r]
        &&& self.intersections.len() == other.intersections.len()
        &&& forall|j: int|
            0 <= j < self.intersections.len() && j != i.0 ==> self.intersections[j]
                == other.intersections[j]
        &&& self.intersections[i.0 as int].id == other.intersections[i.0 as int].id
        &&& self.intersections[i.0 as int].control == other.intersections[i.0 as int].control
        &&& self.intersections[i.0 as int].roads == other.intersections[i.0 as int].roads
        &&& self.intersections[i.0 as int].incoming_lanes
            == other.intersections[i.0 as int].incoming_lanes
        &&& self.intersections[i.0 as int].outgoing_lanes
            == other.intersections[i.0 as int].outgoing_lanes
        &&& self.intersections[i.0 as int].turns == other.intersections[i.0 as int].turns
        &&& self.intersections[i.0 as int].movements == other.intersections[i.0 as int].movements
    }

    /// What is handed to the geometry to shape intersection `i` anew: for each
    /// road that meets there, its name, its half width and its tags, and its
    /// centerline lengthened into the intersection again where the geometry
    /// can do that: at the end that [`end_at`] gives, and with what
    /// [`lengthened_or_kept`] makes of the answer. The road `changed_road` is
    /// taken with half of `changed_road_width`, every other road with half of
    /// the width that its lanes have now.
    pub fn polygon_inputs<G: Geometry>(
        &self,
        changed_road: RoadID,
        changed_road_width: RoadWidth,
        i: IntersectionID,
        geom: &G,
    ) -> (inputs: Vec<InputRoad>)
        requires
            self.has_intersection(i),
            self.intersection_ok(i.0 as int),
        ensures
            inputs.len() == self.intersections[i.0 as int].roads.len(),
            forall|k: int|
                0 <= k < inputs.len() ==> {
                    let r = self.intersections[i.0 as int].roads[k];
                    &&& (#[trigger] inputs[k]).id == r
                    &&& inputs[k].osm_tags@ == self.roads[r.0 as int].osm_tags@
                    &&& inputs[k].half_width.0 == if r == changed_road {
                        (changed_road_width.0 / 2) as nat
                    } else {
                        total_width(specs_of(self.roads[r.0 as int].lanes@)) / 2
                    }
                },
    {
        let at = &self.intersections[i.0].roads;
        let mut inputs: Vec<InputRoad> = Vec::new();
        let mut k: usize = 0;
        while k < at.len()
            invariant
                k <= at.len(),
                self.has_intersection(i),
                self.intersection_ok(i.0 as int),
                at == &self.intersections[i.0 as int].roads,
                inputs.len() == k,
                forall|j: int|
                    0 <= j < k ==> {
                        let r = at[j];
                        &&& (#[trigger] inputs[j]).id == r
                        &&& inputs[j].osm_tags@ == self.roads[r.0 as int].osm_tags@
                        &&& inputs[j].half_width.0 == if r == changed_road {
                            (changed_road_width.0 / 2) as nat
                        } else {
                            total_width(specs_of(self.roads[r.0 as int].lanes@)) / 2
                        }
                    },
            decreases at.len() - k,
        {
            let id = at[k];
            assert(self.touches(at[k as int], i));
            let road = &self.roads[id.0];
            let half_width = if id == changed_road {
                changed_road_width.half()
            } else {
                road.get_half_width()
            };
            let end = end_at(road, i);
            let center_pts = lengthened_or_kept(
                &road.center_pts,
                geom.untrim(&road.center_pts, &road.untrimmed_center_pts, end),
            );
            inputs.push(
                InputRoad { id, center_pts, half_width, osm_tags: copy_tags(&road.osm_tags) },
            );
            k = k + 1;
        }
        inputs
    }

    /// Stores the shape that the geometry gave for intersection `i`: the
    /// outline of the intersection, and for each road that meets there its
    /// centerline cut back to that outline, whatever the order in which the
    /// centerlines come. Gives the roads whose centerline changed by this,
    /// not counting `changed_road`, in the order in which the intersection
    /// lists them. A shape that does not give one centerline for each of the
    /// roads is refused, and nothing changes: see [`shape_covers`].
    pub fn install_intersection_geometry(
        &mut self,
        i: IntersectionID,
        changed_road: RoadID,
        shape: IntersectionGeometry,
    ) -> (r: Result<Vec<RoadID>, ApplyError>)
        requires
            old(self).has_intersection(i),
            old(self).intersection_ok(i.0 as int),
        ensures
            r.is_ok() == shape_covers(&shape, old(self).intersections[i.0 as int].roads@),
            match r {
                Ok(affected) => {
                    &&& final(self).same_but_shape_at(old(self), i)
                    &&& final(self).intersections[i.0 as int].polygon@ == shape.polygon@
                    &&& forall|k: int|
                        0 <= k < shape.trimmed_center_pts.len() ==> final(self).roads[(
                        #[trigger] shape.trimmed_center_pts[k]).0.0 as int].center_pts@
                            == shape.trimmed_center_pts[k].1@
                    &&& affected@ == others(
                        old(self).intersections[i.0 as int].roads@,
                        changed_road,
                        old(self).intersections[i.0 as int].roads.len() as int,
                    )
                },
                Err(e) => e == ApplyError::NoIntersectionShape(i) && *final(self) == *old(self),
            },
    {
        let ghost at = old(self).intersections[i.0 as int].roads@;
        let ghost lines = shape.trimmed_center_pts@;
        let n = self.intersections[i.0].roads.len();
        // Every centerline is for a road that meets here, and for one only.
        let mut k: usize = 0;
        while k < shape.trimmed_center_pts.len()
            invariant
                k <= shape.trimmed_center_pts.len(),
                *self == *old(self),
                self.has_intersection(i),
                at == self.intersections[i.0 as int].roads@,
                lines == shape.trimmed_center_pts@,
                forall|j: int| 0 <= j < k ==> at.contains((#[trigger] lines[j]).0),
                forall|a: int, b: int|
                    0 <= a < b < k ==> (#[trigger] lines[a]).0 != (#[trigger] lines[b]).0,
            decreases shape.trimmed_center_pts.len() - k,
        {
            let id = shape.trimmed_center_pts[k].0;
            if !crate::vecs::vec_contains(&self.intersections[i.0].roads, id) {
                proof {
                    assert(!at.contains(lines[k as int].0));
                }
                return Err(ApplyError::NoIntersectionShape(i));
            }
            match find_line(&shape.trimmed_center_pts, id) {
                Some(first) => {
                    if first != k {
                        proof {
                            assert(lines[first as int].0 == lines[k as int].0);
                        }
                        return Err(ApplyError::NoIntersectionShape(i));
                    }
                },
                None => {
                    proof {
                        assert(lines[k as int].0 == id);
                        assert(false);
                    }
                },
            }
            k = k + 1;
        }
        // Every road that meets here has a centerline.
        let mut k: usize = 0;
        while k < n
            invariant
                k <= n,
                *self == *old(self),
                self.has_intersection(i),
                n == at.len(),
                at == self.intersections[i.0 as int].roads@,
                lines == shape.trimmed_center_pts@,
                forall|j: int| 0 <= j < k ==> names_road(lines, #[trigger] at[j]),
            decreases n - k,
        {
            if find_line(&shape.trimmed_center_pts, self.intersections[i.0].roads[k]).is_none() {
                proof {
                    assert(!names_road(lines, at[k as int]));
                }
                return Err(ApplyError::NoIntersectionShape(i));
            }
            k = k + 1;
        }
        self.intersections[i.0].polygon = shape.polygon.clone();
        let mut affected: Vec<RoadID> = Vec::new();
        let mut k: usize = 0;
        while k < n
            invariant
                k <= n,
                self.has_intersection(i),
                old(self).intersection_ok(i.0 as int),
                n == at.len(),
                at == self.intersections[i.0 as int].roads@,
                at == old(self).intersections[i.0 as int].roads@,
                lines == shape.trimmed_center_pts@,
                shape_covers(&shape, at),
                self.same_but_shape_at(old(self), i),
                self.intersections[i.0 as int].polygon@ == shape.polygon@,
                forall|x: int, j: int|
                    0 <= x < k && 0 <= j < lines.len() && (#[trigger] lines[j]).0 == #[trigger] at[x]
                        ==> self.roads[at[x].0 as int].center_pts@ == lines[j].1@,
                affected@ == others(at, changed_road, k as int),
            decreases n - k,
        {
            let id = self.intersections[i.0].roads[k];
            assert(old(self).touches(at[k as int], i));
            let ghost before = *self;
            match find_line(&shape.trimmed_center_pts, id) {
                Some(j) => {
                    self.roads[id.0].center_pts = shape.trimmed_center_pts[j].1.clone();
                    proof {
                        assert forall|x: int, w: int|
                            0 <= x < k + 1 && 0 <= w < lines.len() && (#[trigger] lines[w]).0
                                == #[trigger] at[x] implies self.roads[at[x].0 as int].center_pts@
                            == lines[w].1@ by {
                            if x < k {
                                assert(at[x] != at[k as int]);
                                assert(before.roads[at[x].0 as int].center_pts@ == lines[w].1@);
                            } else {
                                if w < j {
                                    assert(lines[w].0 != lines[j as int].0);
                                } else if j < w {
                                    assert(lines[j as int].0 != lines[w].0);
                                }
                            }
                        }
                    }
                },
                None => {
                    proof {
                        assert(names_road(lines, at[k as int]));
                        assert(false);
                    }
                },
            }
            if id != changed_road {
                affected.push(id);
            }
            proof {
                assert forall|r: int| 0 <= r < self.roads.len() implies (
                #[trigger] self.roads[r]).same_but_center(&old(self).roads[r]) by {
                    assert(before.roads[r].same_but_center(&old(self).roads[r]));
                }
                assert forall|r: int|
                    0 <= r < self.roads.len() && !at.contains(RoadID(r as usize)) implies (
                #[trigger] self.roads[r]) == old(self).roads[r] by {
                    assert(before.roads[r] == old(self).roads[r]);
                    assert(at.contains(at[k as int]));
                }
            }
            k = k + 1;
        }
        proof {
            assert forall|j: int| 0 <= j < lines.len() implies self.roads[(
            #[trigger] lines[j]).0.0 as int].center_pts@ == lines[j].1@ by {
                assert(at.contains(lines[j].0));
                let x = choose|x: int| 0 <= x < at.len() && at[x] == lines[j].0;
                assert(lines[j].0 == at[x]);
            }
        }
        Ok(affected)
    }

    /// Shapes intersection `i` anew for a road whose width changes: asks the
    /// geometry for a shape and stores it. Gives the other roads whose
    /// centerline changed by this.
    pub fn recalculate_intersection_polygon<G: Geometry>(
        &mut self,
        changed_road: RoadID,
        changed_road_width: RoadWidth,
        i: IntersectionID,
        geom: &G,
    ) -> (r: Result<Vec<RoadID>, ApplyError>)
        requires
            old(self).has_intersection(i),
            old(self).intersection_ok(i.0 as int),
        ensures
            match r {
                Ok(affected) => {
                    &&& final(self).same_but_shape_at(old(self), i)
                    &&& affected@ == others(
                        old(self).intersections[i.0 as int].roads@,
                        changed_road,
                        old(self).intersections[i.0 as int].roads.len() as int,
                    )
                },
                Err(e) => e == ApplyError::NoIntersectionShape(i) && *final(self) == *old(self),
            },
    {
        let inputs = self.polygon_inputs(changed_road, changed_road_width, i, geom);
        match geom.intersection_polygon(i, &inputs) {
            Some(shape) => self.install_intersection_geometry(i, changed_road, shape),
            None => Err(ApplyError::NoIntersectionShape(i)),
        }
    }
}

} // verus!
