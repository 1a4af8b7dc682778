//! Roads.

use vstd::prelude::*;
use crate::edits::{EditRoad, EditRoadView};
use crate::geometry::PolyLine;
use crate::ids::{Direction, IntersectionID, LaneID, RoadID, TransitStopID};
use crate::lane::{lemma_total_width_bound, total_width, Lane, LaneSpec, PathConstraints};
use crate::services::Geometry;
use crate::units::{RoadWidth, Speed};

verus! {

/// Who may drive through a road without stopping there, and how many.
#[derive(Clone, Copy, Debug, PartialEq, Eq, Hash)]
pub struct AccessRestrictions {
    pub allow_cars: bool,
    pub allow_bikes: bool,
    pub allow_buses: bool,
    pub allow_pedestrians: bool,
    /// At most this many vehicles per hour may pass through.
    pub cap_vehicles_per_hour: Option<usize>,
}

impl AccessRestrictions {
    /// No restriction at all.
    pub open spec fn unrestricted() -> AccessRestrictions {
        AccessRestrictions {
            allow_cars: true,
            allow_bikes: true,
            allow_buses: true,
            allow_pedestrians: true,
            cap_vehicles_per_hour: None,
        }
    }

    /// No restriction at all.
    pub fn new() -> (r: AccessRestrictions)
        ensures
            r == AccessRestrictions::unrestricted(),
    {
        AccessRestrictions {
            allow_cars: true,
            allow_bikes: true,
            allow_buses: true,
            allow_pedestrians: true,
            cap_vehicles_per_hour: None,
        }
    }

    /// Whether the two are the same.
    pub fn same_as(&self, other: &AccessRestrictions) -> (b: bool)
        ensures
            b == (*self == *other),
    {
        let caps = match (self.cap_vehicles_per_hour, other.cap_vehicles_per_hour) {
            (None, None) => true,
            (Some(a), Some(b)) => a == b,
            _ => false,
        };
        caps && self.allow_cars == other.allow_cars && self.allow_bikes == other.allow_bikes
            && self.allow_buses == other.allow_buses && self.allow_pedestrians
            == other.allow_pedestrians
    }
}

/// A road between two intersections, with its lanes ordered from left to right.
pub struct Road {
    pub id: RoadID,
    pub src_i: IntersectionID,
    pub dst_i: IntersectionID,
    pub lanes: Vec<Lane>,
    pub speed_limit: Speed,
    pub access_restrictions: AccessRestrictions,
    /// The line along the middle of the road, cut back to where the
    /// intersections at its ends begin.
    pub center_pts: PolyLine,
    /// The line along the middle of the road before it was cut back.
    pub untrimmed_center_pts: PolyLine,
    /// How major the road is; a higher rank has priority at stop signs.
    pub rank: usize,
    /// The tags that the road was imported with.
    pub osm_tags: Vec<(String, String)>,
    /// The lanes, speed limit and restrictions that the road was imported with.
    pub orig: EditRoad,
    pub transit_stops: Vec<TransitStopID>,
}

/// The editable descriptions of a sequence of lanes.
pub open spec fn specs_of(lanes: Seq<Lane>) -> Seq<LaneSpec> {
    Seq::new(lanes.len(), |k: int| lanes[k].spec_of())
}

impl Road {
    /// Whether the two roads differ at most in what edits change: lanes, speed
    /// limit, access restrictions and centerline.
    pub open spec fn same_but_state(&self, other: &Road) -> bool {
        &&& self.id == other.id
        &&& self.src_i == other.src_i
        &&& self.dst_i == other.dst_i
        &&& self.untrimmed_center_pts == other.untrimmed_center_pts
        &&& self.rank == other.rank
        &&& self.osm_tags == other.osm_tags
        &&& self.orig == other.orig
        &&& self.transit_stops == other.transit_stops
    }

    /// The current editable state of the road.
    pub open spec fn edit_state(self) -> EditRoadView {
        EditRoadView {
            lanes_ltr: specs_of(self.lanes@),
            speed_limit: self.speed_limit,
            access_restrictions: self.access_restrictions,
        }
    }

    /// The editable descriptions of the lanes, from left to right.
    pub fn lane_specs(&self) -> (specs: Vec<LaneSpec>)
        ensures
            specs@ == specs_of(self.lanes@),
    {
        let mut specs: Vec<LaneSpec> = Vec::new();
        let mut k: usize = 0;
        while k < self.lanes.len()
            invariant
                k <= self.lanes.len(),
                specs@ == specs_of(self.lanes@.take(k as int)),
            decreases self.lanes.len() - k,
        {
            specs.push(self.lanes[k].spec());
            proof {
                assert(specs@ =~= specs_of(self.lanes@.take(k + 1)));
            }
            k = k + 1;
        }
        proof {
            assert(self.lanes@.take(k as int) =~= self.lanes@);
        }
        specs
    }

    /// The lane that a description gives at position `j` of this road: it is
    /// numbered by its position, runs between the ends of the road in its
    /// direction, and starts with no blackhole mark. Its line is not fixed
    /// here.
    pub open spec fn lane_made(self, lane: Lane, spec: LaneSpec, j: int) -> bool {
        &&& lane.id == LaneID { road: self.id, offset: j as usize }
        &&& lane.spec_of() == spec
        &&& lane.src_i == if spec.dir == Direction::Fwd {
            self.src_i
        } else {
            self.dst_i
        }
        &&& lane.dst_i == if spec.dir == Direction::Fwd {
            self.dst_i
        } else {
            self.src_i
        }
        &&& !lane.driving_blackhole
        &&& !lane.biking_blackhole
    }

    /// Replaces the lanes of the road by lanes made from the given
    /// descriptions, from left to right. The line of each lane is asked of
    /// `geom`.
    pub fn recreate_lanes<G: Geometry>(&mut self, lane_specs_ltr: &Vec<LaneSpec>, geom: &G)
        ensures
            final(self).lanes.len() == lane_specs_ltr.len(),
            forall|j: int|
                0 <= j < lane_specs_ltr.len() ==> final(self).lane_made(
                    #[trigger] final(self).lanes[j],
                    lane_specs_ltr[j],
                    j,
                ),
            specs_of(final(self).lanes@) == lane_specs_ltr@,
            final(self).lanes_numbered(),
            final(self).id == old(self).id,
            final(self).src_i == old(self).src_i,
            final(self).dst_i == old(self).dst_i,
            final(self).speed_limit == old(self).speed_limit,
            final(self).access_restrictions == old(self).access_restrictions,
            final(self).center_pts == old(self).center_pts,
            final(self).untrimmed_center_pts == old(self).untrimmed_center_pts,
            final(self).rank == old(self).rank,
            final(self).osm_tags == old(self).osm_tags,
            final(self).orig == old(self).orig,
            final(self).transit_stops == old(self).transit_stops,
    {
        let total = crate::lane::sum_widths(lane_specs_ltr);
        let mut lanes: Vec<Lane> = Vec::new();
        let mut width_so_far: u128 = 0;
        let mut k: usize = 0;
        while k < lane_specs_ltr.len()
            invariant
                k <= lane_specs_ltr.len(),
                lanes.len() == k,
                width_so_far == total_width(lane_specs_ltr@.take(k as int)),
                *self == *old(self),
                forall|j: int|
                    0 <= j < k ==> self.lane_made(#[trigger] lanes[j], lane_specs_ltr[j], j),
            decreases lane_specs_ltr.len() - k,
        {
            let spec = lane_specs_ltr[k];
            proof {
                lemma_total_width_bound(lane_specs_ltr@.take(k as int));
                assert(lane_specs_ltr@.take(k as int).len() * 0xffff_ffff <= 0xffff_ffff_ffff_ffff
                    * 0xffff_ffff) by (nonlinear_arith)
                    requires
                        lane_specs_ltr@.take(k as int).len() <= 0xffff_ffff_ffff_ffff,
                ;
                assert(lane_specs_ltr@.take(k + 1).drop_last() =~= lane_specs_ltr@.take(k as int));
            }
            let half: u128 = (spec.width.0 / 2) as u128;
            let (src_i, dst_i) = if spec.dir == Direction::Fwd {
                (self.src_i, self.dst_i)
            } else {
                (self.dst_i, self.src_i)
            };
            let line = geom.lane_center_line(
                &self.center_pts,
                total,
                RoadWidth(width_so_far + half),
                spec.dir,
            );
            lanes.push(
                Lane {
                    id: LaneID { road: self.id, offset: k },
                    lane_type: spec.lt,
                    dir: spec.dir,
                    width: spec.width,
                    src_i,
                    dst_i,
                    lane_center_pts: line,
                    driving_blackhole: false,
                    biking_blackhole: false,
                },
            );
            width_so_far = width_so_far + spec.width.0 as u128;
            k = k + 1;
        }
        self.lanes = lanes;
        proof {
            assert(specs_of(self.lanes@) =~= lane_specs_ltr@);
        }
    }

    /// Whether the lanes are numbered by their position in this road.
    pub open spec fn lanes_numbered(self) -> bool {
        forall|j: int|
            0 <= j < self.lanes.len() ==> (#[trigger] self.lanes[j]).id == (LaneID {
                road: self.id,
                offset: j as usize,
            })
    }

    /// Whether any restriction applies to this road.
    pub open spec fn spec_is_private(self) -> bool {
        self.access_restrictions != AccessRestrictions::unrestricted()
    }

    /// Whether any restriction applies to this road.
    pub fn is_private(&self) -> (b: bool)
        ensures
            b == self.spec_is_private(),
    {
        !self.access_restrictions.same_as(&AccessRestrictions::new())
    }

    /// The distance between two lane positions, counted in lanes.
    pub open spec fn lane_gap(a: int, b: int) -> int {
        if a <= b {
            b - a
        } else {
            a - b
        }
    }

    /// Whether lane `k` is another lane than `from` and open to `who`.
    pub open spec fn candidate(self, from: LaneID, who: PathConstraints, k: int) -> bool {
        0 <= k < self.lanes.len() && k != from.offset && who.spec_can_use(self.lanes[k].lane_type)
    }

    /// Whether `k` is the lane that [`Road::find_closest_lane`] picks: a
    /// candidate that no other candidate is closer than, the leftmost of such.
    pub open spec fn is_closest(self, from: LaneID, who: PathConstraints, k: int) -> bool {
        &&& self.candidate(from, who, k)
        &&& forall|j: int| #[trigger]
            self.candidate(from, who, j) ==> Self::lane_gap(from.offset as int, k)
                <= Self::lane_gap(from.offset as int, j)
        &&& forall|j: int|
            0 <= j < k && #[trigger] self.candidate(from, who, j) ==> Self::lane_gap(
                from.offset as int,
                k,
            ) < Self::lane_gap(from.offset as int, j)
    }

    /// The lane of this road open to `who` that is nearest to the lane `from`,
    /// not counting `from` itself. Of two lanes at the same distance, the left
    /// one is taken.
    pub fn find_closest_lane(&self, from: LaneID, who: PathConstraints) -> (r: Option<LaneID>)
        ensures
            match r {
                Some(l) => l.road == self.id && self.is_closest(from, who, l.offset as int),
                None => forall|j: int| !#[trigger] self.candidate(from, who, j),
            },
    {
        let mut best: Option<usize> = None;
        let mut k: usize = 0;
        while k < self.lanes.len()
            invariant
                k <= self.lanes.len(),
                match best {
                    Some(b) => {
                        &&& b < k
                        &&& self.candidate(from, who, b as int)
                        &&& forall|j: int|
                            0 <= j < k && #[trigger] self.candidate(from, who, j)
                                ==> Self::lane_gap(
                                from.offset as int,
                                b as int,
                            ) <= Self::lane_gap(from.offset as int, j)
                        &&& forall|j: int|
                            0 <= j < b && #[trigger] self.candidate(from, who, j)
                                ==> Self::lane_gap(
                                from.offset as int,
                                b as int,
                            ) < Self::lane_gap(from.offset as int, j)
                    },
                    None => forall|j: int| 0 <= j < k ==> !#[trigger] self.candidate(from, who, j),
                },
            decreases self.lanes.len() - k,
        {
            if k != from.offset && who.can_use(self.lanes[k].lane_type) {
                let gap = if k <= from.offset {
                    from.offset - k
                } else {
                    k - from.offset
                };
                match best {
                    None => {
                        best = Some(k);
                    },
                    Some(b) => {
                        let best_gap = if b <= from.offset {
                            from.offset - b
                        } else {
                            b - from.offset
                        };
                        if gap < best_gap {
                            best = Some(k);
                        }
                    },
                }
            }
            k = k + 1;
        }
        match best {
            Some(b) => Some(LaneID { road: self.id, offset: b }),
            None => None,
        }
    }
}

} // verus!
