//! The shape of a block: the polygon that its perimeter encloses.

use vstd::prelude::*;
use crate::block::{Block, Perimeter};
use crate::geometry::{PolyLine, Pt2D};
use crate::ids::{Direction, IntersectionID, LaneID, RoadID, RoadSideID, SideOfRoad};
use crate::lane::Lane;
use crate::map::StreetMap;
use crate::services::Geometry;

verus! {

/// Why a perimeter has no shape.
#[derive(Clone, Copy, Debug, PartialEq, Eq, Structural)]
pub enum BlockError {
    /// The perimeter names a road that the map does not have, or one without
    /// lanes, or an end of a road that the map does not have.
    UnknownRoad(RoadID),
    /// Two sides that follow each other have the same outermost lane.
    DuplicateAdjacentRoads(LaneID),
    /// The geometry gave no edge for a road.
    NoEdge(RoadID),
    /// The points along the perimeter do not form an outline.
    NotARing,
}

/// The square of the distance between two points.
pub open spec fn dist_squared(a: Pt2D, b: Pt2D) -> int {
    (a.x - b.x) * (a.x - b.x) + (a.y - b.y) * (a.y - b.y)
}

/// Computes the square of the distance between two points.
pub fn distance_squared(a: Pt2D, b: Pt2D) -> (d: i128)
    ensures
        d == dist_squared(a, b),
{
    let dx: i128 = (a.x as i128) - (b.x as i128);
    let dy: i128 = (a.y as i128) - (b.y as i128);
    assert(-0x1_0000_0000 < dx < 0x1_0000_0000);
    assert(-0x1_0000_0000 < dy < 0x1_0000_0000);
    assert(0 <= dx * dx <= 0x1_0000_0000 * 0x1_0000_0000) by (nonlinear_arith)
        requires
            -0x1_0000_0000 < dx < 0x1_0000_0000,
    ;
    assert(0 <= dy * dy <= 0x1_0000_0000 * 0x1_0000_0000) by (nonlinear_arith)
        requires
            -0x1_0000_0000 < dy < 0x1_0000_0000,
    ;
    dx * dx + dy * dy
}

/// The intersection that two lanes have in common, if they have exactly one
/// in common.
pub open spec fn common_end(a: Lane, b: Lane) -> Option<IntersectionID> {
    let at_src = a.src_i == b.src_i || a.src_i == b.dst_i;
    let at_dst = a.dst_i == b.src_i || a.dst_i == b.dst_i;
    if at_src && !at_dst {
        Some(a.src_i)
    } else if at_dst && !at_src {
        Some(a.dst_i)
    } else {
        None
    }
}

/// Whether the edge of a road is followed in the direction of its outermost
/// lane `lane1` on the way to the lane `lane2` of the next side. If both
/// sides are of one road, the perimeter turns round at a dead end, and the
/// direction of the lane is kept. Otherwise it is kept if the lanes meet
/// where `lane1` ends. If the lanes do not have exactly one end in common,
/// the end of the edge that is nearer to the last point `last` so far decides:
/// `first_pt` is where the edge begins in the direction of the lane, and
/// `last_pt` where it ends.
pub open spec fn keeps_orientation(
    lane1: Lane,
    lane2: Lane,
    same_road: bool,
    last: Option<Pt2D>,
    first_pt: Pt2D,
    last_pt: Pt2D,
) -> bool {
    if same_road {
        true
    } else {
        match common_end(lane1, lane2) {
            Some(i) => i == lane1.dst_i,
            None => match last {
                Some(last) => dist_squared(last, first_pt) < dist_squared(last, last_pt),
                None => true,
            },
        }
    }
}

/// Decides the direction in which the edge of a road is followed: see
/// [`keeps_orientation`].
pub fn keep_lane_orientation(
    lane1: &Lane,
    lane2: &Lane,
    same_road: bool,
    last: Option<Pt2D>,
    first_pt: Pt2D,
    last_pt: Pt2D,
) -> (keep: bool)
    ensures
        keep == keeps_orientation(*lane1, *lane2, same_road, last, first_pt, last_pt),
{
    if same_road {
        return true;
    }
    let at_src = lane1.src_i == lane2.src_i || lane1.src_i == lane2.dst_i;
    let at_dst = lane1.dst_i == lane2.src_i || lane1.dst_i == lane2.dst_i;
    if at_src && !at_dst {
        lane1.src_i == lane1.dst_i
    } else if at_dst && !at_src {
        true
    } else {
        match last {
            Some(last) => distance_squared(last, first_pt) < distance_squared(last, last_pt),
            None => true,
        }
    }
}

/// The points in the opposite order.
pub fn reversed(pts: &Vec<Pt2D>) -> (r: Vec<Pt2D>)
    ensures
        r@ == pts@.reverse(),
{
    let mut r: Vec<Pt2D> = Vec::new();
    let mut k: usize = pts.len();
    while k > 0
        invariant
            k <= pts.len(),
            r.len() == pts.len() - k,
            forall|j: int| 0 <= j < r.len() ==> r@[j] == pts@[pts.len() - 1 - j],
        decreases k,
    {
        k = k - 1;
        r.push(pts[k]);
    }
    proof {
        assert(r@ =~= pts@.reverse());
    }
    r
}

/// The first `n` points without any point that repeats the one before it.
pub open spec fn deduped(pts: Seq<Pt2D>, n: int) -> Seq<Pt2D>
    decreases n,
{
    if n <= 0 {
        Seq::empty()
    } else {
        let before = deduped(pts, n - 1);
        if before.len() > 0 && before.last() == pts[n - 1] {
            before
        } else {
            before.push(pts[n - 1])
        }
    }
}

/// Leaves out every point that repeats the one before it.
pub fn dedup(pts: &Vec<Pt2D>) -> (r: Vec<Pt2D>)
    ensures
        r@ == deduped(pts@, pts.len() as int),
{
    let mut r: Vec<Pt2D> = Vec::new();
    let mut n: usize = 0;
    while n < pts.len()
        invariant
            n <= pts.len(),
            r@ == deduped(pts@, n as int),
        decreases pts.len() - n,
    {
        if !(r.len() > 0 && r[r.len() - 1] == pts[n]) {
            r.push(pts[n]);
        }
        n = n + 1;
    }
    r
}

/// Adds points to the end of a vector.
fn extend(pts: &mut Vec<Pt2D>, more: &Vec<Pt2D>)
    ensures
        final(pts)@ == old(pts)@ + more@,
{
    let mut k: usize = 0;
    proof {
        assert(pts@ =~= old(pts)@ + more@.take(0));
    }
    while k < more.len()
        invariant
            k <= more.len(),
            pts@ == old(pts)@ + more@.take(k as int),
        decreases more.len() - k,
    {
        pts.push(more[k]);
        proof {
            assert(pts@ =~= old(pts)@ + more@.take(k + 1));
        }
        k = k + 1;
    }
    proof {
        assert(more@.take(k as int) =~= more@);
    }
}

impl StreetMap {
    /// The lane at the edge of a road on the given side: the last lane on the
    /// right side, the first on the left.
    pub open spec fn outermost_lane(&self, side: RoadSideID) -> Lane {
        let lanes = self.roads[side.road.0 as int].lanes;
        if side.side == SideOfRoad::Right {
            lanes[lanes.len() - 1]
        } else {
            lanes[0]
        }
    }

    /// Whether the map has the road of the side, with lanes, and both ends of
    /// the road.
    pub open spec fn side_ok(&self, side: RoadSideID) -> bool {
        &&& self.has_road(side.road)
        &&& self.roads[side.road.0 as int].lanes.len() > 0
        &&& self.has_intersection(self.outermost_lane(side).src_i)
        &&& self.has_intersection(self.outermost_lane(side).dst_i)
    }

    /// Finds the lane at the edge of a road: see
    /// [`StreetMap::outermost_lane`].
    pub fn get_outermost_lane(&self, side: RoadSideID) -> (lane: Option<&Lane>)
        ensures
            match lane {
                Some(lane) => self.side_ok(side) && *lane == self.outermost_lane(side),
                None => !self.side_ok(side),
            },
    {
        if side.road.0 >= self.roads.len() {
            return None;
        }
        let lanes = &self.roads[side.road.0].lanes;
        if lanes.len() == 0 {
            return None;
        }
        let lane = if side.side == SideOfRoad::Right {
            &lanes[lanes.len() - 1]
        } else {
            &lanes[0]
        };
        if lane.src_i.0 >= self.intersections.len() || lane.dst_i.0 >= self.intersections.len() {
            return None;
        }
        Some(lane)
    }
}

/// The first of the first `n` steps of a perimeter at which the sides that
/// follow each other have the same outermost lane.
pub open spec fn first_duplicate(map: &StreetMap, sides: Seq<RoadSideID>, n: int) -> Option<int>
    decreases n,
{
    if n <= 0 {
        None
    } else {
        match first_duplicate(map, sides, n - 1) {
            Some(k) => Some(k),
            None => if map.outermost_lane(sides[n - 1]).id == map.outermost_lane(sides[n]).id {
                Some(n - 1)
            } else {
                None
            },
        }
    }
}

/// What is wrong with step `k` of a perimeter, before any geometry is asked:
/// the side is of a road that the map does not have as it should, or the
/// next side is, or both sides have the same outermost lane.
pub open spec fn fault_at(map: &StreetMap, sides: Seq<RoadSideID>, k: int) -> Option<BlockError> {
    if !map.side_ok(sides[k]) {
        Some(BlockError::UnknownRoad(sides[k].road))
    } else if !map.side_ok(sides[k + 1]) {
        Some(BlockError::UnknownRoad(sides[k + 1].road))
    } else if map.outermost_lane(sides[k]).id == map.outermost_lane(sides[k + 1]).id {
        Some(BlockError::DuplicateAdjacentRoads(map.outermost_lane(sides[k]).id))
    } else {
        None
    }
}

/// The first of the first `n` steps of a perimeter at which something is
/// wrong: see [`fault_at`].
pub open spec fn first_fault(map: &StreetMap, sides: Seq<RoadSideID>, n: int) -> Option<int>
    decreases n,
{
    if n <= 0 {
        None
    } else {
        match first_fault(map, sides, n - 1) {
            Some(k) => Some(k),
            None => if fault_at(map, sides, n - 1).is_some() {
                Some(n - 1)
            } else {
                None
            },
        }
    }
}

/// The first fault among more steps is the first fault among fewer, or
/// lies behind them.
pub proof fn lemma_first_fault(map: &StreetMap, sides: Seq<RoadSideID>, n: int, m: int)
    requires
        0 <= n <= m,
    ensures
        match first_fault(map, sides, n) {
            Some(k) => first_fault(map, sides, m) == Some(k),
            None => match first_fault(map, sides, m) {
                Some(k) => n <= k < m && fault_at(map, sides, k).is_some(),
                None => true,
            },
        },
    decreases m - n,
{
    if n < m {
        lemma_first_fault(map, sides, n, m - 1);
    }
}

/// Whether `e` is an error that shaping a perimeter of `n` steps may give:
/// what is wrong at the first step at which something is wrong, or that the
/// geometry gave no edge for a road at a step before that; and where nothing
/// is wrong, that the geometry gave no edge or no outline.
pub open spec fn shaping_error(map: &StreetMap, sides: Seq<RoadSideID>, n: int, e: BlockError) -> bool {
    match first_fault(map, sides, n) {
        Some(k) => Some(e) == fault_at(map, sides, k) || exists|j: int|
            0 <= j < k && e == BlockError::NoEdge(#[trigger] sides[j].road),
        None => e == BlockError::NotARing || exists|j: int|
            0 <= j < n && e == BlockError::NoEdge(#[trigger] sides[j].road),
    }
}

/// A duplicate that was found stays the first one.
pub proof fn lemma_duplicate_stays(map: &StreetMap, sides: Seq<RoadSideID>, n: int, m: int)
    requires
        0 <= n <= m,
        first_duplicate(map, sides, n).is_some(),
    ensures
        first_duplicate(map, sides, m) == first_duplicate(map, sides, n),
    decreases m - n,
{
    if n < m {
        lemma_duplicate_stays(map, sides, n, m - 1);
    }
}

impl Block {
    /// Gives a perimeter its shape: the outline that runs along the outer
    /// edges of its roads and round the intersections between them.
    ///
    /// It is an error if the perimeter names a road that the map does not
    /// have as it should, if two sides that follow each other have the same
    /// outermost lane, or if the geometry gives no edge for a road or no
    /// shape for the points. The steps are gone through in their order, so
    /// the error is the first that is met: see [`shaping_error`]. Where
    /// something is wrong at the first step, that is the error.
    pub fn from_perimeter<G: Geometry>(map: &StreetMap, perimeter: Perimeter, geom: &G) -> (res:
        Result<Block, BlockError>)
        requires
            perimeter.wf(),
        ensures
            match res {
                Ok(block) => {
                    &&& block.perimeter == perimeter
                    &&& forall|k: int|
                        0 <= k < perimeter.roads.len()
                            ==> map.side_ok(#[trigger] perimeter.roads[k])
                    &&& first_duplicate(map, perimeter.roads@, perimeter.roads.len() - 1).is_none()
                },
                Err(BlockError::UnknownRoad(r)) => exists|k: int|
                    0 <= k < perimeter.roads.len() && !map.side_ok(#[trigger] perimeter.roads[k])
                        && perimeter.roads[k].road == r,
                Err(BlockError::DuplicateAdjacentRoads(l)) => exists|k: int|
                    first_duplicate(map, perimeter.roads@, perimeter.roads.len() - 1) == Some(k)
                        && map.outermost_lane(#[trigger] perimeter.roads[k]).id == l,
                Err(_) => true,
            },
            match res {
                Ok(_) => first_fault(map, perimeter.roads@, perimeter.roads.len() - 1).is_none(),
                Err(e) => shaping_error(map, perimeter.roads@, perimeter.roads.len() - 1, e),
            },
    {
        let mut pts: Vec<Pt2D> = Vec::new();
        let mut first_intersection: Option<IntersectionID> = None;
        let count = perimeter.roads.len() - 1;
        let mut n: usize = 0;
        while n < count
            invariant
                n <= count,
                count == perimeter.roads.len() - 1,
                n > 0 ==> pts.len() > 0 && first_intersection.is_some(),
                match first_intersection {
                    Some(i) => map.has_intersection(i),
                    None => true,
                },
                forall|k: int| 0 <= k <= n && n > 0 ==> map.side_ok(#[trigger] perimeter.roads[k]),
                first_duplicate(map, perimeter.roads@, n as int).is_none(),
                first_fault(map, perimeter.roads@, n as int).is_none(),
            decreases count - n,
        {
            let side1 = perimeter.roads[n];
            let side2 = perimeter.roads[n + 1];
            proof {
                lemma_first_fault(map, perimeter.roads@, n + 1, count as int);
            }
            let lane1 = match map.get_outermost_lane(side1) {
                Some(lane) => lane,
                None => {
                    return Err(BlockError::UnknownRoad(side1.road));
                },
            };
            let lane2 = match map.get_outermost_lane(side2) {
                Some(lane) => lane,
                None => {
                    return Err(BlockError::UnknownRoad(side2.road));
                },
            };
            if lane1.id == lane2.id {
                proof {
                    lemma_duplicate_stays(map, perimeter.roads@, n + 1, count as int);
                }
                return Err(BlockError::DuplicateAdjacentRoads(lane1.id));
            }
            proof {
                assert(fault_at(map, perimeter.roads@, n as int).is_none());
                assert(perimeter.roads@[n as int].road == side1.road);
            }
            let road1 = &map.roads[side1.road.0];
            let edge = match geom.road_edge(&road1.center_pts, road1.get_half_width(), side1.side) {
                Some(edge) => edge,
                None => {
                    return Err(BlockError::NoEdge(side1.road));
                },
            };
            if edge.pts.len() == 0 {
                return Err(BlockError::NoEdge(side1.road));
            }
            let mut line = if lane1.dir == Direction::Back {
                reversed(&edge.pts)
            } else {
                edge.pts
            };
            let last = if pts.len() > 0 {
                Some(pts[pts.len() - 1])
            } else {
                None
            };
            let keep = keep_lane_orientation(
                lane1,
                lane2,
                side1.road == side2.road,
                last,
                line[0],
                line[line.len() - 1],
            );
            if !keep {
                line = reversed(&line);
            }
            // Before the points of this road, go round the intersection that
            // lies before it.
            let prev_i = if keep {
                lane1.src_i
            } else {
                lane1.dst_i
            };
            if first_intersection.is_none() {
                first_intersection = Some(prev_i);
            }
            match last {
                Some(last_pt) => {
                    let before = &map.intersections[prev_i.0];
                    let longer = before.roads.len() == 1;
                    match geom.ring_slice(&before.polygon, last_pt, line[0], longer) {
                        Some(slice) => {
                            extend(&mut pts, &slice);
                        },
                        None => {},
                    }
                },
                None => {},
            }
            extend(&mut pts, &line);
            n = n + 1;
        }
        // Go round the first intersection to where the outline began.
        match first_intersection {
            Some(i) => {
                let first = &map.intersections[i.0];
                let longer = first.roads.len() == 1;
                match geom.ring_slice(&first.polygon, pts[pts.len() - 1], pts[0], longer) {
                    Some(slice) => {
                        extend(&mut pts, &slice);
                    },
                    None => {},
                }
            },
            None => {},
        }
        let start = pts[0];
        pts.push(start);
        let outline = dedup(&pts);
        match geom.make_ring(outline) {
            Some(polygon) => Ok(Block { perimeter, polygon }),
            None => Err(BlockError::NotARing),
        }
    }
}

impl Perimeter {
    /// Gives the perimeter its shape: see [`Block::from_perimeter`].
    pub fn to_block<G: Geometry>(
        self,
        map: &StreetMap,
        geom: &G,
    ) -> (res: Result<Block, BlockError>)
        requires
            self.wf(),
        ensures
            match res {
                Ok(block) => {
                    &&& block.perimeter == self
                    &&& forall|k: int| 0 <= k < self.roads.len()
                        ==> map.side_ok(#[trigger] self.roads[k])
                    &&& first_duplicate(map, self.roads@, self.roads.len() - 1).is_none()
                },
                Err(BlockError::UnknownRoad(r)) => exists|k: int|
                    0 <= k < self.roads.len() && !map.side_ok(#[trigger] self.roads[k])
                        && self.roads[k].road == r,
                Err(BlockError::DuplicateAdjacentRoads(l)) => exists|k: int|
                    first_duplicate(map, self.roads@, self.roads.len() - 1) == Some(k)
                        && map.outermost_lane(#[trigger] self.roads[k]).id == l,
                Err(_) => true,
            },
            match res {
                Ok(_) => first_fault(map, self.roads@, self.roads.len() - 1).is_none(),
                Err(e) => shaping_error(map, self.roads@, self.roads.len() - 1, e),
            },
    {
        Block::from_perimeter(map, self, geom)
    }
}

} // verus!
