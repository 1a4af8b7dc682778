//! Tracing the perimeter of a single block along the sides of roads.

use vstd::prelude::*;
use crate::block::Perimeter;
use crate::id_set::IdSet;
use crate::ids::{IntersectionID, RoadID, RoadSideID, SideOfRoad};
use crate::map::StreetMap;
use crate::road::Road;

verus! {

/// Why no perimeter could be traced.
#[derive(Clone, Copy, Debug, PartialEq, Eq, Structural)]
pub enum TraceError {
    /// The trace reached the edge of the map.
    HitBoundary,
    /// The trace came to an intersection that does not list the road by which
    /// it came, or lists it alone.
    LostTrack,
    /// The trace did not come back to where it began.
    NoLoop,
}

/// The sides of the first `n` of the roads `at` intersection `i`, in the order
/// of the roads, which is clockwise. Seen from the intersection, the right
/// side of a road that ends there comes before its left side, and the left
/// side of a road that begins there before its right side.
pub open spec fn sides_around(roads: Seq<Road>, at: Seq<RoadID>, i: IntersectionID, n: int) -> Seq<
    RoadSideID,
>
    decreases n,
{
    if n <= 0 {
        Seq::empty()
    } else {
        let r = at[n - 1];
        let before = sides_around(roads, at, i, n - 1);
        if roads[r.0 as int].dst_i == i {
            before.push(RoadSideID { road: r, side: SideOfRoad::Right }).push(
                RoadSideID { road: r, side: SideOfRoad::Left },
            )
        } else {
            before.push(RoadSideID { road: r, side: SideOfRoad::Left }).push(
                RoadSideID { road: r, side: SideOfRoad::Right },
            )
        }
    }
}

/// The first position of a side in a sequence, or the length of the sequence
/// if it is not there.
pub open spec fn side_index(sides: Seq<RoadSideID>, x: RoadSideID) -> int
    decreases sides.len(),
{
    if sides.len() == 0 {
        0
    } else if sides[0] == x {
        0
    } else {
        1 + side_index(sides.drop_first(), x)
    }
}

/// The side that the perimeter passes to from the side `cur`, at an
/// intersection with the given sides around it: the side after `cur`, or, if
/// that is the other side of the same road, the side before `cur`. That is
/// the other side of the same road again only at a dead end, where the road
/// is alone. `None` if `cur` is not among the sides or no other side is.
pub open spec fn next_side(sides: Seq<RoadSideID>, cur: RoadSideID) -> Option<RoadSideID> {
    let idx = side_index(sides, cur);
    if idx >= sides.len() || sides.len() < 2 {
        None
    } else {
        let after = sides[(idx + 1) % (sides.len() as int)];
        let before = sides[(idx + sides.len() - 1) % (sides.len() as int)];
        if after.road != cur.road {
            Some(after)
        } else if before.road != cur.road || sides.len() == 2 {
            Some(before)
        } else {
            None
        }
    }
}

/// The end of the road other than `i`.
pub open spec fn other_end(road: Road, i: IntersectionID) -> IntersectionID {
    if road.src_i == i {
        road.dst_i
    } else {
        road.src_i
    }
}

/// The intersection at which the perimeter leaves its side number `k`.
pub open spec fn facing(roads: Seq<Road>, sides: Seq<RoadSideID>, k: int) -> IntersectionID
    decreases k,
{
    if k <= 0 {
        roads[sides[0].road.0 as int].dst_i
    } else {
        other_end(roads[sides[k].road.0 as int], facing(roads, sides, k - 1))
    }
}

/// How many sides a trace is followed for before it is given up: four times
/// the number of roads, since a trace that comes back at all comes back
/// before it has passed both sides of every road in both directions.
pub open spec fn trace_limit(roads: nat) -> nat {
    if roads > usize::MAX / 4 {
        usize::MAX as nat
    } else {
        4 * roads
    }
}

impl StreetMap {
    /// The perimeter that a trace gives which has passed the sides `sides`
    /// and goes on along the side `cur` towards intersection `i`, and is
    /// followed for `fuel` sides more. At a border the trace fails. Otherwise
    /// it passes to the side that [`next_side`] gives at `i`, and is complete
    /// if that is the side `start` where it began.
    pub open spec fn walk(
        &self,
        sides: Seq<RoadSideID>,
        cur: RoadSideID,
        i: IntersectionID,
        start: RoadSideID,
        fuel: nat,
    ) -> Result<Seq<RoadSideID>, TraceError>
        decreases fuel,
    {
        if fuel == 0 {
            Err(TraceError::NoLoop)
        } else if self.intersections[i.0 as int].spec_is_border() {
            Err(TraceError::HitBoundary)
        } else {
            match next_side(
                sides_around(
                    self.roads@,
                    self.intersections[i.0 as int].roads@,
                    i,
                    self.intersections[i.0 as int].roads.len() as int,
                ),
                cur,
            ) {
                None => Err(TraceError::LostTrack),
                Some(next) => if !self.has_road(next.road) {
                    Err(TraceError::LostTrack)
                } else if next == start {
                    Ok(sides.push(cur).push(start))
                } else {
                    self.walk(
                        sides.push(cur),
                        next,
                        other_end(self.roads[next.road.0 as int], i),
                        start,
                        (fuel - 1) as nat,
                    )
                },
            }
        }
    }

    /// The perimeter of the single block along the side `start`: see
    /// [`StreetMap::walk`].
    pub open spec fn single_block_of(&self, start: RoadSideID) -> Result<
        Seq<RoadSideID>,
        TraceError,
    > {
        self.walk(
            Seq::empty(),
            start,
            self.roads[start.road.0 as int].dst_i,
            start,
            trace_limit(self.roads@.len()),
        )
    }

    /// Whether the first `n` steps of a run of sides follow the roads of the
    /// map: each side is a side of a road of the map, the intersection where
    /// the run leaves it is no border, and the next side is the one that
    /// [`next_side`] gives there.
    pub open spec fn traced(&self, sides: Seq<RoadSideID>, n: int) -> bool {
        forall|k: int|
            0 <= k < n ==> {
                let i = facing(self.roads@, sides, k);
                &&& self.has_road((#[trigger] sides[k]).road)
                &&& self.has_intersection(i)
                &&& !self.intersections[i.0 as int].spec_is_border()
                &&& next_side(
                    sides_around(
                        self.roads@,
                        self.intersections[i.0 as int].roads@,
                        i,
                        self.intersections[i.0 as int].roads.len() as int,
                    ),
                    sides[k],
                ) == Some(sides[k + 1])
            }
    }

    /// The sides of the roads at intersection `i`, clockwise: see
    /// [`sides_around`].
    pub fn get_road_sides_sorted(&self, i: IntersectionID) -> (sides: Vec<RoadSideID>)
        requires
            self.has_intersection(i),
            self.refs_ok(),
        ensures
            sides@ == sides_around(
                self.roads@,
                self.intersections[i.0 as int].roads@,
                i,
                self.intersections[i.0 as int].roads.len() as int,
            ),
    {
        let at = &self.intersections[i.0].roads;
        let mut sides: Vec<RoadSideID> = Vec::new();
        let mut n: usize = 0;
        while n < at.len()
            invariant
                n <= at.len(),
                self.has_intersection(i),
                self.refs_ok(),
                at == &self.intersections[i.0 as int].roads,
                sides@ == sides_around(self.roads@, at@, i, n as int),
            decreases at.len() - n,
        {
            let r = at[n];
            assert(self.has_road(self.intersections[i.0 as int].roads[n as int]));
            if self.roads[r.0].dst_i == i {
                sides.push(RoadSideID { road: r, side: SideOfRoad::Right });
                sides.push(RoadSideID { road: r, side: SideOfRoad::Left });
            } else {
                sides.push(RoadSideID { road: r, side: SideOfRoad::Left });
                sides.push(RoadSideID { road: r, side: SideOfRoad::Right });
            }
            n = n + 1;
        }
        sides
    }
}

/// Finds the first position of a side: see [`side_index`].
fn find_side(sides: &Vec<RoadSideID>, x: RoadSideID) -> (k: usize)
    ensures
        k == side_index(sides@, x),
        k <= sides.len(),
{
    let mut k: usize = 0;
    proof {
        assert(sides@.skip(0) =~= sides@);
    }
    while k < sides.len()
        invariant
            k <= sides.len(),
            side_index(sides@, x) == k + side_index(sides@.skip(k as int), x),
        decreases sides.len() - k,
    {
        proof {
            assert(sides@.skip(k as int)[0] == sides@[k as int]);
            assert(sides@.skip(k as int).drop_first() =~= sides@.skip(k + 1));
        }
        if sides[k] == x {
            return k;
        }
        k = k + 1;
    }
    proof {
        assert(sides@.skip(k as int).len() == 0);
    }
    k
}

/// Picks the side that the perimeter passes to: see [`next_side`].
fn pick_next(sides: &Vec<RoadSideID>, cur: RoadSideID) -> (res: Option<RoadSideID>)
    ensures
        res == next_side(sides@, cur),
{
    let idx = find_side(sides, cur);
    let len = sides.len();
    if idx >= len || len < 2 {
        return None;
    }
    let after = if idx + 1 == len {
        sides[0]
    } else {
        sides[idx + 1]
    };
    let before = if idx == 0 {
        sides[len - 1]
    } else {
        sides[idx - 1]
    };
    proof {
        let l = len as int;
        let i = idx as int;
        if i + 1 == l {
            assert((i + 1) % l == 0) by (nonlinear_arith)
                requires
                    i + 1 == l,
                    l > 0,
            ;
        } else {
            assert((i + 1) % l == i + 1) by (nonlinear_arith)
                requires
                    0 <= i + 1 < l,
            ;
        }
        if i == 0 {
            assert((i + l - 1) % l == l - 1) by (nonlinear_arith)
                requires
                    i == 0,
                    l > 0,
            ;
        } else {
            assert((i + l - 1) % l == i - 1) by (nonlinear_arith)
                requires
                    0 < i < l,
            ;
        }
    }
    if after.road != cur.road {
        Some(after)
    } else if before.road != cur.road || len == 2 {
        Some(before)
    } else {
        None
    }
}

impl Perimeter {
    /// Traces the perimeter of a single block, one with no road inside it,
    /// beginning along the side `start` of a road towards the end of that
    /// road, and keeping to the same side of the roads all the way round: see
    /// [`StreetMap::walk`]. This fails at the edge of the map, at an
    /// intersection that does not list the road by which the trace came, and
    /// if the trace does not come back to where it began.
    #[verifier::rlimit(60)]
    pub fn single_block(map: &StreetMap, start: RoadSideID) -> (res: Result<Perimeter, TraceError>)
        requires
            map.refs_ok(),
            map.has_road(start.road),
        ensures
            match res {
                Ok(p) => {
                    &&& map.single_block_of(start) == Ok::<Seq<RoadSideID>, TraceError>(p.roads@)
                    &&& p.wf()
                    &&& p.roads@[0] == start
                    &&& map.traced(p.roads@, p.roads.len() - 1)
                    &&& forall|k: int| 0 < k < p.roads.len() - 1 ==> p.roads@[k] != start
                },
                Err(e) => map.single_block_of(start) == Err::<Seq<RoadSideID>, TraceError>(e),
            },
    {
        let limit = if map.roads.len() > usize::MAX / 4 {
            usize::MAX
        } else {
            4 * map.roads.len()
        };
        let mut roads: Vec<RoadSideID> = Vec::new();
        let mut current_road_side = start;
        let mut current_intersection = map.roads[start.road.0].dst_i;
        let mut steps: usize = 0;
        proof {
            assert(roads@ =~= Seq::<RoadSideID>::empty());
        }
        while steps < limit
            invariant
                steps <= limit,
                limit == trace_limit(map.roads@.len()),
                map.single_block_of(start) == map.walk(
                    roads@,
                    current_road_side,
                    current_intersection,
                    start,
                    (limit - steps) as nat,
                ),
                map.refs_ok(),
                roads.len() == steps,
                map.has_road(current_road_side.road),
                map.has_intersection(current_intersection),
                steps == 0 ==> current_road_side == start,
                steps > 0 ==> roads@[0] == start,
                forall|k: int| 0 < k < steps ==> roads@[k] != start,
                steps > 0 ==> current_road_side != start,
                current_intersection == facing(
                    map.roads@,
                    roads@.push(current_road_side),
                    steps as int,
                ),
                map.traced(roads@.push(current_road_side), steps as int),
            decreases limit - steps,
        {
            if map.intersections[current_intersection.0].is_border() {
                return Err(TraceError::HitBoundary);
            }
            let sorted_roads = map.get_road_sides_sorted(current_intersection);
            let next = match pick_next(&sorted_roads, current_road_side) {
                Some(next) => next,
                None => {
                    return Err(TraceError::LostTrack);
                },
            };
            if next.road.0 >= map.roads.len() {
                return Err(TraceError::LostTrack);
            }
            let ghost before = roads@.push(current_road_side);
            roads.push(current_road_side);
            let road = &map.roads[next.road.0];
            let next_intersection = if road.src_i == current_intersection {
                road.dst_i
            } else {
                road.src_i
            };
            proof {
                let after = before.push(next);
                lemma_facing_prefix(map.roads@, before, after, steps as int);
                assert(after[steps + 1] == next);
                assert(facing(map.roads@, after, steps + 1) == next_intersection);
                assert forall|k: int| 0 <= k < steps + 1 implies {
                    let i = facing(map.roads@, after, k);
                    &&& map.has_road((#[trigger] after[k]).road)
                    &&& map.has_intersection(i)
                    &&& !map.intersections[i.0 as int].spec_is_border()
                    &&& next_side(
                        sides_around(
                            map.roads@,
                            map.intersections[i.0 as int].roads@,
                            i,
                            map.intersections[i.0 as int].roads.len() as int,
                        ),
                        after[k],
                    ) == Some(after[k + 1])
                } by {
                    lemma_facing_prefix(map.roads@, before, after, k);
                    if k < steps {
                        assert(before[k] == after[k]);
                        assert(before[k + 1] == after[k + 1]);
                        assert(map.has_road(before[k].road));
                    }
                }
            }
            current_road_side = next;
            current_intersection = next_intersection;
            steps = steps + 1;
            if current_road_side == start {
                roads.push(start);
                return Ok(Perimeter { roads });
            }
        }
        Err(TraceError::NoLoop)
    }

    /// Traces the perimeters of all single blocks of the map: see
    /// [`StreetMap::blocks_upto`]. The sides of the roads are gone through
    /// road by road, the left side of a road before its right side, and a
    /// block is traced from every side that no block found before runs along.
    /// The sides of roads near the edge of the map belong to no block.
    pub fn find_all_single_blocks(map: &StreetMap) -> (perimeters: Vec<Perimeter>)
        requires
            map.refs_ok(),
        ensures
            map.blocks_upto(perimeters@, 2 * map.roads.len()),
            forall|k: int|
                0 <= k < perimeters.len() ==> {
                    let p = #[trigger] perimeters[k];
                    &&& p.wf()
                    &&& map.has_road(p.roads@[0].road)
                    &&& map.single_block_of(p.roads@[0]) == Ok::<Seq<RoadSideID>, TraceError>(
                        p.roads@,
                    )
                    &&& map.traced(p.roads@, p.roads.len() - 1)
                },
            forall|a: int, b: int|
                0 <= a < b < perimeters.len() ==> (#[trigger] perimeters[a]).roads@[0]
                    != (#[trigger] perimeters[b]).roads@[0],
    {
        let mut seen: IdSet<RoadSideID> = IdSet::new();
        let mut perimeters: Vec<Perimeter> = Vec::new();
        let mut r: usize = 0;
        while r < map.roads.len()
            invariant
                r <= map.roads.len(),
                map.refs_ok(),
                map.blocks_upto(perimeters@, 2 * r),
                map.seen_upto(perimeters@, seen@, 2 * r),
            decreases map.roads.len() - r,
        {
            let mut s: usize = 0;
            while s < 2
                invariant
                    s <= 2,
                    r < map.roads.len(),
                    map.refs_ok(),
                    map.blocks_upto(perimeters@, 2 * r + s),
                    map.seen_upto(perimeters@, seen@, 2 * r + s),
                decreases 2 - s,
            {
                let side = if s == 0 {
                    SideOfRoad::Left
                } else {
                    SideOfRoad::Right
                };
                let id = RoadSideID { road: RoadID(r), side };
                let ghost rank = 2 * r + s;
                let ghost found = perimeters@;
                let ghost seen_at = seen@;
                proof {
                    assert(side_rank(id) == rank);
                    lemma_rank_names_side(id);
                }
                if !seen.contains(id) {
                    match Perimeter::single_block(map, id) {
                        Ok(perimeter) => {
                            let mut k: usize = 0;
                            while k < perimeter.roads.len()
                                invariant
                                    k <= perimeter.roads.len(),
                                    forall|x: RoadSideID| #[trigger]
                                        seen@.contains(x) <==> (seen_at.contains(x)
                                            || perimeter.roads@.take(k as int).contains(x)),
                                decreases perimeter.roads.len() - k,
                            {
                                proof {
                                    crate::id_set::lemma_push_contains(
                                        perimeter.roads@.take(k as int),
                                        perimeter.roads@[k as int],
                                    );
                                    assert(perimeter.roads@.take(k + 1) =~= perimeter.roads@.take(
                                        k as int,
                                    ).push(perimeter.roads@[k as int]));
                                }
                                seen.insert(perimeter.roads[k]);
                                k = k + 1;
                            }
                            perimeters.push(perimeter);
                            proof {
                                let last = found.len() as int;
                                assert(perimeters@[last].roads@.take(
                                    perimeters@[last].roads.len() as int,
                                ) =~= perimeters@[last].roads@);
                                assert(perimeters@[last].roads@.contains(id)) by {
                                    assert(perimeters@[last].roads@[0] == id);
                                }
                                assert forall|j: int| 0 <= j < found.len() implies perimeters@[j]
                                    == found[j] by {}
                                lemma_blocks_grow(map, found, perimeters@, seen_at, seen@, rank);
                            }
                        },
                        Err(_) => {
                            seen.insert(id);
                            proof {
                                lemma_blocks_skip(map, found, seen_at, seen@, id, rank);
                            }
                        },
                    }
                } else {
                    proof {
                        lemma_blocks_skip(map, found, seen_at, seen@, id, rank);
                    }
                }
                s = s + 1;
            }
            r = r + 1;
        }
        perimeters
    }
}

/// The place of a side in the order in which the sides of the roads are gone
/// through: road by road, the left side of a road before its right side.
pub open spec fn side_rank(s: RoadSideID) -> int {
    2 * s.road.0 + if s.side == SideOfRoad::Left {
        0int
    } else {
        1int
    }
}

/// Whether one of the perimeters runs along the side.
pub open spec fn on_some(perimeters: Seq<Perimeter>, x: RoadSideID) -> bool {
    exists|k: int| 0 <= k < perimeters.len() && (#[trigger] perimeters[k]).roads@.contains(x)
}

impl StreetMap {
    /// Whether the perimeters are the single blocks that are found from the
    /// sides at the places below `upto` (see [`side_rank`]):
    ///
    /// - each is the block that is traced from its first side, which is at
    ///   one of those places;
    /// - they come in the order of their first sides;
    /// - none begins along a side that one before it runs along;
    /// - each of those sides lies on one of them, unless no block can be
    ///   traced from it.
    pub open spec fn blocks_upto(&self, perimeters: Seq<Perimeter>, upto: int) -> bool {
        &&& forall|k: int|
            0 <= k < perimeters.len() ==> {
                let p = #[trigger] perimeters[k];
                &&& p.wf()
                &&& self.has_road(p.roads@[0].road)
                &&& self.single_block_of(p.roads@[0]) == Ok::<Seq<RoadSideID>, TraceError>(p.roads@)
                &&& self.traced(p.roads@, p.roads.len() - 1)
                &&& side_rank(p.roads@[0]) < upto
            }
        &&& forall|a: int, b: int|
            0 <= a < b < perimeters.len() ==> side_rank((#[trigger] perimeters[a]).roads@[0])
                < side_rank((#[trigger] perimeters[b]).roads@[0])
        &&& forall|a: int, b: int|
            0 <= a < b < perimeters.len() ==> !(#[trigger] perimeters[a]).roads@.contains(
                (#[trigger] perimeters[b]).roads@[0],
            )
        &&& forall|x: RoadSideID|
            self.has_road(x.road) && side_rank(x) < upto ==> (#[trigger] self.single_block_of(
                x,
            )).is_err() || on_some(perimeters, x)
    }

    /// Whether `seen` holds what is passed over from the place `upto` on: the
    /// sides that the perimeters run along, and the sides at places below
    /// `upto` from which no block can be traced.
    pub open spec fn seen_upto(
        &self,
        perimeters: Seq<Perimeter>,
        seen: Set<RoadSideID>,
        upto: int,
    ) -> bool {
        forall|x: RoadSideID| #[trigger]
            seen.contains(x) <==> (on_some(perimeters, x) || (self.has_road(x.road) && side_rank(x)
                < upto && self.single_block_of(x).is_err()))
    }
}

/// Two sides at the same place are the same side.
pub proof fn lemma_rank_names_side(id: RoadSideID)
    ensures
        forall|x: RoadSideID| #[trigger] side_rank(x) == side_rank(id) ==> x == id,
{
    assert forall|x: RoadSideID| #[trigger] side_rank(x) == side_rank(id) implies x == id by {
        assert(x.road.0 == id.road.0);
        assert(x.side == id.side);
    }
}

/// A block that is traced from the side at place `rank`, which none of the
/// blocks found runs along, is the next block found.
pub proof fn lemma_blocks_grow(
    map: &StreetMap,
    found: Seq<Perimeter>,
    now: Seq<Perimeter>,
    seen_before: Set<RoadSideID>,
    seen: Set<RoadSideID>,
    rank: int,
)
    requires
        map.blocks_upto(found, rank),
        map.seen_upto(found, seen_before, rank),
        now.len() == found.len() + 1,
        forall|j: int| 0 <= j < found.len() ==> now[j] == found[j],
        now[found.len() as int].wf(),
        map.has_road(now[found.len() as int].roads@[0].road),
        side_rank(now[found.len() as int].roads@[0]) == rank,
        !seen_before.contains(now[found.len() as int].roads@[0]),
        map.single_block_of(now[found.len() as int].roads@[0]) == Ok::<Seq<RoadSideID>, TraceError>(
            now[found.len() as int].roads@,
        ),
        map.traced(now[found.len() as int].roads@, now[found.len() as int].roads.len() - 1),
        forall|x: RoadSideID| #[trigger]
            seen.contains(x) <==> (seen_before.contains(x) || now[found.len() as int].roads@.contains(
                x,
            )),
    ensures
        map.blocks_upto(now, rank + 1),
        map.seen_upto(now, seen, rank + 1),
{
    let last = found.len() as int;
    let start = now[last].roads@[0];
    lemma_rank_names_side(start);
    assert forall|x: RoadSideID| on_some(now, x) <==> (on_some(found, x) || now[last].roads@.contains(
        x,
    )) by {
        if on_some(now, x) {
            let k = choose|k: int| 0 <= k < now.len() && (#[trigger] now[k]).roads@.contains(x);
            if k < last {
                assert(found[k].roads@.contains(x));
            }
        }
        if on_some(found, x) {
            let k = choose|k: int| 0 <= k < found.len() && (#[trigger] found[k]).roads@.contains(x);
            assert(now[k].roads@.contains(x));
        }
        if now[last].roads@.contains(x) {
            assert(now[last].roads@.contains(x));
        }
    }
    assert forall|a: int, b: int| 0 <= a < b < now.len() implies side_rank(
        (#[trigger] now[a]).roads@[0],
    ) < side_rank((#[trigger] now[b]).roads@[0]) && !now[a].roads@.contains(now[b].roads@[0]) by {
        if b < last {
            assert(now[a] == found[a]);
            assert(now[b] == found[b]);
        } else {
            assert(now[a] == found[a]);
            if now[a].roads@.contains(start) {
                assert(on_some(found, start));
            }
        }
    }
    assert forall|x: RoadSideID|
        map.has_road(x.road) && side_rank(x) < rank + 1 implies (#[trigger] map.single_block_of(
        x,
    )).is_err() || on_some(now, x) by {
        if side_rank(x) == rank {
            assert(x == start);
            assert(now[last].roads@.contains(start));
        }
    }
    assert forall|x: RoadSideID| #[trigger]
        seen.contains(x) <==> (on_some(now, x) || (map.has_road(x.road) && side_rank(x) < rank + 1
            && map.single_block_of(x).is_err())) by {
        if side_rank(x) == rank {
            assert(x == start);
        }
    }
}

/// A side at place `rank` that a block found runs along, or from which no
/// block can be traced, is passed over.
pub proof fn lemma_blocks_skip(
    map: &StreetMap,
    found: Seq<Perimeter>,
    seen_before: Set<RoadSideID>,
    seen: Set<RoadSideID>,
    id: RoadSideID,
    rank: int,
)
    requires
        map.blocks_upto(found, rank),
        map.seen_upto(found, seen_before, rank),
        map.has_road(id.road),
        side_rank(id) == rank,
        seen_before.contains(id) && seen == seen_before || map.single_block_of(id).is_err() && seen
            == seen_before.insert(id),
    ensures
        map.blocks_upto(found, rank + 1),
        map.seen_upto(found, seen, rank + 1),
{
    lemma_rank_names_side(id);
    assert forall|x: RoadSideID|
        map.has_road(x.road) && side_rank(x) < rank + 1 implies (#[trigger] map.single_block_of(
        x,
    )).is_err() || on_some(found, x) by {
        if side_rank(x) == rank {
            assert(x == id);
        }
    }
    assert forall|x: RoadSideID| #[trigger]
        seen.contains(x) <==> (on_some(found, x) || (map.has_road(x.road) && side_rank(x) < rank + 1
            && map.single_block_of(x).is_err())) by {
        if side_rank(x) == rank {
            assert(x == id);
        }
    }
}

/// The intersection at which a run leaves a side depends on the sides up to
/// that one only.
pub proof fn lemma_facing_prefix(roads: Seq<Road>, a: Seq<RoadSideID>, b: Seq<RoadSideID>, k: int)
    requires
        0 <= k < a.len(),
        a.len() <= b.len(),
        forall|j: int| 0 <= j < a.len() ==> a[j] == b[j],
    ensures
        facing(roads, a, k) == facing(roads, b, k),
    decreases k,
{
    if k > 0 {
        lemma_facing_prefix(roads, a, b, k - 1);
    }
}

} // verus!
