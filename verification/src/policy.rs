//! What follows from the turns and lanes of an intersection: its movements,
//! and the stop signs or signal timing that it gets when nothing else is
//! given.

use vstd::prelude::*;
use crate::control::{
    ControlStopSign, ControlStopSignView, ControlTrafficSignal, RoadWithStopSign, SignalEntry,
    TrafficSignal, TrafficSignalView, TurnPriority,
};
use crate::ids::{Direction, DirectedRoadID, IntersectionID, LaneID, MovementID, RoadID, TurnID};
use crate::map::StreetMap;
use crate::road::Road;
use crate::turn::{Movement, Turn, TurnType};
use crate::units::Duration;
use crate::vecs::copy_vec;

verus! {

/// What a [`Movement`] holds.
pub ghost struct MovementView {
    pub id: MovementID,
    pub turn_type: TurnType,
    pub members: Seq<TurnID>,
}

impl View for Movement {
    type V = MovementView;

    open spec fn view(&self) -> MovementView {
        MovementView { id: self.id, turn_type: self.turn_type, members: self.members@ }
    }
}

/// The views of a sequence of movements.
pub open spec fn movements_view(ms: Seq<Movement>) -> Seq<MovementView> {
    Seq::new(ms.len(), |k: int| ms[k]@)
}

/// The position of the first movement with the given name, or the length of
/// the sequence if there is none.
pub open spec fn movement_index(ms: Seq<MovementView>, id: MovementID) -> int
    decreases ms.len(),
{
    if ms.len() == 0 {
        0
    } else if ms[0].id == id {
        0
    } else {
        1 + movement_index(ms.drop_first(), id)
    }
}

/// The movements with one more turn taken in: it joins the movement of its
/// name, or starts a new one at the end.
pub open spec fn with_turn(ms: Seq<MovementView>, id: MovementID, t: Turn) -> Seq<MovementView> {
    let k = movement_index(ms, id);
    if 0 <= k < ms.len() {
        ms.update(
            k,
            MovementView { id, turn_type: ms[k].turn_type, members: ms[k].members.push(t.id) },
        )
    } else {
        ms.push(MovementView { id, turn_type: t.turn_type, members: seq![t.id] })
    }
}

/// The road and direction of a lane.
pub open spec fn directed_parent(roads: Seq<Road>, l: LaneID) -> DirectedRoadID {
    roads[l.road.0 as int].lanes[l.offset as int].directed_parent()
}

/// The movement that a turn at intersection `i` belongs to: from the road and
/// direction of its first lane to those of its second. Crossings are kept
/// apart from the turns of vehicles.
pub open spec fn movement_of(roads: Seq<Road>, i: IntersectionID, t: Turn) -> MovementID {
    MovementID {
        from: directed_parent(roads, t.id.src),
        to: directed_parent(roads, t.id.dst),
        parent: i,
        crosswalk: t.turn_type.spec_pedestrian_crossing(),
    }
}

/// The movements of the first `n` of the given turns, in the order in which
/// their first turns come. The corners where sidewalks meet belong to no
/// movement.
pub open spec fn movements_of(roads: Seq<Road>, i: IntersectionID, turns: Seq<Turn>, n: int) -> Seq<
    MovementView,
>
    decreases n,
{
    if n <= 0 {
        Seq::empty()
    } else {
        let before = movements_of(roads, i, turns, n - 1);
        let t = turns[n - 1];
        if t.turn_type == TurnType::SharedSidewalkCorner {
            before
        } else {
            with_turn(before, movement_of(roads, i, t), t)
        }
    }
}

/// Finds the first movement with the given name.
fn find_movement(ms: &Vec<Movement>, id: MovementID) -> (k: usize)
    ensures
        k == movement_index(movements_view(ms@), id),
        k <= ms.len(),
        k < ms.len() ==> ms[k as int].id == id,
{
    let mut k: usize = 0;
    proof {
        assert(movements_view(ms@).skip(0) =~= movements_view(ms@));
    }
    while k < ms.len()
        invariant
            k <= ms.len(),
            movement_index(movements_view(ms@), id) == k + movement_index(
                movements_view(ms@).skip(k as int),
                id,
            ),
        decreases ms.len() - k,
    {
        proof {
            let rest = movements_view(ms@).skip(k as int);
            assert(rest[0] == ms@[k as int]@);
            assert(rest.drop_first() =~= movements_view(ms@).skip(k + 1));
        }
        if ms[k].id == id {
            return k;
        }
        k = k + 1;
    }
    proof {
        assert(movements_view(ms@).skip(k as int).len() == 0);
    }
    k
}

impl Movement {
    /// Groups the turns of an intersection into movements.
    pub fn for_i(i: IntersectionID, map: &StreetMap) -> (ms: Vec<Movement>)
        requires
            map.has_intersection(i),
            forall|k: int|
                0 <= k < map.intersections[i.0 as int].turns.len() ==> map.turn_ok(
                    #[trigger] map.intersections[i.0 as int].turns[k],
                    i,
                ),
        ensures
            movements_view(ms@) == movements_of(
                map.roads@,
                i,
                map.intersections[i.0 as int].turns@,
                map.intersections[i.0 as int].turns.len() as int,
            ),
    {
        let turns = &map.intersections[i.0].turns;
        let mut ms: Vec<Movement> = Vec::new();
        let mut n: usize = 0;
        proof {
            assert(movements_view(ms@) =~= movements_of(map.roads@, i, turns@, 0));
        }
        while n < turns.len()
            invariant
                n <= turns.len(),
                map.has_intersection(i),
                turns == &map.intersections[i.0 as int].turns,
                forall|k: int| 0 <= k < turns.len() ==> map.turn_ok(#[trigger] turns[k], i),
                movements_view(ms@) == movements_of(map.roads@, i, turns@, n as int),
            decreases turns.len() - n,
        {
            let t = turns[n];
            assert(map.turn_ok(turns[n as int], i));
            if t.turn_type != TurnType::SharedSidewalkCorner {
                let from = map.roads[t.id.src.road.0].lanes[t.id.src.offset].get_directed_parent();
                let to = map.roads[t.id.dst.road.0].lanes[t.id.dst.offset].get_directed_parent();
                let id = MovementID {
                    from,
                    to,
                    parent: i,
                    crosswalk: t.turn_type.pedestrian_crossing(),
                };
                let ghost before = movements_view(ms@);
                let k = find_movement(&ms, id);
                if k < ms.len() {
                    ms[k].members.push(t.id);
                } else {
                    let mut members: Vec<TurnID> = Vec::new();
                    members.push(t.id);
                    ms.push(Movement { id, turn_type: t.turn_type, members });
                }
                proof {
                    assert(movements_view(ms@) =~= with_turn(before, id, t));
                }
            }
            n = n + 1;
        }
        ms
    }
}

impl Road {
    /// The direction of the lanes of this road that lead into intersection `i`.
    pub open spec fn dir_towards(self, i: IntersectionID) -> Direction {
        if self.dst_i == i {
            Direction::Fwd
        } else {
            Direction::Back
        }
    }

    /// Whether lane `k` carries vehicles into intersection `i`.
    pub open spec fn travels_to(self, i: IntersectionID, k: int) -> bool {
        &&& 0 <= k < self.lanes.len()
        &&& self.lanes[k].dir == self.dir_towards(i)
        &&& self.lanes[k].lane_type.spec_is_for_moving_vehicles()
    }

    /// The last of the first `n` lanes that carries vehicles into `i`.
    pub open spec fn last_travel(self, i: IntersectionID, n: int) -> Option<int>
        decreases n,
    {
        if n <= 0 {
            None
        } else if self.travels_to(i, n - 1) {
            Some(n - 1)
        } else {
            self.last_travel(i, n - 1)
        }
    }

    /// The first of the first `n` lanes that carries vehicles into `i`.
    pub open spec fn first_travel(self, i: IntersectionID, n: int) -> Option<int>
        decreases n,
    {
        if n <= 0 {
            None
        } else {
            match self.first_travel(i, n - 1) {
                Some(k) => Some(k),
                None => if self.travels_to(i, n - 1) {
                    Some(n - 1)
                } else {
                    None
                },
            }
        }
    }

    /// The lane that carries vehicles into `i` and lies closest to the kerb:
    /// traffic keeps to the right, so it is the rightmost such lane of a road
    /// that ends at `i`, and the leftmost of one that starts there.
    pub open spec fn edge_lane(self, i: IntersectionID) -> Option<LaneID> {
        let k = if self.dir_towards(i) == Direction::Fwd {
            self.last_travel(i, self.lanes.len() as int)
        } else {
            self.first_travel(i, self.lanes.len() as int)
        };
        match k {
            Some(k) => Some(LaneID { road: self.id, offset: k as usize }),
            None => None,
        }
    }

    /// Finds the lane of [`Road::edge_lane`].
    pub fn find_edge_lane(&self, i: IntersectionID) -> (l: Option<LaneID>)
        ensures
            l == self.edge_lane(i),
    {
        let want = if self.dst_i == i {
            Direction::Fwd
        } else {
            Direction::Back
        };
        let mut last: Option<usize> = None;
        let mut first: Option<usize> = None;
        let mut n: usize = 0;
        while n < self.lanes.len()
            invariant
                n <= self.lanes.len(),
                want == self.dir_towards(i),
                match last {
                    Some(k) => self.last_travel(i, n as int) == Some(k as int),
                    None => self.last_travel(i, n as int) == None::<int>,
                },
                match first {
                    Some(k) => self.first_travel(i, n as int) == Some(k as int),
                    None => self.first_travel(i, n as int) == None::<int>,
                },
            decreases self.lanes.len() - n,
        {
            if self.lanes[n].dir == want && self.lanes[n].lane_type.is_for_moving_vehicles() {
                last = Some(n);
                if first.is_none() {
                    first = Some(n);
                }
            }
            n = n + 1;
        }
        let k = if want == Direction::Fwd {
            last
        } else {
            first
        };
        match k {
            Some(k) => Some(LaneID { road: self.id, offset: k }),
            None => None,
        }
    }
}

/// The highest rank among the roads of the first `n` entries.
pub open spec fn max_rank(roads: Seq<Road>, entries: Seq<RoadWithStopSign>, n: int) -> int
    decreases n,
{
    if n <= 0 {
        0
    } else {
        let rest = max_rank(roads, entries, n - 1);
        let rank = roads[entries[n - 1].road.0 as int].rank as int;
        if rank > rest {
            rank
        } else {
            rest
        }
    }
}

/// Whether the roads of the first `n` entries all have rank `rank`.
pub open spec fn all_of_rank(
    roads: Seq<Road>,
    entries: Seq<RoadWithStopSign>,
    n: int,
    rank: int,
) -> bool
    decreases n,
{
    if n <= 0 {
        true
    } else {
        all_of_rank(roads, entries, n - 1, rank) && roads[entries[n - 1].road.0 as int].rank
            == rank
    }
}

/// Who has to stop. Where at most two roads lead in, nobody has. Where all
/// roads have the same rank, everybody has. Otherwise the roads of the highest
/// rank go through and all others stop.
pub open spec fn with_stops(roads: Seq<Road>, entries: Seq<RoadWithStopSign>) -> Seq<
    RoadWithStopSign,
> {
    if entries.len() <= 2 {
        entries
    } else {
        let top = max_rank(roads, entries, entries.len() as int);
        let all_way = all_of_rank(roads, entries, entries.len() as int, top);
        Seq::new(
            entries.len(),
            |k: int|
                RoadWithStopSign {
                    road: entries[k].road,
                    lane_closest_to_edge: entries[k].lane_closest_to_edge,
                    must_stop: all_way || roads[entries[k].road.0 as int].rank != top,
                },
        )
    }
}

/// For each of the first `n` of the roads `at` intersection `i` that has a
/// lane carrying vehicles into it, an entry with that road and its lane
/// closest to the kerb, in which nobody has to stop yet.
pub open spec fn sign_roads(roads: Seq<Road>, at: Seq<RoadID>, i: IntersectionID, n: int) -> Seq<
    RoadWithStopSign,
>
    decreases n,
{
    if n <= 0 {
        Seq::empty()
    } else {
        let before = sign_roads(roads, at, i, n - 1);
        let r = at[n - 1];
        match roads[r.0 as int].edge_lane(i) {
            Some(l) => before.push(
                RoadWithStopSign { road: r, lane_closest_to_edge: l, must_stop: false },
            ),
            None => before,
        }
    }
}

/// The stop signs that intersection `i`, where the roads `at` meet, gets from
/// its roads and their lanes alone.
pub open spec fn default_stop_sign(
    roads: Seq<Road>,
    at: Seq<RoadID>,
    i: IntersectionID,
) -> ControlStopSignView {
    ControlStopSignView {
        id: i,
        roads: with_stops(roads, sign_roads(roads, at, i, at.len() as int)),
    }
}

/// Whether two roads are the same in what stop signs depend on: their name,
/// where they end, their rank, and the type and direction of their lanes.
pub open spec fn same_for_signs(a: Road, b: Road) -> bool {
    &&& a.id == b.id
    &&& a.dst_i == b.dst_i
    &&& a.rank == b.rank
    &&& crate::road::specs_of(a.lanes@) == crate::road::specs_of(b.lanes@)
}

/// The lane closest to the kerb depends on the type and direction of the
/// lanes only.
pub proof fn lemma_edge_lane_frame(a: Road, b: Road, i: IntersectionID)
    requires
        same_for_signs(a, b),
    ensures
        a.edge_lane(i) == b.edge_lane(i),
{
    assert(crate::road::specs_of(a.lanes@).len() == a.lanes.len());
    assert(crate::road::specs_of(b.lanes@).len() == b.lanes.len());
    lemma_travel_frame(a, b, i, a.lanes.len() as int);
}

/// Which lanes carry vehicles into an intersection depends on the type and
/// direction of the lanes only.
pub proof fn lemma_travel_frame(a: Road, b: Road, i: IntersectionID, n: int)
    requires
        same_for_signs(a, b),
        0 <= n <= a.lanes.len(),
    ensures
        a.last_travel(i, n) == b.last_travel(i, n),
        a.first_travel(i, n) == b.first_travel(i, n),
    decreases n,
{
    assert(crate::road::specs_of(a.lanes@).len() == a.lanes.len());
    assert(crate::road::specs_of(b.lanes@).len() == b.lanes.len());
    if n > 0 {
        lemma_travel_frame(a, b, i, n - 1);
        assert(crate::road::specs_of(a.lanes@)[n - 1] == a.lanes[n - 1].spec_of());
        assert(crate::road::specs_of(b.lanes@)[n - 1] == b.lanes[n - 1].spec_of());
    }
}

/// The stop signs that follow from the roads depend only on what
/// [`same_for_signs`] compares, of the roads that meet at the intersection.
pub proof fn lemma_default_signs_frame(
    a: Seq<Road>,
    b: Seq<Road>,
    at: Seq<RoadID>,
    i: IntersectionID,
)
    requires
        a.len() == b.len(),
        forall|k: int|
            0 <= k < at.len() ==> (#[trigger] at[k]).0 < a.len() && same_for_signs(
                a[at[k].0 as int],
                b[at[k].0 as int],
            ),
    ensures
        default_stop_sign(a, at, i) == default_stop_sign(b, at, i),
{
    lemma_sign_roads_frame(a, b, at, i, at.len() as int);
    let entries = sign_roads(a, at, i, at.len() as int);
    lemma_sign_roads_within(a, at, i, at.len() as int);
    lemma_ranks_frame(a, b, at, entries, entries.len() as int);
    if entries.len() > 2 {
        let top = max_rank(a, entries, entries.len() as int);
        lemma_all_of_rank_frame(a, b, at, entries, entries.len() as int, top);
        assert(with_stops(a, entries) =~= with_stops(b, entries)) by {
            assert forall|k: int| 0 <= k < entries.len() implies a[entries[k].road.0 as int].rank
                == b[entries[k].road.0 as int].rank by {
                assert(at.contains(entries[k].road));
                let w = choose|w: int| 0 <= w < at.len() && at[w] == entries[k].road;
                assert(same_for_signs(a[at[w].0 as int], b[at[w].0 as int]));
            }
        }
    }
}

/// See [`lemma_default_signs_frame`].
pub proof fn lemma_sign_roads_frame(
    a: Seq<Road>,
    b: Seq<Road>,
    at: Seq<RoadID>,
    i: IntersectionID,
    n: int,
)
    requires
        a.len() == b.len(),
        0 <= n <= at.len(),
        forall|k: int|
            0 <= k < at.len() ==> (#[trigger] at[k]).0 < a.len() && same_for_signs(
                a[at[k].0 as int],
                b[at[k].0 as int],
            ),
    ensures
        sign_roads(a, at, i, n) == sign_roads(b, at, i, n),
    decreases n,
{
    if n > 0 {
        lemma_sign_roads_frame(a, b, at, i, n - 1);
        assert(same_for_signs(a[at[n - 1].0 as int], b[at[n - 1].0 as int]));
        lemma_edge_lane_frame(a[at[n - 1].0 as int], b[at[n - 1].0 as int], i);
    }
}

/// Every entry is for one of the roads.
pub proof fn lemma_sign_roads_within(a: Seq<Road>, at: Seq<RoadID>, i: IntersectionID, n: int)
    requires
        0 <= n <= at.len(),
    ensures
        forall|k: int|
            0 <= k < sign_roads(a, at, i, n).len() ==> at.contains(
                (#[trigger] sign_roads(a, at, i, n)[k]).road,
            ),
    decreases n,
{
    if n > 0 {
        lemma_sign_roads_within(a, at, i, n - 1);
        let before = sign_roads(a, at, i, n - 1);
        assert forall|k: int| 0 <= k < sign_roads(a, at, i, n).len() implies at.contains(
            (#[trigger] sign_roads(a, at, i, n)[k]).road,
        ) by {
            if k < before.len() {
                assert(at.contains(before[k].road));
            } else {
                assert(at[n - 1] == sign_roads(a, at, i, n)[k].road);
            }
        }
    }
}

/// See [`lemma_default_signs_frame`].
pub proof fn lemma_ranks_frame(
    a: Seq<Road>,
    b: Seq<Road>,
    at: Seq<RoadID>,
    entries: Seq<RoadWithStopSign>,
    n: int,
)
    requires
        a.len() == b.len(),
        0 <= n <= entries.len(),
        forall|k: int|
            0 <= k < at.len() ==> (#[trigger] at[k]).0 < a.len() && same_for_signs(
                a[at[k].0 as int],
                b[at[k].0 as int],
            ),
        forall|k: int| 0 <= k < entries.len() ==> at.contains((#[trigger] entries[k]).road),
    ensures
        max_rank(a, entries, n) == max_rank(b, entries, n),
    decreases n,
{
    if n > 0 {
        lemma_ranks_frame(a, b, at, entries, n - 1);
        assert(at.contains(entries[n - 1].road));
        let w = choose|w: int| 0 <= w < at.len() && at[w] == entries[n - 1].road;
        assert(same_for_signs(a[at[w].0 as int], b[at[w].0 as int]));
    }
}

/// See [`lemma_default_signs_frame`].
pub proof fn lemma_all_of_rank_frame(
    a: Seq<Road>,
    b: Seq<Road>,
    at: Seq<RoadID>,
    entries: Seq<RoadWithStopSign>,
    n: int,
    rank: int,
)
    requires
        a.len() == b.len(),
        0 <= n <= entries.len(),
        forall|k: int|
            0 <= k < at.len() ==> (#[trigger] at[k]).0 < a.len() && same_for_signs(
                a[at[k].0 as int],
                b[at[k].0 as int],
            ),
        forall|k: int| 0 <= k < entries.len() ==> at.contains((#[trigger] entries[k]).road),
    ensures
        all_of_rank(a, entries, n, rank) == all_of_rank(b, entries, n, rank),
    decreases n,
{
    if n > 0 {
        lemma_all_of_rank_frame(a, b, at, entries, n - 1, rank);
        assert(at.contains(entries[n - 1].road));
        let w = choose|w: int| 0 <= w < at.len() && at[w] == entries[n - 1].road;
        assert(same_for_signs(a[at[w].0 as int], b[at[w].0 as int]));
    }
}

impl StreetMap {
    /// The stop signs of an intersection stay the ones that follow from the
    /// roads, in a map whose roads that meet there are the same in what stop
    /// signs depend on.
    pub proof fn lemma_signs_stay(&self, other: &StreetMap, i: int)
        requires
            0 <= i < self.intersections.len(),
            self.intersection_ok(i),
            other.roads.len() == self.roads.len(),
            other.intersections.len() == self.intersections.len(),
            other.intersections[i].roads == self.intersections[i].roads,
            other.intersections[i].id == self.intersections[i].id,
            forall|k: int|
                0 <= k < self.intersections[i].roads.len() ==> same_for_signs(
                    self.roads[(#[trigger] self.intersections[i].roads[k]).0 as int],
                    other.roads[self.intersections[i].roads[k].0 as int],
                ),
        ensures
            default_stop_sign(
                other.roads@,
                other.intersections[i].roads@,
                other.intersections[i].id,
            ) == default_stop_sign(
                self.roads@,
                self.intersections[i].roads@,
                self.intersections[i].id,
            ),
    {
        let at = self.intersections[i].roads@;
        assert forall|k: int| 0 <= k < at.len() implies (#[trigger] at[k]).0 < self.roads@.len()
            && same_for_signs(self.roads@[at[k].0 as int], other.roads@[at[k].0 as int]) by {
            assert(self.touches(self.intersections[i].roads[k], self.intersections[i].id));
            assert(same_for_signs(
                self.roads[self.intersections[i].roads[k].0 as int],
                other.roads[self.intersections[i].roads[k].0 as int],
            ));
        }
        lemma_default_signs_frame(self.roads@, other.roads@, at, self.intersections[i].id);
    }
}

impl ControlStopSign {
    /// The stop signs that an intersection gets from its roads and lanes alone.
    pub fn new(map: &StreetMap, i: IntersectionID) -> (ss: ControlStopSign)
        requires
            map.has_intersection(i),
            map.intersection_ok(i.0 as int),
        ensures
            ss@ == default_stop_sign(map.roads@, map.intersections[i.0 as int].roads@, i),
    {
        let x = &map.intersections[i.0];
        let mut entries: Vec<RoadWithStopSign> = Vec::new();
        let mut n: usize = 0;
        while n < x.roads.len()
            invariant
                n <= x.roads.len(),
                map.has_intersection(i),
                map.intersection_ok(i.0 as int),
                x == &map.intersections[i.0 as int],
                entries@ == sign_roads(map.roads@, x.roads@, i, n as int),
                forall|k: int| 0 <= k < entries.len() ==> map.has_road(#[trigger] entries[k].road),
            decreases x.roads.len() - n,
        {
            let r = x.roads[n];
            assert(map.touches(x.roads[n as int], x.id));
            match map.roads[r.0].find_edge_lane(i) {
                Some(l) => {
                    entries.push(
                        RoadWithStopSign { road: r, lane_closest_to_edge: l, must_stop: false },
                    );
                },
                None => {},
            }
            n = n + 1;
        }
        if entries.len() <= 2 {
            return ControlStopSign { id: i, roads: entries };
        }
        let mut top: usize = 0;
        let mut k: usize = 0;
        while k < entries.len()
            invariant
                k <= entries.len(),
                top == max_rank(map.roads@, entries@, k as int),
                forall|j: int| 0 <= j < entries.len() ==> map.has_road(#[trigger] entries[j].road),
            decreases entries.len() - k,
        {
            assert(map.has_road(entries[k as int].road));
            let rank = map.roads[entries[k].road.0].rank;
            if rank > top {
                top = rank;
            }
            k = k + 1;
        }
        let mut all_way = true;
        let mut k: usize = 0;
        while k < entries.len()
            invariant
                k <= entries.len(),
                all_way == all_of_rank(map.roads@, entries@, k as int, top as int),
                forall|j: int| 0 <= j < entries.len() ==> map.has_road(#[trigger] entries[j].road),
            decreases entries.len() - k,
        {
            assert(map.has_road(entries[k as int].road));
            if map.roads[entries[k].road.0].rank != top {
                all_way = false;
            }
            k = k + 1;
        }
        let mut roads: Vec<RoadWithStopSign> = Vec::new();
        let mut k: usize = 0;
        while k < entries.len()
            invariant
                k <= entries.len(),
                entries.len() > 2,
                top == max_rank(map.roads@, entries@, entries.len() as int),
                all_way == all_of_rank(map.roads@, entries@, entries.len() as int, top as int),
                roads@ == with_stops(map.roads@, entries@).take(k as int),
                forall|j: int| 0 <= j < entries.len() ==> map.has_road(#[trigger] entries[j].road),
            decreases entries.len() - k,
        {
            assert(map.has_road(entries[k as int].road));
            let e = entries[k];
            roads.push(
                RoadWithStopSign {
                    road: e.road,
                    lane_closest_to_edge: e.lane_closest_to_edge,
                    must_stop: all_way || map.roads[e.road.0].rank != top,
                },
            );
            proof {
                assert(roads@ =~= with_stops(map.roads@, entries@).take(k + 1));
            }
            k = k + 1;
        }
        proof {
            assert(with_stops(map.roads@, entries@).take(k as int) =~= with_stops(map.roads@,
                entries@));
        }
        ControlStopSign { id: i, roads }
    }
}

/// How long each stage of a signal lasts when nothing else is given: thirty
/// seconds.
pub open spec fn default_stage_duration() -> Duration {
    Duration(300_000)
}

/// The timing that a signal gets from the movements of its intersection
/// alone: one stage for each movement, in which that movement alone goes.
pub open spec fn default_timing(ms: Seq<MovementView>) -> TrafficSignalView {
    TrafficSignalView {
        offset: Duration(0),
        stage_durations: Seq::new(ms.len(), |k: int| default_stage_duration()),
        entries: Seq::new(
            ms.len(),
            |k: int|
                SignalEntry {
                    stage: k as usize,
                    movement: ms[k].id,
                    priority: TurnPriority::Protected,
                },
        ),
    }
}

/// Whether a timing fits an intersection with the given movements: every
/// entry names a stage of the timing and a movement of the intersection.
pub open spec fn timing_fits(raw: TrafficSignalView, ms: Seq<MovementView>) -> bool {
    forall|k: int|
        0 <= k < raw.entries.len() ==> {
            &&& (#[trigger] raw.entries[k]).stage < raw.stage_durations.len()
            &&& movement_index(ms, raw.entries[k].movement) < ms.len()
        }
}

impl ControlTrafficSignal {
    /// The signal that an intersection gets from its movements alone.
    pub fn new(map: &StreetMap, i: IntersectionID) -> (ts: ControlTrafficSignal)
        requires
            map.has_intersection(i),
        ensures
            ts.id == i,
            ts.timing@ == default_timing(movements_view(map.intersections[i.0 as int].movements@)),
    {
        let ms = &map.intersections[i.0].movements;
        let mut stage_durations: Vec<Duration> = Vec::new();
        let mut entries: Vec<SignalEntry> = Vec::new();
        let mut k: usize = 0;
        while k < ms.len()
            invariant
                k <= ms.len(),
                stage_durations@ == default_timing(movements_view(ms@)).stage_durations.take(
                    k as int,
                ),
                entries@ == default_timing(movements_view(ms@)).entries.take(k as int),
            decreases ms.len() - k,
        {
            stage_durations.push(Duration(300_000));
            entries.push(
                SignalEntry { stage: k, movement: ms[k].id, priority: TurnPriority::Protected },
            );
            proof {
                assert(stage_durations@ =~= default_timing(
                    movements_view(ms@),
                ).stage_durations.take(k + 1));
                assert(entries@ =~= default_timing(movements_view(ms@)).entries.take(k + 1));
            }
            k = k + 1;
        }
        proof {
            let d = default_timing(movements_view(ms@));
            assert(d.stage_durations.take(k as int) =~= d.stage_durations);
            assert(d.entries.take(k as int) =~= d.entries);
        }
        ControlTrafficSignal {
            id: i,
            timing: TrafficSignal { offset: Duration(0), stage_durations, entries },
        }
    }

    /// Installs a stored timing at an intersection, if it fits the movements
    /// that the intersection has now.
    pub fn import(raw: TrafficSignal, i: IntersectionID, map: &StreetMap) -> (r: Option<
        ControlTrafficSignal,
    >)
        requires
            map.has_intersection(i),
        ensures
            r.is_some() == timing_fits(
                raw@,
                movements_view(map.intersections[i.0 as int].movements@),
            ),
            match r {
                Some(ts) => ts.id == i && ts.timing@ == raw@,
                None => true,
            },
    {
        let ms = &map.intersections[i.0].movements;
        let mut k: usize = 0;
        while k < raw.entries.len()
            invariant
                k <= raw.entries.len(),
                map.has_intersection(i),
                ms == &map.intersections[i.0 as int].movements,
                forall|j: int|
                    0 <= j < k ==> {
                        &&& (#[trigger] raw.entries@[j]).stage < raw.stage_durations.len()
                        &&& movement_index(movements_view(ms@), raw.entries@[j].movement)
                            < ms.len()
                    },
            decreases raw.entries.len() - k,
        {
            let e = raw.entries[k];
            if e.stage >= raw.stage_durations.len() || find_movement(ms, e.movement) >= ms.len() {
                proof {
                    assert(!(raw@.entries[k as int].stage < raw@.stage_durations.len()
                        && movement_index(movements_view(ms@), raw@.entries[k as int].movement)
                        < movements_view(ms@).len()));
                }
                return None;
            }
            k = k + 1;
        }
        Some(ControlTrafficSignal { id: i, timing: raw })
    }
}

} // verus!
