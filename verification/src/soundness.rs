//! Telling whether a map is sound.

use vstd::prelude::*;
use crate::control::ControlStopSign;
use crate::ids::{IntersectionID, LaneID, RoadID};
use crate::intersection::Control;
use crate::map::StreetMap;

verus! {

/// Whether no road comes twice in the list.
fn all_distinct(roads: &Vec<RoadID>) -> (b: bool)
    ensures
        b == roads@.no_duplicates(),
{
    let mut a: usize = 0;
    while a < roads.len()
        invariant
            a <= roads.len(),
            forall|x: int, y: int| 0 <= x < a && x < y < roads.len() ==> roads@[x] != roads@[y],
        decreases roads.len() - a,
    {
        let mut b: usize = a + 1;
        while b < roads.len()
            invariant
                a < b <= roads.len(),
                forall|y: int| a < y < b ==> roads@[a as int] != roads@[y],
            decreases roads.len() - b,
        {
            if roads[a] == roads[b] {
                return false;
            }
            b = b + 1;
        }
        a = a + 1;
    }
    proof {
        assert forall|x: int, y: int|
            0 <= x < roads@.len() && 0 <= y < roads@.len() && x != y implies roads@[x]
            != roads@[y] by {
            if x < y {
            } else {
                assert(roads@[y] != roads@[x]);
            }
        }
    }
    true
}

impl StreetMap {
    /// Whether road number `r` is sound: see [`StreetMap::road_ok`].
    pub fn is_road_ok(&self, r: usize) -> (b: bool)
        requires
            r < self.roads.len(),
        ensures
            b == self.road_ok(r as int),
    {
        let road = &self.roads[r];
        if road.id != RoadID(r) || road.src_i.0 >= self.intersections.len() || road.dst_i.0
            >= self.intersections.len() {
            return false;
        }
        if !crate::vecs::vec_contains(&self.intersections[road.src_i.0].roads, road.id)
            || !crate::vecs::vec_contains(&self.intersections[road.dst_i.0].roads, road.id) {
            return false;
        }
        let mut j: usize = 0;
        while j < road.lanes.len()
            invariant
                j <= road.lanes.len(),
                road == &self.roads[r as int],
                road.id == RoadID(r),
                self.has_intersection(road.src_i),
                self.has_intersection(road.dst_i),
                self.intersections[road.src_i.0 as int].roads@.contains(road.id),
                self.intersections[road.dst_i.0 as int].roads@.contains(road.id),
                forall|x: int|
                    0 <= x < j ==> (#[trigger] road.lanes[x]).id == (LaneID {
                        road: road.id,
                        offset: x as usize,
                    }),
            decreases road.lanes.len() - j,
        {
            if road.lanes[j].id != (LaneID { road: road.id, offset: j }) {
                proof {
                    assert(road.lanes[j as int].id != (LaneID {
                        road: road.id,
                        offset: j as int as usize,
                    }));
                }
                return false;
            }
            j = j + 1;
        }
        true
    }

    /// Whether intersection number `i` is sound, with its turns: see
    /// [`StreetMap::intersection_ok`] and [`StreetMap::turns_ok`].
    pub fn is_intersection_ok(&self, i: usize) -> (b: bool)
        requires
            i < self.intersections.len(),
        ensures
            b == (self.intersection_ok(i as int) && self.turns_ok(i as int)),
    {
        let x = &self.intersections[i];
        if x.id != IntersectionID(i) {
            return false;
        }
        let mut k: usize = 0;
        while k < x.roads.len()
            invariant
                k <= x.roads.len(),
                x == &self.intersections[i as int],
                x.id == IntersectionID(i),
                forall|j: int| 0 <= j < k ==> self.touches(#[trigger] x.roads[j], x.id),
            decreases x.roads.len() - k,
        {
            let r = x.roads[k];
            if r.0 >= self.roads.len() || !(self.roads[r.0].src_i == x.id || self.roads[r.0].dst_i
                == x.id) {
                assert(!self.touches(x.roads[k as int], x.id));
                return false;
            }
            k = k + 1;
        }
        if !all_distinct(&x.roads) {
            return false;
        }
        if (x.is_border() || x.is_closed()) && x.turns.len() > 0 {
            return false;
        }
        let mut k: usize = 0;
        while k < x.turns.len()
            invariant
                k <= x.turns.len(),
                x == &self.intersections[i as int],
                forall|j: int| 0 <= j < k ==> (#[trigger] x.turns[j]).id.parent == x.id,
            decreases x.turns.len() - k,
        {
            if x.turns[k].id.parent != x.id {
                return false;
            }
            k = k + 1;
        }
        if !crate::turn::names_are_distinct(&x.turns) {
            return false;
        }
        let signs_ok = match &x.control {
            Control::StopSign(ss) => ss.same_as(&ControlStopSign::new(self, x.id)),
            Control::Uncontrolled(ss) => ss.same_as(&ControlStopSign::new(self, x.id)),
            _ => true,
        };
        if !signs_ok {
            return false;
        }
        let mut k: usize = 0;
        while k < x.turns.len()
            invariant
                k <= x.turns.len(),
                x == &self.intersections[i as int],
                forall|j: int| 0 <= j < k ==> self.turn_ok(#[trigger] x.turns[j], x.id),
            decreases x.turns.len() - k,
        {
            if !self.turn_fits(x.turns[k], x.id) {
                return false;
            }
            k = k + 1;
        }
        true
    }

    /// Whether the roads and intersections name each other rightly: see
    /// [`StreetMap::refs_ok`].
    pub fn has_valid_refs(&self) -> (b: bool)
        ensures
            b == self.refs_ok(),
    {
        let mut r: usize = 0;
        while r < self.roads.len()
            invariant
                r <= self.roads.len(),
                forall|q: int|
                    0 <= q < r ==> self.has_intersection((#[trigger] self.roads[q]).src_i)
                        && self.has_intersection(self.roads[q].dst_i),
            decreases self.roads.len() - r,
        {
            if self.roads[r].src_i.0 >= self.intersections.len() || self.roads[r].dst_i.0
                >= self.intersections.len() {
                return false;
            }
            r = r + 1;
        }
        let mut i: usize = 0;
        while i < self.intersections.len()
            invariant
                i <= self.intersections.len(),
                forall|q: int|
                    0 <= q < self.roads.len() ==> self.has_intersection(
                        (#[trigger] self.roads[q]).src_i,
                    ) && self.has_intersection(self.roads[q].dst_i),
                forall|j: int, k: int|
                    0 <= j < i && 0 <= k < self.intersections[j].roads.len() ==> self.has_road(
                        #[trigger] self.intersections[j].roads[k],
                    ),
            decreases self.intersections.len() - i,
        {
            let n = self.intersections[i].roads.len();
            let mut k: usize = 0;
            while k < n
                invariant
                    k <= n,
                    i < self.intersections.len(),
                    n == self.intersections[i as int].roads.len(),
                    forall|x: int|
                        0 <= x < k
                            ==> self.has_road(#[trigger] self.intersections[i as int].roads[x]),
                decreases n - k,
            {
                if self.intersections[i].roads[k].0 >= self.roads.len() {
                    return false;
                }
                k = k + 1;
            }
            i = i + 1;
        }
        true
    }

    /// Whether the map is sound: see [`StreetMap::wf`].
    pub fn is_well_formed(&self) -> (b: bool)
        ensures
            b == self.wf(),
    {
        let mut r: usize = 0;
        while r < self.roads.len()
            invariant
                r <= self.roads.len(),
                forall|q: int| 0 <= q < r ==> #[trigger] self.road_ok(q),
            decreases self.roads.len() - r,
        {
            if !self.is_road_ok(r) {
                return false;
            }
            r = r + 1;
        }
        let mut i: usize = 0;
        while i < self.intersections.len()
            invariant
                i <= self.intersections.len(),
                forall|j: int| 0 <= j < i ==> #[trigger] self.intersection_ok(j),
                forall|j: int| 0 <= j < i ==> #[trigger] self.turns_ok(j),
            decreases self.intersections.len() - i,
        {
            if !self.is_intersection_ok(i) {
                return false;
            }
            i = i + 1;
        }
        self.has_all_targets(&self.edits.commands)
    }
}

} // verus!
