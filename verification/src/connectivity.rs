//! Which lanes trips can be completed from: the lanes of the largest group
//! of lanes that can all be reached from each other.

use vstd::prelude::*;
use petgraph::graphmap::DiGraphMap;
use crate::ids::{LaneID, RoadID};
use crate::lane::PathConstraints;
use crate::map::StreetMap;
use crate::turn::Turn;
use crate::vecs::vec_contains;

verus! {

/// Whether `to` is reached from `from` along at most `n` of the given edges.
pub open spec fn reaches_within(
    edges: Seq<(LaneID, LaneID)>,
    from: LaneID,
    to: LaneID,
    n: nat,
) -> bool
    decreases n,
{
    from == to || (n > 0 && exists|k: int|
        0 <= k < edges.len() && (#[trigger] edges[k]).0 == from && reaches_within(
            edges,
            edges[k].1,
            to,
            (n - 1) as nat,
        ))
}

/// Whether `to` is reached from `from` along the given edges.
pub open spec fn reaches(edges: Seq<(LaneID, LaneID)>, from: LaneID, to: LaneID) -> bool {
    exists|n: nat| reaches_within(edges, from, to, n)
}

/// Whether an edge begins or ends at the lane.
pub open spec fn is_node(edges: Seq<(LaneID, LaneID)>, l: LaneID) -> bool {
    exists|k: int| 0 <= k < edges.len() && ((#[trigger] edges[k]).0 == l || edges[k].1 == l)
}

/// Whether the groups are the strongly connected components of the graph with
/// the given edges: every lane at which an edge begins or ends is in one
/// group, once, and two such lanes are in the same group if and only if each
/// is reached from the other.
pub open spec fn are_components(edges: Seq<(LaneID, LaneID)>, groups: Seq<Vec<LaneID>>) -> bool {
    &&& forall|c: int, j: int|
        0 <= c < groups.len() && 0 <= j < groups[c].len() ==> is_node(
            edges,
            #[trigger] groups[c][j],
        )
    &&& forall|l: LaneID| #[trigger]
        is_node(edges, l) ==> exists|c: int| 0 <= c < groups.len()
            && (#[trigger] groups[c])@.contains(l)
    &&& forall|c1: int, j1: int, c2: int, j2: int|
        0 <= c1 < groups.len() && 0 <= j1 < groups[c1].len() && 0 <= c2 < groups.len() && 0 <= j2
            < groups[c2].len() && #[trigger] groups[c1][j1] == #[trigger] groups[c2][j2] ==> c1
            == c2 && j1 == j2
    &&& forall|c1: int, j1: int, c2: int, j2: int|
        0 <= c1 < groups.len() && 0 <= j1 < groups[c1].len() && 0 <= c2 < groups.len() && 0 <= j2
            < groups[c2].len() ==> (c1 == c2 <==> reaches(
            edges,
            #[trigger] groups[c1][j1],
            #[trigger] groups[c2][j2],
        ) && reaches(edges, groups[c2][j2], groups[c1][j1]))
}

/// The strongly connected components of the graph with the given edges, as
/// `petgraph::algo::kosaraju_scc` gives them for the graph that
/// `petgraph::graphmap::GraphMap::from_edges` makes of the edges. This
/// contract is not proved. It says what strongly connected components are,
/// and nothing of the order in which they come.
#[verifier::external_body]
fn strongly_connected(edges: &Vec<(LaneID, LaneID)>) -> (groups: Vec<Vec<LaneID>>)
    ensures
        are_components(edges@, groups@),
{
    let graph: DiGraphMap<(usize, usize), ()> = DiGraphMap::from_edges(
        edges.iter().map(|(a, b)| ((a.road.0, a.offset), (b.road.0, b.offset))),
    );
    petgraph::algo::kosaraju_scc(&graph).into_iter().map(
        |group| group.into_iter().map(|(r, o)| LaneID { road: RoadID(r), offset: o }).collect(),
    ).collect()
}

/// The edges that the first `n` of the given turns give for `who`: from the
/// first lane of a turn to its second, if `who` may use both.
pub open spec fn turn_edges(
    roads: Seq<crate::road::Road>,
    turns: Seq<Turn>,
    who: PathConstraints,
    n: int,
) -> Seq<(LaneID, LaneID)>
    decreases n,
{
    if n <= 0 {
        Seq::empty()
    } else {
        let t = turns[n - 1];
        let before = turn_edges(roads, turns, who, n - 1);
        if who.spec_can_use(roads[t.id.src.road.0 as int].lanes[t.id.src.offset as int].lane_type)
            && who.spec_can_use(
            roads[t.id.dst.road.0 as int].lanes[t.id.dst.offset as int].lane_type,
        ) {
            before.push((t.id.src, t.id.dst))
        } else {
            before
        }
    }
}

/// The position of the last of the first `n` groups of greatest size.
pub open spec fn largest(groups: Seq<Vec<LaneID>>, n: int) -> int
    decreases n,
{
    if n <= 1 {
        0
    } else {
        let before = largest(groups, n - 1);
        if groups[n - 1].len() >= groups[before].len() {
            n - 1
        } else {
            before
        }
    }
}

/// The largest group is one of the groups, and none is larger.
pub proof fn lemma_largest(groups: Seq<Vec<LaneID>>, n: int)
    requires
        1 <= n <= groups.len(),
    ensures
        0 <= largest(groups, n) < n,
        forall|c: int| 0 <= c < n ==> (#[trigger] groups[c]).len() <= groups[largest(groups,
            n)].len(),
    decreases n,
{
    if n > 1 {
        lemma_largest(groups, n - 1);
    }
}

/// The lanes of the largest group can all be reached from each other, and
/// no lane outside of it can both be reached from one of them and reach it.
pub proof fn lemma_largest_group(
    edges: Seq<(LaneID, LaneID)>,
    groups: Seq<Vec<LaneID>>,
    a: LaneID,
    b: LaneID,
)
    requires
        are_components(edges, groups),
        groups.len() > 0,
        groups[largest(groups, groups.len() as int)]@.contains(a),
        is_node(edges, b),
    ensures
        groups[largest(groups, groups.len() as int)]@.contains(b) <==> (reaches(edges, a, b)
            && reaches(edges, b, a)),
{
    lemma_largest(groups, groups.len() as int);
    let top = largest(groups, groups.len() as int);
    let ja = choose|j: int| 0 <= j < groups[top]@.len() && groups[top]@[j] == a;
    assert(groups[top][ja] == a);
    let cb = choose|c: int| 0 <= c < groups.len() && (#[trigger] groups[c])@.contains(b);
    let jb = choose|j: int| 0 <= j < groups[cb]@.len() && groups[cb]@[j] == b;
    assert(groups[cb][jb] == b);
    if groups[top]@.contains(b) {
        let j = choose|j: int| 0 <= j < groups[top]@.len() && groups[top]@[j] == b;
        assert(groups[top][j] == groups[cb][jb]);
    }
    assert(top == cb <==> (reaches(edges, groups[top][ja], groups[cb][jb]) && reaches(
        edges,
        groups[cb][jb],
        groups[top][ja],
    )));
}

impl StreetMap {
    /// The edges of the graph for `who`, from the turns of the first `n`
    /// intersections: see [`turn_edges`].
    pub open spec fn edges_for(&self, who: PathConstraints, n: int) -> Seq<(LaneID, LaneID)>
        decreases n,
    {
        if n <= 0 {
            Seq::empty()
        } else {
            self.edges_for(who, n - 1) + turn_edges(
                self.roads@,
                self.intersections[n - 1].turns@,
                who,
                self.intersections[n - 1].turns.len() as int,
            )
        }
    }

    /// Whether `who` may use the lane at position `j` of road `r`, and the
    /// lane is not in the largest of the given groups. If there is no group,
    /// no lane is a blackhole.
    pub open spec fn is_blackhole(
        &self,
        who: PathConstraints,
        groups: Seq<Vec<LaneID>>,
        r: int,
        j: int,
    ) -> bool {
        &&& groups.len() > 0
        &&& who.spec_can_use(self.roads[r].lanes[j].lane_type)
        &&& !groups[largest(groups, groups.len() as int)]@.contains(
            LaneID { road: RoadID(r as usize), offset: j as usize },
        )
    }

    /// Collects the edges of the graph for `who`: see
    /// [`StreetMap::edges_for`].
    pub fn usable_turns(&self, who: PathConstraints) -> (edges: Vec<(LaneID, LaneID)>)
        requires
            self.wf(),
        ensures
            edges@ == self.edges_for(who, self.intersections.len() as int),
    {
        let mut edges: Vec<(LaneID, LaneID)> = Vec::new();
        let mut i: usize = 0;
        while i < self.intersections.len()
            invariant
                i <= self.intersections.len(),
                self.wf(),
                edges@ == self.edges_for(who, i as int),
            decreases self.intersections.len() - i,
        {
            let turns = &self.intersections[i].turns;
            let ghost before = edges@;
            let mut k: usize = 0;
            proof {
                assert(self.turns_ok(i as int));
                assert(self.intersection_ok(i as int));
                assert(edges@ =~= before + turn_edges(self.roads@, turns@, who, 0));
            }
            while k < turns.len()
                invariant
                    k <= turns.len(),
                    i < self.intersections.len(),
                    self.wf(),
                    turns == &self.intersections[i as int].turns,
                    edges@ == before + turn_edges(self.roads@, turns@, who, k as int),
                decreases turns.len() - k,
            {
                let t = turns[k];
                proof {
                    assert(self.turns_ok(i as int));
                    assert(self.turn_ok(
                        self.intersections[i as int].turns[k as int],
                        self.intersections[i as int].id,
                    ));
                }
                if who.can_use(self.roads[t.id.src.road.0].lanes[t.id.src.offset].lane_type)
                    && who.can_use(self.roads[t.id.dst.road.0].lanes[t.id.dst.offset].lane_type) {
                    edges.push((t.id.src, t.id.dst));
                }
                proof {
                    assert(edges@ =~= before + turn_edges(self.roads@, turns@, who, k + 1));
                }
                k = k + 1;
            }
            i = i + 1;
        }
        edges
    }

    /// The lanes that `who` may use and that are not in the largest of the
    /// given groups of lanes, road by road: see [`StreetMap::is_blackhole`].
    pub fn blackholes_of(
        &self,
        who: PathConstraints,
        groups: &Vec<Vec<LaneID>>,
    ) -> (lanes: Vec<LaneID>)
        ensures
            forall|r: int, j: int|
                0 <= r < self.roads.len() && 0 <= j < self.roads[r].lanes.len()
                    ==> (lanes@.contains(
                    LaneID { road: RoadID(r as usize), offset: j as usize },
                ) <==> #[trigger] self.is_blackhole(who, groups@, r, j)),
            forall|k: int|
                0 <= k < lanes.len() ==> self.has_lane(#[trigger] lanes[k]),
    {
        let mut lanes: Vec<LaneID> = Vec::new();
        if groups.len() == 0 {
            return lanes;
        }
        let mut best: usize = 0;
        let mut c: usize = 1;
        while c < groups.len()
            invariant
                1 <= c <= groups.len(),
                best == largest(groups@, c as int),
                best < c,
            decreases groups.len() - c,
        {
            if groups[c].len() >= groups[best].len() {
                best = c;
            }
            c = c + 1;
        }
        let group = &groups[best];
        let mut r: usize = 0;
        while r < self.roads.len()
            invariant
                r <= self.roads.len(),
                groups.len() > 0,
                best == largest(groups@, groups.len() as int),
                best < groups.len(),
                group == &groups[best as int],
                forall|k: int| 0 <= k < lanes.len() ==> self.has_lane(#[trigger] lanes[k]),
                forall|l: LaneID| #[trigger]
                    lanes@.contains(l) <==> (l.road.0 < r && l.offset
                        < self.roads[l.road.0 as int].lanes.len() && self.is_blackhole(
                        who,
                        groups@,
                        l.road.0 as int,
                        l.offset as int,
                    )),
            decreases self.roads.len() - r,
        {
            let n = self.roads[r].lanes.len();
            let mut j: usize = 0;
            while j < n
                invariant
                    j <= n,
                    r < self.roads.len(),
                    n == self.roads[r as int].lanes.len(),
                    groups.len() > 0,
                    best == largest(groups@, groups.len() as int),
                    best < groups.len(),
                    group == &groups[best as int],
                    forall|k: int| 0 <= k < lanes.len() ==> self.has_lane(#[trigger] lanes[k]),
                    forall|l: LaneID| #[trigger]
                        lanes@.contains(l) <==> (l.offset < self.roads[l.road.0 as int].lanes.len()
                            && (l.road.0 < r || (l.road.0 == r && l.offset < j))
                            && self.is_blackhole(who, groups@, l.road.0 as int, l.offset as int)),
                decreases n - j,
            {
                let id = LaneID { road: RoadID(r), offset: j };
                let ghost before = lanes@;
                if who.can_use(self.roads[r].lanes[j].lane_type) && !vec_contains(group, id) {
                    lanes.push(id);
                }
                proof {
                    crate::id_set::lemma_push_contains(before, id);
                    assert forall|l: LaneID| #[trigger]
                        lanes@.contains(l) <==> (l.offset < self.roads[l.road.0 as int].lanes.len()
                            && (l.road.0 < r || (l.road.0 == r && l.offset < j + 1))
                            && self.is_blackhole(
                            who,
                            groups@,
                            l.road.0 as int,
                            l.offset as int,
                        )) by {
                        assert(before.contains(l) <==> (l.offset
                            < self.roads[l.road.0 as int].lanes.len() && (l.road.0 < r || (l.road.0
                            == r && l.offset < j)) && self.is_blackhole(
                            who,
                            groups@,
                            l.road.0 as int,
                            l.offset as int,
                        )));
                        if l.road.0 == r && l.offset == j {
                            assert(l == id);
                        }
                    }
                }
                j = j + 1;
            }
            r = r + 1;
        }
        proof {
            assert forall|r: int, j: int|
                0 <= r < self.roads.len() && 0 <= j < self.roads[r].lanes.len() implies (
            lanes@.contains(LaneID { road: RoadID(r as usize), offset: j as usize })
                <==> #[trigger] self.is_blackhole(who, groups@, r, j)) by {}
        }
        lanes
    }

    /// The lanes from which `who` cannot complete a trip: the lanes that
    /// `who` may use and that are not in the largest group of lanes that can
    /// all be reached from each other along turns. Where two groups are the
    /// largest, the one is taken that comes last.
    pub fn find_blackholes(&self, who: PathConstraints) -> (lanes: Vec<LaneID>)
        requires
            self.wf(),
        ensures
            exists|groups: Seq<Vec<LaneID>>| #[trigger]
                are_components(self.edges_for(who, self.intersections.len() as int), groups)
                    && forall|r: int, j: int|
                    0 <= r < self.roads.len() && 0 <= j < self.roads[r].lanes.len() ==> (
                    lanes@.contains(LaneID { road: RoadID(r as usize), offset: j as usize })
                        <==> #[trigger] self.is_blackhole(who, groups, r, j)),
            forall|k: int| 0 <= k < lanes.len() ==> self.has_lane(#[trigger] lanes[k]),
    {
        let edges = self.usable_turns(who);
        let groups = strongly_connected(&edges);
        self.blackholes_of(who, &groups)
    }
}

} // verus!
