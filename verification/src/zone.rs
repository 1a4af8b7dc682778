//! Zones: groups of roads under the same access restrictions.

use vstd::prelude::*;
use crate::ids::{IntersectionID, RoadID};
use crate::map::StreetMap;
use crate::road::{AccessRestrictions, Road};
use crate::vecs::{lemma_assign, unassigned};

verus! {

/// A group of roads that share one set of access restrictions.
pub struct Zone {
    pub members: Vec<RoadID>,
    pub restrictions: AccessRestrictions,
}

/// Whether two roads meet: they have an end in common.
pub open spec fn roads_meet(a: Road, b: Road) -> bool {
    a.src_i == b.src_i || a.src_i == b.dst_i || a.dst_i == b.src_i || a.dst_i == b.dst_i
}

/// Whether the roads hang together: every one but the first meets one that
/// comes before it.
pub open spec fn chained(roads: Seq<Road>, members: Seq<RoadID>) -> bool {
    forall|m: int| 1 <= m < members.len() ==> #[trigger] meets_earlier(roads, members, m)
}

/// Whether member number `m` meets a member before it.
pub open spec fn meets_earlier(roads: Seq<Road>, members: Seq<RoadID>, m: int) -> bool {
    exists|w: int|
        0 <= w < m && #[trigger] roads_meet(
            roads[members[w].0 as int],
            roads[members[m].0 as int],
        )
}

/// Whether every road that meets road `a` under the same restrictions is in
/// the zone of `a`.
pub open spec fn settled(map: &StreetMap, zone_of: Seq<Option<usize>>, a: int) -> bool {
    forall|b: int|
        0 <= b < map.roads.len() && roads_meet(map.roads[a], map.roads[b])
            && map.roads[b].access_restrictions == map.roads[a].access_restrictions
            ==> #[trigger] zone_of[b] == zone_of[a]
}

/// Whether the members of a zone that is being made, or was made, are sound:
/// each is a road of the map under the given restrictions, each is marked as
/// a member of zone `z`, and none comes twice.
pub open spec fn members_ok(
    map: &StreetMap,
    zone_of: Seq<Option<usize>>,
    members: Seq<RoadID>,
    restrictions: AccessRestrictions,
    z: int,
) -> bool {
    &&& restrictions != AccessRestrictions::unrestricted()
    &&& forall|m: int|
        0 <= m < members.len() ==> {
            let r = #[trigger] members[m];
            &&& map.has_road(r)
            &&& map.roads[r.0 as int].access_restrictions == restrictions
            &&& zone_of[r.0 as int] == Some(z as usize)
        }
    &&& forall|m1: int, m2: int|
        0 <= m1 < members.len() && 0 <= m2 < members.len() && #[trigger] members[m1]
            == #[trigger] members[m2] ==> m1 == m2
}

/// Whether the zones made so far are sound, and the marks of the roads agree
/// with them and with the zone that is being made, which will be zone number
/// `zones.len()`.
pub open spec fn progress_ok(
    map: &StreetMap,
    zones: Seq<Zone>,
    zone_of: Seq<Option<usize>>,
    members: Seq<RoadID>,
) -> bool {
    &&& zone_of.len() == map.roads.len()
    &&& forall|z: int|
        0 <= z < zones.len() ==> members_ok(
            map,
            zone_of,
            (#[trigger] zones[z]).members@,
            zones[z].restrictions,
            z,
        )
    &&& forall|r: int|
        0 <= r < zone_of.len() ==> match #[trigger] zone_of[r] {
            Some(z) => if z < zones.len() {
                zones[z as int].members@.contains(RoadID(r as usize)) && (map.edits.merge_zones
                    ==> settled(map, zone_of, r))
            } else {
                z == zones.len() && members.contains(RoadID(r as usize))
            },
            None => true,
        }
}

impl StreetMap {
    /// Whether the zones are sound for this map: every member of a zone is a
    /// restricted road under the restrictions of the zone, no road is a
    /// member twice, every restricted road is a member of a zone, and no zone
    /// is empty. If zones are merged, a road that meets a member of a zone
    /// under the same restrictions is a member of that zone too; if not,
    /// every zone is one road. The members of a zone hang together: see
    /// [`chained`].
    pub open spec fn zones_ok(&self, zones: Seq<Zone>) -> bool {
        &&& forall|z: int, m: int|
            0 <= z < zones.len() && 0 <= m < zones[z].members.len() ==> {
                let r = #[trigger] zones[z].members[m];
                &&& self.has_road(r)
                &&& self.roads[r.0 as int].spec_is_private()
                &&& self.roads[r.0 as int].access_restrictions == zones[z].restrictions
            }
        &&& forall|z1: int, m1: int, z2: int, m2: int|
            0 <= z1 < zones.len() && 0 <= m1 < zones[z1].members.len() && 0 <= z2 < zones.len()
                && 0 <= m2 < zones[z2].members.len() && #[trigger] zones[z1].members[m1]
                == #[trigger] zones[z2].members[m2] ==> z1 == z2 && m1 == m2
        &&& forall|r: int|
            0 <= r < self.roads.len() && (#[trigger] self.roads[r]).spec_is_private() ==> exists|
                z: int,
            |
                0 <= z < zones.len() && (#[trigger] zones[z]).members@.contains(RoadID(r as usize))
        &&& forall|z: int| 0 <= z < zones.len() ==> (#[trigger] zones[z]).members.len() > 0
        &&& !self.edits.merge_zones ==> forall|z: int|
            0 <= z < zones.len() ==> (#[trigger] zones[z]).members.len() == 1
        &&& self.edits.merge_zones ==> forall|z: int, m: int, b: int|
            0 <= z < zones.len() && 0 <= m < zones[z].members.len() && 0 <= b < self.roads.len()
                && roads_meet(self.roads[(#[trigger] zones[z].members[m]).0 as int], self.roads[b])
                && (#[trigger] self.roads[b]).access_restrictions == zones[z].restrictions
                ==> zones[z].members@.contains(RoadID(b as usize))
        &&& forall|z: int| 0 <= z < zones.len() ==> chained(self.roads@, (#[trigger] zones[z]).members@)
    }
}

/// Finished zones with sound marks are sound zones.
pub proof fn lemma_zones_done(map: &StreetMap, zones: Seq<Zone>, zone_of: Seq<Option<usize>>)
    requires
        zones.len() <= usize::MAX,
        progress_ok(map, zones, zone_of, Seq::empty()),
        forall|q: int|
            0 <= q < map.roads.len() && (#[trigger] map.roads[q]).spec_is_private()
                ==> zone_of[q].is_some(),
        forall|z: int| 0 <= z < zones.len() ==> (#[trigger] zones[z]).members.len() > 0,
        !map.edits.merge_zones ==> forall|z: int|
            0 <= z < zones.len() ==> (#[trigger] zones[z]).members.len() == 1,
        forall|z: int| 0 <= z < zones.len() ==> chained(map.roads@, (#[trigger] zones[z]).members@),
    ensures
        map.zones_ok(zones),
{
    assert forall|z: int, m: int|
        0 <= z < zones.len() && 0 <= m < zones[z].members.len() implies {
        let r = #[trigger] zones[z].members[m];
        &&& map.has_road(r)
        &&& map.roads[r.0 as int].spec_is_private()
        &&& map.roads[r.0 as int].access_restrictions == zones[z].restrictions
    } by {
        assert(members_ok(map, zone_of, zones[z].members@, zones[z].restrictions, z));
        assert(map.has_road(zones[z].members@[m]));
    }
    assert forall|z1: int, m1: int, z2: int, m2: int|
        0 <= z1 < zones.len() && 0 <= m1 < zones[z1].members.len() && 0 <= z2 < zones.len() && 0
            <= m2 < zones[z2].members.len() && #[trigger] zones[z1].members[m1]
            == #[trigger] zones[z2].members[m2] implies z1 == z2 && m1 == m2 by {
        assert(members_ok(map, zone_of, zones[z1].members@, zones[z1].restrictions, z1));
        assert(members_ok(map, zone_of, zones[z2].members@, zones[z2].restrictions, z2));
        assert(zone_of[zones[z1].members@[m1].0 as int] == Some(z1 as usize));
        assert(zone_of[zones[z2].members@[m2].0 as int] == Some(z2 as usize));
    }
    assert forall|r: int|
        0 <= r < map.roads.len() && (#[trigger] map.roads[r]).spec_is_private() implies exists|
        z: int,
    |
        0 <= z < zones.len() && (#[trigger] zones[z]).members@.contains(RoadID(r as usize)) by {
        assert(zone_of[r].is_some());
        let z = zone_of[r].unwrap();
        assert(!Seq::<RoadID>::empty().contains(RoadID(r as usize)));
        assert(zones[z as int].members@.contains(RoadID(r as usize)));
    }
    if map.edits.merge_zones {
        assert forall|z: int, m: int, b: int|
            0 <= z < zones.len() && 0 <= m < zones[z].members.len() && 0 <= b < map.roads.len()
                && roads_meet(map.roads[(#[trigger] zones[z].members[m]).0 as int], map.roads[b])
                && (#[trigger] map.roads[b]).access_restrictions
                == zones[z].restrictions implies zones[z].members@.contains(RoadID(b as usize)) by {
            assert(members_ok(map, zone_of, zones[z].members@, zones[z].restrictions, z));
            let a = zones[z].members@[m];
            assert(zone_of[a.0 as int] == Some(z as usize));
            assert(settled(map, zone_of, a.0 as int));
            assert(zone_of[b] == Some(z as usize));
            assert(!Seq::<RoadID>::empty().contains(RoadID(b as usize)));
        }
    }
}

/// Whether the first `n` roads at intersection `i` that are under the given
/// restrictions are in zone `z`.
pub open spec fn scanned(
    map: &StreetMap,
    zone_of: Seq<Option<usize>>,
    i: IntersectionID,
    restrictions: AccessRestrictions,
    z: usize,
    n: int,
) -> bool {
    forall|w: int|
        0 <= w < n
            && map.roads[(#[trigger] map.intersections[i.0 as int].roads[w]).0 as int].access_restrictions
            == restrictions ==> map.intersections[i.0 as int].roads[w].0 < zone_of.len()
            && zone_of[map.intersections[i.0 as int].roads[w].0 as int] == Some(z)
}

/// Giving zone `z` to a road that had none keeps what was settled and what
/// was scanned.
pub proof fn lemma_assign_keeps(
    map: &StreetMap,
    zones: Seq<Zone>,
    before: Seq<Option<usize>>,
    after: Seq<Option<usize>>,
    members: Seq<RoadID>,
    q: RoadID,
    z: usize,
)
    requires
        z == zones.len(),
        map.has_road(q),
        before[q.0 as int].is_none(),
        after == before.update(q.0 as int, Some(z)),
        progress_ok(map, zones, before, members),
        forall|y: int|
            0 <= y < zones.len() ==> members_ok(
                map,
                before,
                (#[trigger] zones[y]).members@,
                zones[y].restrictions,
                y,
            ),
    ensures
        progress_ok(map, zones, after, members.push(q)),
        forall|a: int|
            0 <= a < map.roads.len() && before[a].is_some() && settled(map, before, a) ==> settled(
                map,
                after,
                a,
            ),
        forall|i: IntersectionID, restrictions: AccessRestrictions, n: int|
            scanned(map, before, i, restrictions, z, n) ==> #[trigger] scanned(
                map,
                after,
                i,
                restrictions,
                z,
                n,
            ),
{
    crate::id_set::lemma_push_contains(members, q);
    assert forall|a: int|
        0 <= a < map.roads.len() && before[a].is_some() && settled(map, before, a) implies settled(
        map,
        after,
        a,
    ) by {
        assert forall|b: int|
            0 <= b < map.roads.len() && roads_meet(map.roads[a], map.roads[b])
                && map.roads[b].access_restrictions
                == map.roads[a].access_restrictions implies #[trigger] after[b] == after[a] by {
            assert(before[b] == before[a]);
        }
    }
    assert forall|y: int| 0 <= y < zones.len() implies members_ok(
        map,
        after,
        (#[trigger] zones[y]).members@,
        zones[y].restrictions,
        y,
    ) by {
        assert(members_ok(map, before, zones[y].members@, zones[y].restrictions, y));
    }
    assert forall|r: int| 0 <= r < after.len() implies match #[trigger] after[r] {
        Some(p) => if p < zones.len() {
            zones[p as int].members@.contains(RoadID(r as usize)) && (map.edits.merge_zones
                ==> settled(map, after, r))
        } else {
            p == zones.len() && members.push(q).contains(RoadID(r as usize))
        },
        None => true,
    } by {
        if r != q.0 {
            assert(after[r] == before[r]);
        }
    }
    assert forall|i: IntersectionID, restrictions: AccessRestrictions, n: int|
        scanned(map, before, i, restrictions, z, n) implies #[trigger] scanned(
        map,
        after,
        i,
        restrictions,
        z,
        n,
    ) by {
        assert forall|w: int|
            0 <= w < n && map.roads[(
            #[trigger] map.intersections[i.0 as int].roads[w]).0 as int].access_restrictions
                == restrictions implies map.intersections[i.0 as int].roads[w].0 < after.len()
            && after[map.intersections[i.0 as int].roads[w].0 as int] == Some(z) by {
            assert(before[map.intersections[i.0 as int].roads[w].0 as int] == Some(z));
        }
    }
}

impl Zone {
    /// Groups the restricted roads of the map into zones: see
    /// [`StreetMap::zones_ok`]. If zones are merged, a zone grows from its
    /// first road by taking in every road under the same restrictions that
    /// meets one of its members at an intersection. If not, every restricted
    /// road is a zone of its own.
    pub fn make_all(map: &StreetMap) -> (zones: Vec<Zone>)
        requires
            map.base_ok(),
        ensures
            map.zones_ok(zones@),
    {
        assert(map.parts_ok());
        let count = map.roads.len();
        let mut zone_of: Vec<Option<usize>> = Vec::new();
        let mut r: usize = 0;
        while r < count
            invariant
                r <= count,
                zone_of.len() == r,
                forall|q: int| 0 <= q < r ==> (#[trigger] zone_of[q]).is_none(),
            decreases count - r,
        {
            zone_of.push(None);
            r = r + 1;
        }
        let mut zones: Vec<Zone> = Vec::new();
        let mut r: usize = 0;
        while r < count
            invariant
                r <= count,
                count == map.roads.len(),
                map.parts_ok(),
                zones.len() <= r,
                progress_ok(map, zones@, zone_of@, Seq::empty()),
                forall|q: int|
                    0 <= q < r && (#[trigger] map.roads[q]).spec_is_private()
                        ==> zone_of[q].is_some(),
                forall|z: int| 0 <= z < zones.len() ==> (#[trigger] zones[z]).members.len() > 0,
                !map.edits.merge_zones ==> forall|z: int|
                    0 <= z < zones.len() ==> (#[trigger] zones[z]).members.len() == 1,
                forall|z: int| 0 <= z < zones.len() ==> chained(map.roads@, (#[trigger] zones[z]).members@),
            decreases count - r,
        {
            if map.roads[r].is_private() && zone_of[r].is_none() {
                let z = zones.len();
                let restrictions = map.roads[r].access_restrictions;
                let mut members: Vec<RoadID> = Vec::new();
                let ghost marks = zone_of@;
                zone_of[r] = Some(z);
                members.push(RoadID(r));
                proof {
                    lemma_assign_keeps(
                        map,
                        zones@,
                        marks,
                        zone_of@,
                        Seq::empty(),
                        RoadID(r),
                        z,
                    );
                    assert(members@ =~= Seq::<RoadID>::empty().push(RoadID(r)));
                    assert(members_ok(map, zone_of@, members@, restrictions, z as int));
                }
                if map.edits.merge_zones {
                    let mut at: usize = 0;
                    while at < members.len()
                        invariant
                            at <= members.len(),
                            members.len() > 0,
                            r < count,
                            count == map.roads.len(),
                            map.parts_ok(),
                            map.edits.merge_zones,
                            z == zones.len(),
                            progress_ok(map, zones@, zone_of@, members@),
                            members_ok(map, zone_of@, members@, restrictions, z as int),
                            chained(map.roads@, members@),
                            forall|m: int|
                                0 <= m < at ==> settled(map, zone_of@,
                                    (#[trigger] members[m]).0 as int),
                            forall|q: int|
                                0 <= q <= r && (#[trigger] map.roads[q]).spec_is_private()
                                    ==> zone_of[q].is_some(),
                        decreases unassigned(zone_of@, count as int) + members.len() - at,
                    {
                        let cur = members[at];
                        assert(map.has_road(members@[at as int]));
                        assert(map.road_ok(cur.0 as int));
                        let ghost measure = unassigned(zone_of@, count as int) + members.len();
                        let src_i = map.roads[cur.0].src_i;
                        let dst_i = map.roads[cur.0].dst_i;
                        let mut e: usize = 0;
                        while e < 2
                            invariant
                                e <= 2,
                                at < members.len(),
                                cur == members[at as int],
                                r < count,
                                count == map.roads.len(),
                                map.parts_ok(),
                                map.edits.merge_zones,
                                map.has_road(cur),
                                map.road_ok(cur.0 as int),
                                src_i == map.roads[cur.0 as int].src_i,
                                dst_i == map.roads[cur.0 as int].dst_i,
                                z == zones.len(),
                                progress_ok(map, zones@, zone_of@, members@),
                                members_ok(map, zone_of@, members@, restrictions, z as int),
                            chained(map.roads@, members@),
                                forall|m: int|
                                    0 <= m < at ==> settled(
                                        map,
                                        zone_of@,
                                        (#[trigger] members[m]).0 as int,
                                    ),
                                forall|q: int|
                                    0 <= q <= r && (#[trigger] map.roads[q]).spec_is_private()
                                        ==> zone_of[q].is_some(),
                                unassigned(zone_of@, count as int) + members.len() == measure,
                                e >= 1 ==> scanned(
                                    map,
                                    zone_of@,
                                    src_i,
                                    restrictions,
                                    z,
                                    map.intersections[src_i.0 as int].roads.len() as int,
                                ),
                                e >= 2 ==> scanned(
                                    map,
                                    zone_of@,
                                    dst_i,
                                    restrictions,
                                    z,
                                    map.intersections[dst_i.0 as int].roads.len() as int,
                                ),
                            decreases 2 - e,
                        {
                            let i = if e == 0 {
                                src_i
                            } else {
                                dst_i
                            };
                            let n = map.intersections[i.0].roads.len();
                            let mut k: usize = 0;
                            while k < n
                                invariant
                                    k <= n,
                                    e < 2,
                                    i == if e == 0 {
                                        src_i
                                    } else {
                                        dst_i
                                    },
                                    at < members.len(),
                                    cur == members[at as int],
                                    r < count,
                                    count == map.roads.len(),
                                    map.parts_ok(),
                                    map.edits.merge_zones,
                                    map.has_road(cur),
                                    map.road_ok(cur.0 as int),
                                    src_i == map.roads[cur.0 as int].src_i,
                                    dst_i == map.roads[cur.0 as int].dst_i,
                                    map.has_intersection(i),
                                    n == map.intersections[i.0 as int].roads.len(),
                                    z == zones.len(),
                                    progress_ok(map, zones@, zone_of@, members@),
                                    members_ok(map, zone_of@, members@, restrictions, z as int),
                            chained(map.roads@, members@),
                                    forall|m: int|
                                        0 <= m < at ==> settled(
                                            map,
                                            zone_of@,
                                            (#[trigger] members[m]).0 as int,
                                        ),
                                    forall|q: int|
                                        0 <= q <= r && (
                                        #[trigger] map.roads[q]).spec_is_private()
                                            ==> zone_of[q].is_some(),
                                    unassigned(zone_of@, count as int) + members.len() == measure,
                                    e >= 1 ==> scanned(
                                        map,
                                        zone_of@,
                                        src_i,
                                        restrictions,
                                        z,
                                        map.intersections[src_i.0 as int].roads.len() as int,
                                    ),
                                    scanned(map, zone_of@, i, restrictions, z, k as int),
                                decreases n - k,
                            {
                                let q = map.intersections[i.0].roads[k];
                                assert(map.intersection_ok(i.0 as int));
                                assert(map.touches(map.intersections[i.0 as int].roads[k as int],
                                    i));
                                assert(map.road_ok(q.0 as int));
                                if map.roads[q.0].access_restrictions.same_as(&restrictions) {
                                    match zone_of[q.0] {
                                        None => {
                                            let ghost marks = zone_of@;
                                            let ghost grown = members@;
                                            proof {
                                                lemma_assign(zone_of@, q.0 as int, z, count as int);
                                            }
                                            zone_of[q.0] = Some(z);
                                            members.push(q);
                                            proof {
                                                lemma_assign_keeps(
                                                    map,
                                                    zones@,
                                                    marks,
                                                    zone_of@,
                                                    grown,
                                                    q,
                                                    z,
                                                );
                                                assert forall|m: int|
                                                    0 <= m < members.len() implies {
                                                    let x = #[trigger] members@[m];
                                                    &&& map.has_road(x)
                                                    &&& map.roads[x.0 as int].access_restrictions
                                                        == restrictions
                                                    &&& zone_of@[x.0 as int] == Some(z)
                                                } by {
                                                    if m < grown.len() {
                                                        assert(members@[m] == grown[m]);
                                                        assert(marks[grown[m].0 as int] == Some(z));
                                                    }
                                                }
                                                assert forall|m1: int, m2: int|
                                                    0 <= m1 < members.len() && 0 <= m2
                                                        < members.len() && #[trigger] members@[m1]
                                                        == #[trigger] members@[m2] implies m1
                                                    == m2 by {
                                                    if m1 < grown.len() {
                                                        assert(marks[grown[m1].0 as int] == Some(
                                                            z,
                                                        ));
                                                    }
                                                    if m2 < grown.len() {
                                                        assert(marks[grown[m2].0 as int] == Some(
                                                            z,
                                                        ));
                                                    }
                                                }
                                                assert forall|m: int| 0 <= m < at implies settled(
                                                    map,
                                                    zone_of@,
                                                    (#[trigger] members[m]).0 as int,
                                                ) by {
                                                    assert(members[m] == grown[m]);
                                                    assert(marks[grown[m].0 as int] == Some(z));
                                                    assert(settled(map, marks, grown[m].0 as int));
                                                }
                                                assert(chained(map.roads@, members@)) by {
                                                    assert forall|m: int|
                                                        1 <= m < members@.len() implies #[trigger] meets_earlier(
                                                        map.roads@,
                                                        members@,
                                                        m,
                                                    ) by {
                                                        if m < grown.len() {
                                                            assert(meets_earlier(
                                                                map.roads@,
                                                                grown,
                                                                m,
                                                            ));
                                                            let w = choose|w: int|
                                                                0 <= w < m && #[trigger] roads_meet(
                                                                    map.roads@[grown[w].0 as int],
                                                                    map.roads@[grown[m].0 as int],
                                                                );
                                                            assert(members@[w] == grown[w]);
                                                            assert(members@[m] == grown[m]);
                                                            assert(roads_meet(
                                                                map.roads@[members@[w].0 as int],
                                                                map.roads@[members@[m].0 as int],
                                                            ));
                                                        } else {
                                                            assert(members@[at as int] == cur);
                                                            assert(members@[m] == q);
                                                            assert(roads_meet(
                                                                map.roads@[members@[at as int].0 as int],
                                                                map.roads@[members@[m].0 as int],
                                                            ));
                                                        }
                                                    }
                                                }
                                            }
                                        },
                                        Some(p) => {
                                            proof {
                                                if p != z {
                                                    assert(p < z);
                                                    assert(settled(map, zone_of@, q.0 as int));
                                                    assert(roads_meet(
                                                        map.roads[q.0 as int],
                                                        map.roads[cur.0 as int],
                                                    ));
                                                    assert(zone_of@[cur.0 as int] == Some(z));
                                                    assert(false);
                                                }
                                            }
                                        },
                                    }
                                }
                                k = k + 1;
                            }
                            e = e + 1;
                        }
                        proof {
                            assert forall|b: int|
                                0 <= b < map.roads.len() && roads_meet(
                                    map.roads[cur.0 as int],
                                    map.roads[b],
                                ) && map.roads[b].access_restrictions
                                    == map.roads[cur.0 as int].access_restrictions implies #[trigger] zone_of@[b]
                                == zone_of@[cur.0 as int] by {
                                assert(map.road_ok(b));
                                let x = map.roads[cur.0 as int];
                                let y = map.roads[b];
                                let i = if x.src_i == y.src_i || x.src_i == y.dst_i {
                                    x.src_i
                                } else {
                                    x.dst_i
                                };
                                assert(map.intersections[i.0 as int].roads@.contains(y.id));
                                let w = choose|w: int|
                                    0 <= w < map.intersections[i.0 as int].roads@.len()
                                        && map.intersections[i.0 as int].roads@[w] == y.id;
                                assert(map.roads[map.intersections[i.0 as int].roads[w].0 as int].access_restrictions
                                    == restrictions);
                            }
                        }
                        at = at + 1;
                    }
                }
                let ghost made = members@;
                zones.push(Zone { members, restrictions });
                proof {
                    let before = zones@.drop_last();
                    assert forall|y: int| 0 <= y < zones.len() implies members_ok(
                        map,
                        zone_of@,
                        (#[trigger] zones@[y]).members@,
                        zones@[y].restrictions,
                        y,
                    ) by {
                        if y < z {
                            assert(zones@[y] == before[y]);
                        }
                    }
                    assert forall|x: int| 0 <= x < zone_of.len() implies match #[trigger] zone_of@[x] {
                        Some(y) => if y < zones.len() {
                            zones@[y as int].members@.contains(RoadID(x as usize)) && (
                            map.edits.merge_zones ==> settled(map, zone_of@, x))
                        } else {
                            y == zones.len() && Seq::<RoadID>::empty().contains(RoadID(x as usize))
                        },
                        None => true,
                    } by {
                        match zone_of@[x] {
                            Some(y) => {
                                if y < z {
                                    assert(zones@[y as int] == before[y as int]);
                                } else {
                                    assert(made.contains(RoadID(x as usize)));
                                    if map.edits.merge_zones {
                                        let m = choose|m: int|
                                            0 <= m < made.len() && made[m] == RoadID(x as usize);
                                        assert(settled(map, zone_of@, made[m].0 as int));
                                    }
                                }
                            },
                            None => {},
                        }
                    }
                    assert forall|y: int| 0 <= y < zones.len() implies (
                    #[trigger] zones@[y]).members.len() > 0 by {
                        if y < z {
                            assert(zones@[y] == before[y]);
                        }
                    }
                    assert forall|y: int| 0 <= y < zones.len() implies chained(
                        map.roads@,
                        (#[trigger] zones@[y]).members@,
                    ) by {
                        if y < z {
                            assert(zones@[y] == before[y]);
                        }
                    }
                    if !map.edits.merge_zones {
                        assert forall|y: int| 0 <= y < zones.len() implies (
                        #[trigger] zones@[y]).members.len() == 1 by {
                            if y < z {
                                assert(zones@[y] == before[y]);
                            }
                        }
                    }
                }
            }
            r = r + 1;
        }
        proof {
            lemma_zones_done(map, zones@, zone_of@);
        }
        zones
    }
}

} // verus!
