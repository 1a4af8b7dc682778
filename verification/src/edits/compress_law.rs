//! The law of compression: the commands that compression gives lead to the
//! same record of changes as the log that was compressed.

use vstd::prelude::*;
use crate::edits::derived::{
    changed_roads_of, changed_routes_of, crosswalks_before, first_cmd, intersection_before,
    lemma_first_cmd, original_crosswalks_of, original_intersections_of, target_of, TargetKind,
};
use crate::edits::laws::{lemma_changed_roads_members, lemma_changed_routes_members};
use crate::edits::log::{DerivedView, MapEdits};
use crate::edits::orchestrate::{replay_roads, replay_schedules};
use crate::edits::{cmds_view, EditCmdView, EditEffects, EditIntersectionView, EditRoadView};
use crate::ids::{IntersectionID, RoadID, TransitRouteID};
use crate::map::StreetMap;
use crate::turn::Turn;
use crate::units::Time;

verus! {

/// Every intersection recorded among the first `n` is one that a command
/// changes, is recorded with the state before the first such command, and
/// differs from that state; and every such intersection is recorded.
pub proof fn lemma_original_intersections_members(
    cmds: Seq<EditCmdView>,
    states: Seq<EditIntersectionView>,
    n: int,
)
    requires
        0 <= n <= usize::MAX,
    ensures
        forall|j: int|
            0 <= j < original_intersections_of(cmds, states, n).len() ==> {
                let e = #[trigger] original_intersections_of(cmds, states, n)[j];
                &&& e.0.0 < n
                &&& first_cmd(cmds, TargetKind::Intersection, e.0.0 as int,
                    cmds.len() as int).is_some()
                &&& e.1 == intersection_before(
                    cmds[first_cmd(
                        cmds,
                        TargetKind::Intersection,
                        e.0.0 as int,
                        cmds.len() as int,
                    ).unwrap()],
                )
                &&& states[e.0.0 as int] != e.1
            },
        forall|i: int|
            0 <= i < n && first_cmd(cmds, TargetKind::Intersection, i, cmds.len() as int).is_some()
                && states[i] != intersection_before(
                cmds[first_cmd(cmds, TargetKind::Intersection, i, cmds.len() as int).unwrap()],
            ) ==> exists|j: int|
                0 <= j < original_intersections_of(cmds, states, n).len() && (
                #[trigger] original_intersections_of(cmds, states, n)[j]).0 == IntersectionID(
                    i as usize,
                ),
    decreases n,
{
    if n > 0 {
        lemma_original_intersections_members(cmds, states, n - 1);
        let before = original_intersections_of(cmds, states, n - 1);
        let now = original_intersections_of(cmds, states, n);
        assert forall|j: int| 0 <= j < now.len() implies {
            let e = #[trigger] now[j];
            &&& e.0.0 < n
            &&& first_cmd(cmds, TargetKind::Intersection, e.0.0 as int, cmds.len() as int).is_some()
            &&& e.1 == intersection_before(
                cmds[first_cmd(
                    cmds,
                    TargetKind::Intersection,
                    e.0.0 as int,
                    cmds.len() as int,
                ).unwrap()],
            )
            &&& states[e.0.0 as int] != e.1
        } by {
            if j < before.len() {
                assert(now[j] == before[j]);
            }
        }
        assert forall|i: int|
            0 <= i < n && first_cmd(cmds, TargetKind::Intersection, i, cmds.len() as int).is_some()
                && states[i] != intersection_before(
                cmds[first_cmd(cmds, TargetKind::Intersection, i, cmds.len() as int).unwrap()],
            ) implies exists|j: int|
            0 <= j < now.len() && (#[trigger] now[j]).0 == IntersectionID(i as usize) by {
            if i < n - 1 {
                let j = choose|j: int|
                    0 <= j < before.len() && (#[trigger] before[j]).0 == IntersectionID(i as usize);
                assert(now[j] == before[j]);
            } else {
                assert(now[now.len() - 1].0 == IntersectionID(i as usize));
            }
        }
    }
}

/// The same for crossings: see [`lemma_original_intersections_members`].
pub proof fn lemma_original_crosswalks_members(
    cmds: Seq<EditCmdView>,
    states: Seq<Set<Turn>>,
    n: int,
)
    requires
        0 <= n <= usize::MAX,
    ensures
        forall|j: int|
            0 <= j < original_crosswalks_of(cmds, states, n).len() ==> {
                let e = #[trigger] original_crosswalks_of(cmds, states, n)[j];
                &&& e.0.0 < n
                &&& first_cmd(cmds, TargetKind::Crosswalks, e.0.0 as int,
                    cmds.len() as int).is_some()
                &&& e.1 == crosswalks_before(
                    cmds[first_cmd(
                        cmds,
                        TargetKind::Crosswalks,
                        e.0.0 as int,
                        cmds.len() as int,
                    ).unwrap()],
                )
                &&& states[e.0.0 as int] != e.1
            },
        forall|i: int|
            0 <= i < n && first_cmd(cmds, TargetKind::Crosswalks, i, cmds.len() as int).is_some()
                && states[i] != crosswalks_before(
                cmds[first_cmd(cmds, TargetKind::Crosswalks, i, cmds.len() as int).unwrap()],
            ) ==> exists|j: int|
                0 <= j < original_crosswalks_of(cmds, states, n).len() && (
                #[trigger] original_crosswalks_of(cmds, states, n)[j]).0 == IntersectionID(
                    i as usize,
                ),
    decreases n,
{
    if n > 0 {
        lemma_original_crosswalks_members(cmds, states, n - 1);
        let before = original_crosswalks_of(cmds, states, n - 1);
        let now = original_crosswalks_of(cmds, states, n);
        assert forall|j: int| 0 <= j < now.len() implies {
            let e = #[trigger] now[j];
            &&& e.0.0 < n
            &&& first_cmd(cmds, TargetKind::Crosswalks, e.0.0 as int, cmds.len() as int).is_some()
            &&& e.1 == crosswalks_before(
                cmds[first_cmd(
                    cmds,
                    TargetKind::Crosswalks,
                    e.0.0 as int,
                    cmds.len() as int,
                ).unwrap()],
            )
            &&& states[e.0.0 as int] != e.1
        } by {
            if j < before.len() {
                assert(now[j] == before[j]);
            }
        }
        assert forall|i: int|
            0 <= i < n && first_cmd(cmds, TargetKind::Crosswalks, i, cmds.len() as int).is_some()
                && states[i] != crosswalks_before(
                cmds[first_cmd(cmds, TargetKind::Crosswalks, i, cmds.len() as int).unwrap()],
            ) implies exists|j: int|
            0 <= j < now.len() && (#[trigger] now[j]).0 == IntersectionID(i as usize) by {
            if i < n - 1 {
                let j = choose|j: int|
                    0 <= j < before.len() && (#[trigger] before[j]).0 == IntersectionID(i as usize);
                assert(now[j] == before[j]);
            } else {
                assert(now[now.len() - 1].0 == IntersectionID(i as usize));
            }
        }
    }
}

/// What is derived from commands whose targets the map has names only
/// targets that the map has: so the edits of a map after a transaction can be
/// compressed and saved.
pub proof fn lemma_derived_fits(map: &StreetMap, cmds: Seq<crate::edits::EditCmd>)
    requires
        map.has_targets(cmds),
    ensures
        map.derived_fits(map.derived_of(crate::edits::cmds_view(cmds))),
{
    let v = crate::edits::cmds_view(cmds);
    let d = map.derived_of(v);
    lemma_changed_roads_members(
        v,
        map.road_states(),
        map.road_baselines(),
        map.roads.len() as int,
    );
    lemma_changed_routes_members(
        v,
        map.schedules(),
        map.schedule_baselines(),
        map.transit_routes.len() as int,
    );
    lemma_original_intersections_members(
        v,
        map.intersection_states(),
        map.intersections.len() as int,
    );
    lemma_original_crosswalks_members(v, map.crosswalk_states(), map.intersections.len() as int);
    assert forall|k: int| 0 <= k < d.changed_roads.len() implies map.has_road(
        #[trigger] d.changed_roads[k],
    ) by {
        assert(d.changed_roads.contains(d.changed_roads[k]));
        assert(d.changed_roads[k] == RoadID(d.changed_roads[k].0 as int as usize));
    }
    assert forall|k: int| 0 <= k < d.changed_routes.len() implies map.has_route(
        #[trigger] d.changed_routes[k],
    ) by {
        assert(d.changed_routes.contains(d.changed_routes[k]));
        assert(d.changed_routes[k] == TransitRouteID(d.changed_routes[k].0 as int as usize));
    }
    assert forall|k: int| 0 <= k < d.original_intersections.len() implies {
        &&& map.has_intersection((#[trigger] d.original_intersections[k]).0)
        &&& !map.intersections[d.original_intersections[k].0.0 as int].spec_is_border()
    } by {
        let e = d.original_intersections[k];
        let i = e.0.0 as int;
        lemma_first_cmd(v, TargetKind::Intersection, i, v.len() as int);
        let c = first_cmd(v, TargetKind::Intersection, i, v.len() as int).unwrap();
        assert(map.has_target(cmds[c]));
    }
}

/// Compression gives a command for a road exactly if the road is recorded as
/// changed.
pub proof fn lemma_compressed_roads(map: &StreetMap, d: DerivedView, r: int)
    requires
        0 <= r <= usize::MAX,
    ensures
        first_cmd(
            map.compressed(d),
            TargetKind::Road,
            r,
            map.compressed(d).len() as int,
        ).is_some() <==> d.changed_roads.contains(RoadID(r as usize)),
{
    let c = map.compressed(d);
    lemma_first_cmd(c, TargetKind::Road, r, c.len() as int);
    if d.changed_roads.contains(RoadID(r as usize)) {
        let j = choose|j: int| 0 <= j < d.changed_roads.len() && d.changed_roads[j]
            == RoadID(r as usize);
        assert(target_of(c[j], TargetKind::Road) == Some(r));
    }
    match first_cmd(c, TargetKind::Road, r, c.len() as int) {
        Some(k) => {
            assert(k < d.changed_roads.len());
            assert(d.changed_roads[k] == RoadID(r as usize));
        },
        None => {},
    }
}

/// Compression gives a command for a transit route exactly if the route is
/// recorded as changed.
pub proof fn lemma_compressed_routes(map: &StreetMap, d: DerivedView, r: int)
    requires
        0 <= r <= usize::MAX,
    ensures
        first_cmd(
            map.compressed(d),
            TargetKind::Route,
            r,
            map.compressed(d).len() as int,
        ).is_some() <==> d.changed_routes.contains(TransitRouteID(r as usize)),
{
    let c = map.compressed(d);
    let offset = d.changed_roads.len() + d.original_intersections.len()
        + d.original_crosswalks.len();
    lemma_first_cmd(c, TargetKind::Route, r, c.len() as int);
    if d.changed_routes.contains(TransitRouteID(r as usize)) {
        let j = choose|j: int|
            0 <= j < d.changed_routes.len() && d.changed_routes[j] == TransitRouteID(r as usize);
        assert(target_of(c[offset + j], TargetKind::Route) == Some(r));
    }
    match first_cmd(c, TargetKind::Route, r, c.len() as int) {
        Some(k) => {
            assert(k >= offset);
            assert(d.changed_routes[k - offset] == TransitRouteID(r as usize));
        },
        None => {},
    }
}

/// Compression gives a command for an intersection exactly if the
/// intersection is recorded, and the first such command starts from a state
/// that is recorded for it.
pub proof fn lemma_compressed_intersections(map: &StreetMap, d: DerivedView, i: int)
    requires
        0 <= i <= usize::MAX,
    ensures
        match first_cmd(
            map.compressed(d),
            TargetKind::Intersection,
            i,
            map.compressed(d).len() as int,
        ) {
            Some(k) => exists|j: int|
                0 <= j < d.original_intersections.len() && #[trigger] d.original_intersections[j]
                    == (IntersectionID(i as usize), intersection_before(map.compressed(d)[k])),
            None => forall|j: int|
                0 <= j < d.original_intersections.len() ==> (
                #[trigger] d.original_intersections[j]).0 != IntersectionID(i as usize),
        },
{
    let c = map.compressed(d);
    let offset = d.changed_roads.len();
    lemma_first_cmd(c, TargetKind::Intersection, i, c.len() as int);
    match first_cmd(c, TargetKind::Intersection, i, c.len() as int) {
        Some(k) => {
            assert(offset <= k < offset + d.original_intersections.len());
            assert(d.original_intersections[k - offset] == (
                IntersectionID(i as usize),
                intersection_before(c[k]),
            ));
        },
        None => {
            assert forall|j: int| 0 <= j < d.original_intersections.len() implies (
            #[trigger] d.original_intersections[j]).0 != IntersectionID(i as usize) by {
                assert(target_of(c[offset + j], TargetKind::Intersection) != Some(i));
            }
        },
    }
}

/// The same for crossings: see [`lemma_compressed_intersections`].
pub proof fn lemma_compressed_crosswalks(map: &StreetMap, d: DerivedView, i: int)
    requires
        0 <= i <= usize::MAX,
    ensures
        match first_cmd(
            map.compressed(d),
            TargetKind::Crosswalks,
            i,
            map.compressed(d).len() as int,
        ) {
            Some(k) => exists|j: int|
                0 <= j < d.original_crosswalks.len() && #[trigger] d.original_crosswalks[j] == (
                    IntersectionID(i as usize),
                    crosswalks_before(map.compressed(d)[k]),
                ),
            None => forall|j: int|
                0 <= j < d.original_crosswalks.len() ==> (#[trigger] d.original_crosswalks[j]).0
                    != IntersectionID(i as usize),
        },
{
    let c = map.compressed(d);
    let offset = d.changed_roads.len() + d.original_intersections.len();
    lemma_first_cmd(c, TargetKind::Crosswalks, i, c.len() as int);
    match first_cmd(c, TargetKind::Crosswalks, i, c.len() as int) {
        Some(k) => {
            assert(offset <= k < offset + d.original_crosswalks.len());
            assert(d.original_crosswalks[k - offset] == (
                IntersectionID(i as usize),
                crosswalks_before(c[k]),
            ));
        },
        None => {
            assert forall|j: int| 0 <= j < d.original_crosswalks.len() implies (
            #[trigger] d.original_crosswalks[j]).0 != IntersectionID(i as usize) by {
                assert(target_of(c[offset + j], TargetKind::Crosswalks) != Some(i));
            }
        },
    }
}

/// Compression keeps the record of changes: for a record that was derived
/// from some commands for this map, the commands that compression gives lead
/// to the same record for this map. And to apply one of them changes nothing,
/// since it leads to the state that its target is in.
pub proof fn lemma_compress_keeps_derived(map: &StreetMap, cmds: Seq<EditCmdView>)
    ensures
        map.derived_of(map.compressed(map.derived_of(cmds))) == map.derived_of(cmds),
        forall|k: int|
            0 <= k < map.compressed(map.derived_of(cmds)).len() ==> match #[trigger] map.compressed(
                map.derived_of(cmds),
            )[k] {
                EditCmdView::ChangeRoad { r, new, .. } => new == map.roads[r.0 as int].edit_state(),
                EditCmdView::ChangeIntersection { i, new, .. } => new
                    == map.intersections[i.0 as int].edit_state(),
                EditCmdView::ChangeCrosswalks { i, new, .. } => new
                    == map.intersections[i.0 as int].crosswalks(),
                EditCmdView::ChangeRouteSchedule { id, new, .. } => new
                    == map.transit_routes[id.0 as int].spawn_times@,
            },
{
    let d = map.derived_of(cmds);
    let c = map.compressed(d);
    lemma_roads_agree(map, cmds, map.roads.len() as int);
    lemma_routes_agree(map, cmds, map.transit_routes.len() as int);
    lemma_intersections_agree(map, cmds, map.intersections.len() as int);
    lemma_crosswalks_agree(map, cmds, map.intersections.len() as int);
}

proof fn lemma_roads_agree(map: &StreetMap, cmds: Seq<EditCmdView>, n: int)
    requires
        0 <= n <= map.roads.len(),
    ensures
        changed_roads_of(
            map.compressed(map.derived_of(cmds)),
            map.road_states(),
            map.road_baselines(),
            n,
        ) == changed_roads_of(cmds, map.road_states(), map.road_baselines(), n),
    decreases n,
{
    if n > 0 {
        lemma_roads_agree(map, cmds, n - 1);
        lemma_compressed_roads(map, map.derived_of(cmds), n - 1);
        lemma_changed_roads_members(
            cmds,
            map.road_states(),
            map.road_baselines(),
            map.roads.len() as int,
        );
        assert(changed_roads_of(
            cmds,
            map.road_states(),
            map.road_baselines(),
            map.roads.len() as int,
        ).contains(RoadID((n - 1) as usize)) <==> (first_cmd(
            cmds,
            TargetKind::Road,
            n - 1,
            cmds.len() as int,
        ).is_some() && map.road_states()[n - 1] != map.road_baselines()[n - 1]));
    }
}

proof fn lemma_routes_agree(map: &StreetMap, cmds: Seq<EditCmdView>, n: int)
    requires
        0 <= n <= map.transit_routes.len(),
    ensures
        changed_routes_of(
            map.compressed(map.derived_of(cmds)),
            map.schedules(),
            map.schedule_baselines(),
            n,
        ) == changed_routes_of(cmds, map.schedules(), map.schedule_baselines(), n),
    decreases n,
{
    if n > 0 {
        lemma_routes_agree(map, cmds, n - 1);
        lemma_compressed_routes(map, map.derived_of(cmds), n - 1);
        lemma_changed_routes_members(
            cmds,
            map.schedules(),
            map.schedule_baselines(),
            map.transit_routes.len() as int,
        );
        assert(changed_routes_of(
            cmds,
            map.schedules(),
            map.schedule_baselines(),
            map.transit_routes.len() as int,
        ).contains(TransitRouteID((n - 1) as usize)) <==> (first_cmd(
            cmds,
            TargetKind::Route,
            n - 1,
            cmds.len() as int,
        ).is_some() && map.schedules()[n - 1] != map.schedule_baselines()[n - 1]));
    }
}

proof fn lemma_intersections_agree(map: &StreetMap, cmds: Seq<EditCmdView>, n: int)
    requires
        0 <= n <= map.intersections.len(),
    ensures
        original_intersections_of(
            map.compressed(map.derived_of(cmds)),
            map.intersection_states(),
            n,
        ) == original_intersections_of(cmds, map.intersection_states(), n),
    decreases n,
{
    if n > 0 {
        lemma_intersections_agree(map, cmds, n - 1);
        let d = map.derived_of(cmds);
        let c = map.compressed(d);
        let states = map.intersection_states();
        lemma_compressed_intersections(map, d, n - 1);
        lemma_original_intersections_members(cmds, states, map.intersections.len() as int);
        let list = original_intersections_of(cmds, states, map.intersections.len() as int);
        match first_cmd(c, TargetKind::Intersection, n - 1, c.len() as int) {
            Some(k) => {
                let j = choose|j: int|
                    0 <= j < list.len() && #[trigger] list[j] == (
                        IntersectionID((n - 1) as usize),
                        intersection_before(c[k]),
                    );
                assert(list[j].0.0 == n - 1);
            },
            None => {
                if first_cmd(cmds, TargetKind::Intersection, n - 1, cmds.len() as int).is_some()
                    && states[n - 1] != intersection_before(
                    cmds[first_cmd(
                        cmds,
                        TargetKind::Intersection,
                        n - 1,
                        cmds.len() as int,
                    ).unwrap()],
                ) {
                    let j = choose|j: int|
                        0 <= j < list.len() && (#[trigger] list[j]).0 == IntersectionID(
                            (n - 1) as usize,
                        );
                    assert(false);
                }
            },
        }
    }
}

proof fn lemma_crosswalks_agree(map: &StreetMap, cmds: Seq<EditCmdView>, n: int)
    requires
        0 <= n <= map.intersections.len(),
    ensures
        original_crosswalks_of(map.compressed(map.derived_of(cmds)), map.crosswalk_states(), n)
            == original_crosswalks_of(cmds, map.crosswalk_states(), n),
    decreases n,
{
    if n > 0 {
        lemma_crosswalks_agree(map, cmds, n - 1);
        let d = map.derived_of(cmds);
        let c = map.compressed(d);
        let states = map.crosswalk_states();
        lemma_compressed_crosswalks(map, d, n - 1);
        lemma_original_crosswalks_members(cmds, states, map.intersections.len() as int);
        let list = original_crosswalks_of(cmds, states, map.intersections.len() as int);
        match first_cmd(c, TargetKind::Crosswalks, n - 1, c.len() as int) {
            Some(k) => {
                let j = choose|j: int|
                    0 <= j < list.len() && #[trigger] list[j] == (
                        IntersectionID((n - 1) as usize),
                        crosswalks_before(c[k]),
                    );
                assert(list[j].0.0 == n - 1);
            },
            None => {
                if first_cmd(cmds, TargetKind::Crosswalks, n - 1, cmds.len() as int).is_some()
                    && states[n - 1] != crosswalks_before(
                    cmds[first_cmd(cmds, TargetKind::Crosswalks, n - 1,
                        cmds.len() as int).unwrap()],
                ) {
                    let j = choose|j: int|
                        0 <= j < list.len() && (#[trigger] list[j]).0 == IntersectionID(
                            (n - 1) as usize,
                        );
                    assert(false);
                }
            },
        }
    }
}

/// The roads recorded as changed come in ascending order, each once.
pub proof fn lemma_changed_roads_ascend(
    cmds: Seq<EditCmdView>,
    states: Seq<EditRoadView>,
    baselines: Seq<EditRoadView>,
    n: int,
)
    requires
        0 <= n <= usize::MAX,
    ensures
        forall|j: int|
            0 <= j < changed_roads_of(cmds, states, baselines, n).len() ==> (
            #[trigger] changed_roads_of(cmds, states, baselines, n)[j]).0 < n,
        forall|a: int, b: int|
            0 <= a < b < changed_roads_of(cmds, states, baselines, n).len() ==> (
            #[trigger] changed_roads_of(cmds, states, baselines, n)[a]).0 < (
            #[trigger] changed_roads_of(cmds, states, baselines, n)[b]).0,
    decreases n,
{
    if n > 0 {
        lemma_changed_roads_ascend(cmds, states, baselines, n - 1);
        let before = changed_roads_of(cmds, states, baselines, n - 1);
        let now = changed_roads_of(cmds, states, baselines, n);
        assert forall|j: int| 0 <= j < now.len() implies (#[trigger] now[j]).0 < n by {
            if j < before.len() {
                assert(before[j].0 < n - 1);
            }
        }
        assert forall|a: int, b: int| 0 <= a < b < now.len() implies (#[trigger] now[a]).0 < (
        #[trigger] now[b]).0 by {
            if b < before.len() {
                assert(before[a].0 < before[b].0);
            } else {
                assert(before[a].0 < n - 1);
            }
        }
    }
}

/// The transit routes recorded as changed come in ascending order, each
/// once.
pub proof fn lemma_changed_routes_ascend(
    cmds: Seq<EditCmdView>,
    schedules: Seq<Seq<Time>>,
    baselines: Seq<Seq<Time>>,
    n: int,
)
    requires
        0 <= n <= usize::MAX,
    ensures
        forall|j: int|
            0 <= j < changed_routes_of(cmds, schedules, baselines, n).len() ==> (
            #[trigger] changed_routes_of(cmds, schedules, baselines, n)[j]).0 < n,
        forall|a: int, b: int|
            0 <= a < b < changed_routes_of(cmds, schedules, baselines, n).len() ==> (
            #[trigger] changed_routes_of(cmds, schedules, baselines, n)[a]).0 < (
            #[trigger] changed_routes_of(cmds, schedules, baselines, n)[b]).0,
    decreases n,
{
    if n > 0 {
        lemma_changed_routes_ascend(cmds, schedules, baselines, n - 1);
        let before = changed_routes_of(cmds, schedules, baselines, n - 1);
        let now = changed_routes_of(cmds, schedules, baselines, n);
        assert forall|j: int| 0 <= j < now.len() implies (#[trigger] now[j]).0 < n by {
            if j < before.len() {
                assert(before[j].0 < n - 1);
            }
        }
        assert forall|a: int, b: int| 0 <= a < b < now.len() implies (#[trigger] now[a]).0 < (
        #[trigger] now[b]).0 by {
            if b < before.len() {
                assert(before[a].0 < before[b].0);
            } else {
                assert(before[a].0 < n - 1);
            }
        }
    }
}

/// A road that one command among the first `n` changes, and no other, is in
/// the state that this command leads to.
pub proof fn lemma_road_changed_once(
    states: Seq<EditRoadView>,
    cmds: Seq<EditCmdView>,
    r: int,
    k: int,
    n: int,
)
    requires
        0 <= k < n <= cmds.len(),
        0 <= r < states.len(),
        target_of(cmds[k], TargetKind::Road) == Some(r),
        forall|j: int|
            0 <= j < n && j != k ==> target_of(#[trigger] cmds[j], TargetKind::Road) != Some(r),
    ensures
        cmds[k] is ChangeRoad,
        replay_roads(states, cmds, n)[r] == cmds[k]->ChangeRoad_new,
    decreases n,
{
    crate::edits::laws::lemma_replay_roads_len(states, cmds, n - 1);
    if n - 1 > k {
        lemma_road_changed_once(states, cmds, r, k, n - 1);
        assert(target_of(cmds[n - 1], TargetKind::Road) != Some(r));
    }
}

/// A transit route whose schedule one command among the first `n` changes,
/// and no other, has the schedule that this command leads to.
pub proof fn lemma_route_changed_once(
    schedules: Seq<Seq<Time>>,
    cmds: Seq<EditCmdView>,
    r: int,
    k: int,
    n: int,
)
    requires
        0 <= k < n <= cmds.len(),
        0 <= r < schedules.len(),
        target_of(cmds[k], TargetKind::Route) == Some(r),
        forall|j: int|
            0 <= j < n && j != k ==> target_of(#[trigger] cmds[j], TargetKind::Route) != Some(r),
    ensures
        cmds[k] is ChangeRouteSchedule,
        replay_schedules(schedules, cmds, n)[r] == cmds[k]->ChangeRouteSchedule_new,
    decreases n,
{
    crate::edits::laws::lemma_replay_schedules_len(schedules, cmds, n - 1);
    if n - 1 > k {
        lemma_route_changed_once(schedules, cmds, r, k, n - 1);
        assert(target_of(cmds[n - 1], TargetKind::Route) != Some(r));
    }
}

/// The commands that compression gives lead from the imported states of the
/// roads and transit routes to the states that they have, in a map that
/// follows its log and whose record of changes is up to date.
pub proof fn lemma_compressed_leads_here(map: &StreetMap)
    requires
        map.follows_log(),
        map.edits.derived() == map.derived_of(cmds_view(map.edits.commands@)),
        map.roads.len() <= usize::MAX,
        map.transit_routes.len() <= usize::MAX,
    ensures
        replay_roads(
            map.road_baselines(),
            map.compressed(map.edits.derived()),
            map.compressed(map.edits.derived()).len() as int,
        ) == map.road_states(),
        replay_schedules(
            map.schedule_baselines(),
            map.compressed(map.edits.derived()),
            map.compressed(map.edits.derived()).len() as int,
        ) == map.schedules(),
{
    let c = cmds_view(map.edits.commands@);
    let d = map.edits.derived();
    let x = map.compressed(d);
    let n = x.len() as int;
    let n1 = d.changed_roads.len() as int;
    let n2 = n1 + d.original_intersections.len();
    let n3 = n2 + d.original_crosswalks.len();
    crate::edits::laws::lemma_cache_correct(map);
    lemma_changed_roads_ascend(c, map.road_states(), map.road_baselines(), map.roads.len() as int);
    lemma_changed_routes_ascend(
        c,
        map.schedules(),
        map.schedule_baselines(),
        map.transit_routes.len() as int,
    );
    crate::edits::laws::lemma_replay_roads_len(map.road_baselines(), x, n);
    crate::edits::laws::lemma_replay_schedules_len(map.schedule_baselines(), x, n);
    assert forall|j: int| 0 <= j < n implies match target_of(#[trigger] x[j], TargetKind::Road) {
        Some(u) => j < n1 && d.changed_roads[j].0 == u,
        None => true,
    } && match target_of(x[j], TargetKind::Route) {
        Some(u) => j >= n3 && d.changed_routes[j - n3].0 == u,
        None => true,
    } by {
        if j < n1 {
            assert(x[j] == map.compressed_roads(d)[j]);
        } else if j < n2 {
            assert(x[j] == map.compressed_intersections(d)[j - n1]);
        } else if j < n3 {
            assert(x[j] == map.compressed_crosswalks(d)[j - n2]);
        } else {
            assert(x[j] == map.compressed_routes(d)[j - n3]);
        }
    }
    assert forall|r: int| 0 <= r < map.roads.len() implies replay_roads(
        map.road_baselines(),
        x,
        n,
    )[r] == map.road_states()[r] by {
        let id = RoadID(r as usize);
        if d.changed_roads.contains(id) {
            let k = choose|k: int| 0 <= k < d.changed_roads.len() && d.changed_roads[k] == id;
            assert(x[k] == map.compressed_roads(d)[k]);
            assert forall|j: int| 0 <= j < n && j != k implies target_of(
                #[trigger] x[j],
                TargetKind::Road,
            ) != Some(r) by {
                if j < n1 {
                    if j < k {
                        assert(d.changed_roads[j].0 < d.changed_roads[k].0);
                    } else {
                        assert(d.changed_roads[k].0 < d.changed_roads[j].0);
                    }
                }
            }
            lemma_road_changed_once(map.road_baselines(), x, r, k, n);
        } else {
            assert forall|j: int| 0 <= j < n implies target_of(
                #[trigger] x[j],
                TargetKind::Road,
            ) != Some(r) by {
                if j < n1 && d.changed_roads[j].0 == r {
                    assert(d.changed_roads[j] == id);
                    assert(d.changed_roads.contains(id));
                }
            }
            crate::edits::laws::lemma_untargeted_road_stays(map.road_baselines(), x, r, n);
        }
    }
    assert(replay_roads(map.road_baselines(), x, n) =~= map.road_states());
    assert forall|r: int| 0 <= r < map.transit_routes.len() implies replay_schedules(
        map.schedule_baselines(),
        x,
        n,
    )[r] == map.schedules()[r] by {
        let id = TransitRouteID(r as usize);
        if d.changed_routes.contains(id) {
            let k = choose|k: int| 0 <= k < d.changed_routes.len() && d.changed_routes[k] == id;
            assert(x[n3 + k] == map.compressed_routes(d)[k]);
            assert forall|j: int| 0 <= j < n && j != n3 + k implies target_of(
                #[trigger] x[j],
                TargetKind::Route,
            ) != Some(r) by {
                if j >= n3 {
                    if j - n3 < k {
                        assert(d.changed_routes[j - n3].0 < d.changed_routes[k].0);
                    } else {
                        assert(d.changed_routes[k].0 < d.changed_routes[j - n3].0);
                    }
                }
            }
            lemma_route_changed_once(map.schedule_baselines(), x, r, n3 + k, n);
        } else {
            assert forall|j: int| 0 <= j < n implies target_of(
                #[trigger] x[j],
                TargetKind::Route,
            ) != Some(r) by {
                if j >= n3 && d.changed_routes[j - n3].0 == r {
                    assert(d.changed_routes[j - n3] == id);
                    assert(d.changed_routes.contains(id));
                }
            }
            crate::edits::laws::lemma_untargeted_route_stays(map.schedule_baselines(), x, r, n);
        }
    }
    assert(replay_schedules(map.schedule_baselines(), x, n) =~= map.schedules());
}

/// The commands that compression gives start from the imported states of
/// the roads and transit routes: see
/// [`crate::edits::laws::log_coherent`].
pub proof fn lemma_compressed_coherent(map: &StreetMap, d: DerivedView)
    requires
        d.changed_roads == changed_roads_of(
            cmds_view(map.edits.commands@),
            map.road_states(),
            map.road_baselines(),
            map.roads.len() as int,
        ),
        d.changed_routes == changed_routes_of(
            cmds_view(map.edits.commands@),
            map.schedules(),
            map.schedule_baselines(),
            map.transit_routes.len() as int,
        ),
        map.roads.len() <= usize::MAX,
        map.transit_routes.len() <= usize::MAX,
    ensures
        crate::edits::laws::log_coherent(
            map.road_baselines(),
            map.schedule_baselines(),
            map.compressed(d),
        ),
{
    let c = cmds_view(map.edits.commands@);
    let x = map.compressed(d);
    let n1 = d.changed_roads.len() as int;
    let n2 = n1 + d.original_intersections.len();
    let n3 = n2 + d.original_crosswalks.len();
    lemma_changed_roads_ascend(c, map.road_states(), map.road_baselines(), map.roads.len() as int);
    lemma_changed_routes_ascend(
        c,
        map.schedules(),
        map.schedule_baselines(),
        map.transit_routes.len() as int,
    );
    assert forall|k: int| 0 <= k < x.len() implies match #[trigger] x[k] {
        EditCmdView::ChangeRoad { r, old, .. } => r.0 < map.road_baselines().len() ==> replay_roads(
            map.road_baselines(),
            x,
            k,
        )[r.0 as int] == old,
        EditCmdView::ChangeRouteSchedule { id, old, .. } => id.0 < map.schedule_baselines().len()
            ==> replay_schedules(map.schedule_baselines(), x, k)[id.0 as int] == old,
        _ => true,
    } by {
        if k < n1 {
            assert(x[k] == map.compressed_roads(d)[k]);
            let r = d.changed_roads[k];
            assert forall|j: int| 0 <= j < k implies target_of(
                #[trigger] x[j],
                TargetKind::Road,
            ) != Some(r.0 as int) by {
                assert(x[j] == map.compressed_roads(d)[j]);
                assert(d.changed_roads[j].0 < d.changed_roads[k].0);
            }
            crate::edits::laws::lemma_untargeted_road_stays(
                map.road_baselines(),
                x,
                r.0 as int,
                k,
            );
        } else if k < n2 {
            assert(x[k] == map.compressed_intersections(d)[k - n1]);
        } else if k < n3 {
            assert(x[k] == map.compressed_crosswalks(d)[k - n2]);
        } else {
            assert(x[k] == map.compressed_routes(d)[k - n3]);
            let r = d.changed_routes[k - n3];
            assert forall|j: int| 0 <= j < k implies target_of(
                #[trigger] x[j],
                TargetKind::Route,
            ) != Some(r.0 as int) by {
                if j < n1 {
                    assert(x[j] == map.compressed_roads(d)[j]);
                } else if j < n2 {
                    assert(x[j] == map.compressed_intersections(d)[j - n1]);
                } else if j < n3 {
                    assert(x[j] == map.compressed_crosswalks(d)[j - n2]);
                } else {
                    assert(x[j] == map.compressed_routes(d)[j - n3]);
                    assert(d.changed_routes[j - n3].0 < d.changed_routes[k - n3].0);
                }
            }
            crate::edits::laws::lemma_untargeted_route_stays(
                map.schedule_baselines(),
                x,
                r.0 as int,
                k,
            );
        }
    }
}

/// Compression followed by a reapplication keeps the record of changes of
/// roads and transit routes. If a sound map follows its log, its edits
/// record what follows from their commands, and the map is given the edits
/// with the commands that compression leaves, then, if that succeeds, every
/// road and every transit route is in the state that it was in, the same
/// roads and routes are recorded as changed, and the map follows its new
/// log.
pub proof fn lemma_compress_then_reapply(
    before: &StreetMap,
    after: &StreetMap,
    new_edits: &MapEdits,
    enforce_valid: bool,
    effects: EditEffects,
)
    requires
        before.wf(),
        before.follows_log(),
        before.edits.derived() == before.derived_of(cmds_view(before.edits.commands@)),
        cmds_view(new_edits.commands@) == before.compressed(before.edits.derived()),
        after.transaction(before, new_edits, enforce_valid, Ok(effects)),
    ensures
        after.road_states() == before.road_states(),
        after.schedules() == before.schedules(),
        after.edits.derived().changed_roads == before.edits.derived().changed_roads,
        after.edits.derived().changed_routes == before.edits.derived().changed_routes,
        after.follows_log(),
{
    let c = cmds_view(before.edits.commands@);
    let x = before.compressed(before.edits.derived());
    lemma_compressed_coherent(before, before.edits.derived());
    crate::edits::laws::lemma_transaction_keeps_log(
        before,
        after,
        new_edits,
        enforce_valid,
        effects,
    );
    if new_edits@ != before.edits@ {
        crate::edits::laws::lemma_replayed_leads_to_target(
            before.road_baselines(),
            before.schedule_baselines(),
            c,
            x,
        );
        lemma_compressed_leads_here(before);
        lemma_compress_keeps_derived(before, c);
        assert(after.road_baselines() =~= before.road_baselines()) by {
            assert forall|q: int| 0 <= q < after.roads.len() implies after.roads[q].orig@
                == before.roads[q].orig@ by {
                assert(after.roads[q].same_but_state(&before.roads[q]));
            }
        }
        assert(after.schedule_baselines() =~= before.schedule_baselines()) by {
            assert(after.edited_from(before));
        }
        assert(after.derived_of(x).changed_roads == before.derived_of(x).changed_roads);
        assert(after.derived_of(x).changed_routes == before.derived_of(x).changed_routes);
    }
}

} // verus!
