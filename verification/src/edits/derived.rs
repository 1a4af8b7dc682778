//! What follows from a log of commands and the map that it is applied to:
//! which targets differ from their first state.

use vstd::prelude::*;
use crate::edits::log::{crosswalks_view, intersections_view, DerivedView, MapEdits};
use crate::edits::{
    cmds_view, EditCmd, EditCmdView, EditCrosswalks, EditIntersection, EditIntersectionView,
    EditRoad, EditRoadView,
};
use crate::ids::{IntersectionID, RoadID, TransitRouteID};
use crate::map::StreetMap;
use crate::turn::Turn;
use crate::units::Time;
use crate::vecs::{copy_vec, same_vec};

verus! {

/// The kinds of targets that a command can have.
#[derive(Clone, Copy, Debug, PartialEq, Eq, Structural)]
pub enum TargetKind {
    Road,
    Intersection,
    Crosswalks,
    Route,
}

/// The number of the target of a command, if the command is of the given
/// kind.
pub open spec fn target_of(cmd: EditCmdView, kind: TargetKind) -> Option<int> {
    match cmd {
        EditCmdView::ChangeRoad { r, .. } => if kind == TargetKind::Road {
            Some(r.0 as int)
        } else {
            None
        },
        EditCmdView::ChangeIntersection { i, .. } => if kind == TargetKind::Intersection {
            Some(i.0 as int)
        } else {
            None
        },
        EditCmdView::ChangeCrosswalks { i, .. } => if kind == TargetKind::Crosswalks {
            Some(i.0 as int)
        } else {
            None
        },
        EditCmdView::ChangeRouteSchedule { id, .. } => if kind == TargetKind::Route {
            Some(id.0 as int)
        } else {
            None
        },
    }
}

/// The position of the first of the first `n` commands that is of the given
/// kind and has target `t`.
pub open spec fn first_cmd(cmds: Seq<EditCmdView>, kind: TargetKind, t: int, n: int) -> Option<int>
    decreases n,
{
    if n <= 0 {
        None
    } else {
        match first_cmd(cmds, kind, t, n - 1) {
            Some(k) => Some(k),
            None => if target_of(cmds[n - 1], kind) == Some(t) {
                Some(n - 1)
            } else {
                None
            },
        }
    }
}

/// The first command for a target is a command for that target, and no
/// command before it is.
pub proof fn lemma_first_cmd(cmds: Seq<EditCmdView>, kind: TargetKind, t: int, n: int)
    requires
        0 <= n <= cmds.len(),
    ensures
        match first_cmd(cmds, kind, t, n) {
            Some(k) => 0 <= k < n && target_of(cmds[k], kind) == Some(t) && forall|j: int|
                0 <= j < k ==> target_of(#[trigger] cmds[j], kind) != Some(t),
            None => forall|j: int| 0 <= j < n ==> target_of(#[trigger] cmds[j], kind) != Some(t),
        },
    decreases n,
{
    if n > 0 {
        lemma_first_cmd(cmds, kind, t, n - 1);
    }
}

/// The state before a command that changes an intersection.
pub open spec fn intersection_before(cmd: EditCmdView) -> EditIntersectionView {
    match cmd {
        EditCmdView::ChangeIntersection { old, .. } => old,
        _ => EditIntersectionView::Closed,
    }
}

/// The crossings before a command that changes crossings.
pub open spec fn crosswalks_before(cmd: EditCmdView) -> Set<Turn> {
    match cmd {
        EditCmdView::ChangeCrosswalks { old, .. } => old,
        _ => Set::empty(),
    }
}

/// Of the first `n` roads, in ascending order, those that a command changes
/// and whose state differs from the one they were imported with.
pub open spec fn changed_roads_of(
    cmds: Seq<EditCmdView>,
    states: Seq<EditRoadView>,
    baselines: Seq<EditRoadView>,
    n: int,
) -> Seq<RoadID>
    decreases n,
{
    if n <= 0 {
        Seq::empty()
    } else {
        let before = changed_roads_of(cmds, states, baselines, n - 1);
        if first_cmd(cmds, TargetKind::Road, n - 1, cmds.len() as int).is_some() && states[n - 1]
            != baselines[n - 1] {
            before.push(RoadID((n - 1) as usize))
        } else {
            before
        }
    }
}

/// Of the first `n` transit routes, in ascending order, those that a command
/// changes and whose schedule differs from the one they were imported with.
pub open spec fn changed_routes_of(
    cmds: Seq<EditCmdView>,
    schedules: Seq<Seq<Time>>,
    baselines: Seq<Seq<Time>>,
    n: int,
) -> Seq<TransitRouteID>
    decreases n,
{
    if n <= 0 {
        Seq::empty()
    } else {
        let before = changed_routes_of(cmds, schedules, baselines, n - 1);
        if first_cmd(cmds, TargetKind::Route, n - 1, cmds.len() as int).is_some() && schedules[n
            - 1] != baselines[n - 1] {
            before.push(TransitRouteID((n - 1) as usize))
        } else {
            before
        }
    }
}

/// Of the first `n` intersections, in ascending order, those that a command
/// changes and whose state differs from the one before the first such
/// command, each with that first state.
pub open spec fn original_intersections_of(
    cmds: Seq<EditCmdView>,
    states: Seq<EditIntersectionView>,
    n: int,
) -> Seq<(IntersectionID, EditIntersectionView)>
    decreases n,
{
    if n <= 0 {
        Seq::empty()
    } else {
        let before = original_intersections_of(cmds, states, n - 1);
        match first_cmd(cmds, TargetKind::Intersection, n - 1, cmds.len() as int) {
            Some(k) => if states[n - 1] != intersection_before(cmds[k]) {
                before.push((IntersectionID((n - 1) as usize), intersection_before(cmds[k])))
            } else {
                before
            },
            None => before,
        }
    }
}

/// Of the first `n` intersections, in ascending order, those whose crossings
/// a command changes and differ from what they were before the first such
/// command, each with those first crossings.
pub open spec fn original_crosswalks_of(
    cmds: Seq<EditCmdView>,
    states: Seq<Set<Turn>>,
    n: int,
) -> Seq<(IntersectionID, Set<Turn>)>
    decreases n,
{
    if n <= 0 {
        Seq::empty()
    } else {
        let before = original_crosswalks_of(cmds, states, n - 1);
        match first_cmd(cmds, TargetKind::Crosswalks, n - 1, cmds.len() as int) {
            Some(k) => if states[n - 1] != crosswalks_before(cmds[k]) {
                before.push((IntersectionID((n - 1) as usize), crosswalks_before(cmds[k])))
            } else {
                before
            },
            None => before,
        }
    }
}

impl StreetMap {
    /// What follows from the commands for this map: the targets that the
    /// commands change and that differ from their first state now.
    pub open spec fn derived_of(&self, cmds: Seq<EditCmdView>) -> DerivedView {
        DerivedView {
            changed_roads: changed_roads_of(
                cmds,
                self.road_states(),
                self.road_baselines(),
                self.roads.len() as int,
            ),
            original_intersections: original_intersections_of(
                cmds,
                self.intersection_states(),
                self.intersections.len() as int,
            ),
            original_crosswalks: original_crosswalks_of(
                cmds,
                self.crosswalk_states(),
                self.intersections.len() as int,
            ),
            changed_routes: changed_routes_of(
                cmds,
                self.schedules(),
                self.schedule_baselines(),
                self.transit_routes.len() as int,
            ),
        }
    }
}

/// The number of the target of a command, if the command is of the given
/// kind.
fn target(cmd: &EditCmd, kind: TargetKind) -> (t: Option<usize>)
    ensures
        match t {
            Some(t) => target_of(cmd@, kind) == Some(t as int),
            None => target_of(cmd@, kind) == None::<int>,
        },
{
    match cmd {
        EditCmd::ChangeRoad { r, .. } => if kind == TargetKind::Road {
            Some(r.0)
        } else {
            None
        },
        EditCmd::ChangeIntersection { i, .. } => if kind == TargetKind::Intersection {
            Some(i.0)
        } else {
            None
        },
        EditCmd::ChangeCrosswalks { i, .. } => if kind == TargetKind::Crosswalks {
            Some(i.0)
        } else {
            None
        },
        EditCmd::ChangeRouteSchedule { id, .. } => if kind == TargetKind::Route {
            Some(id.0)
        } else {
            None
        },
    }
}

/// For each of `size` targets of the given kind, the position of the first
/// command that changes it.
pub fn first_commands(cmds: &Vec<EditCmd>, kind: TargetKind, size: usize) -> (marks: Vec<
    Option<usize>,
>)
    ensures
        marks.len() == size,
        forall|t: int|
            0 <= t < size ==> match #[trigger] marks[t] {
                Some(k) => first_cmd(cmds_view(cmds@), kind, t, cmds.len() as int) == Some(
                    k as int,
                ),
                None => first_cmd(cmds_view(cmds@), kind, t, cmds.len() as int) == None::<int>,
            },
{
    let mut marks: Vec<Option<usize>> = Vec::new();
    let mut t: usize = 0;
    while t < size
        invariant
            t <= size,
            marks.len() == t,
            forall|j: int| 0 <= j < t ==> (#[trigger] marks[j]).is_none(),
        decreases size - t,
    {
        marks.push(None);
        t = t + 1;
    }
    let mut n: usize = 0;
    while n < cmds.len()
        invariant
            n <= cmds.len(),
            marks.len() == size,
            forall|t: int|
                0 <= t < size ==> match #[trigger] marks[t] {
                    Some(k) => first_cmd(cmds_view(cmds@), kind, t, n as int) == Some(k as int),
                    None => first_cmd(cmds_view(cmds@), kind, t, n as int) == None::<int>,
                },
        decreases cmds.len() - n,
    {
        match target(&cmds[n], kind) {
            Some(t) => {
                if t < size && marks[t].is_none() {
                    marks[t] = Some(n);
                }
            },
            None => {},
        }
        n = n + 1;
    }
    marks
}

impl MapEdits {
    /// Derives anew what follows from the commands for the given map: see
    /// [`StreetMap::derived_of`]. The commands and all else stay.
    pub fn update_derived(&mut self, map: &StreetMap)
        requires
            map.has_targets(old(self).commands@),
        ensures
            final(self).derived() == map.derived_of(cmds_view(old(self).commands@)),
            final(self).commands == old(self).commands,
            final(self).edits_name == old(self).edits_name,
            final(self).merge_zones == old(self).merge_zones,
            final(self).proposal_description == old(self).proposal_description,
            final(self).proposal_link == old(self).proposal_link,
            final(self).records_wf(),
    {
        let ghost cmds = cmds_view(self.commands@);
        // Roads.
        let marks = first_commands(&self.commands, TargetKind::Road, map.roads.len());
        let mut changed_roads: Vec<RoadID> = Vec::new();
        let mut n: usize = 0;
        while n < map.roads.len()
            invariant
                n <= map.roads.len(),
                marks.len() == map.roads.len(),
                cmds == cmds_view(self.commands@),
                forall|t: int|
                    0 <= t < marks.len() ==> match #[trigger] marks[t] {
                        Some(k) => first_cmd(cmds, TargetKind::Road, t, cmds.len() as int) == Some(
                            k as int,
                        ),
                        None => first_cmd(cmds, TargetKind::Road, t, cmds.len() as int) == None::<
                            int,
                        >,
                    },
                changed_roads@ == changed_roads_of(
                    cmds,
                    map.road_states(),
                    map.road_baselines(),
                    n as int,
                ),
            decreases map.roads.len() - n,
        {
            if marks[n].is_some() {
                let current = map.get_r_edit(RoadID(n));
                if !current.same_as(&map.roads[n].orig) {
                    changed_roads.push(RoadID(n));
                }
            }
            n = n + 1;
        }
        // Transit routes.
        let marks = first_commands(&self.commands, TargetKind::Route, map.transit_routes.len());
        let mut changed_routes: Vec<TransitRouteID> = Vec::new();
        let mut n: usize = 0;
        while n < map.transit_routes.len()
            invariant
                n <= map.transit_routes.len(),
                marks.len() == map.transit_routes.len(),
                cmds == cmds_view(self.commands@),
                forall|t: int|
                    0 <= t < marks.len() ==> match #[trigger] marks[t] {
                        Some(k) => first_cmd(cmds, TargetKind::Route, t, cmds.len() as int) == Some(
                            k as int,
                        ),
                        None => first_cmd(cmds, TargetKind::Route, t, cmds.len() as int) == None::<
                            int,
                        >,
                    },
                changed_routes@ == changed_routes_of(
                    cmds,
                    map.schedules(),
                    map.schedule_baselines(),
                    n as int,
                ),
            decreases map.transit_routes.len() - n,
        {
            if marks[n].is_some() {
                let route = &map.transit_routes[n];
                if !same_vec(&route.spawn_times, &route.orig_spawn_times) {
                    changed_routes.push(TransitRouteID(n));
                }
            }
            n = n + 1;
        }
        // Intersections.
        let marks = first_commands(
            &self.commands,
            TargetKind::Intersection,
            map.intersections.len(),
        );
        let mut original_intersections: Vec<(IntersectionID, EditIntersection)> = Vec::new();
        let mut n: usize = 0;
        proof {
            assert(intersections_view(original_intersections@) =~= original_intersections_of(
                cmds,
                map.intersection_states(),
                0,
            ));
        }
        while n < map.intersections.len()
            invariant
                n <= map.intersections.len(),
                marks.len() == map.intersections.len(),
                cmds == cmds_view(self.commands@),
                map.has_targets(self.commands@),
                forall|t: int|
                    0 <= t < marks.len() ==> match #[trigger] marks[t] {
                        Some(k) => first_cmd(cmds, TargetKind::Intersection, t, cmds.len() as int)
                            == Some(k as int),
                        None => first_cmd(cmds, TargetKind::Intersection, t, cmds.len() as int)
                            == None::<int>,
                    },
                intersections_view(original_intersections@) == original_intersections_of(
                    cmds,
                    map.intersection_states(),
                    n as int,
                ),
            decreases map.intersections.len() - n,
        {
            let ghost before = intersections_view(original_intersections@);
            match marks[n] {
                Some(k) => {
                    proof {
                        lemma_first_cmd(cmds, TargetKind::Intersection, n as int,
                            cmds.len() as int);
                        assert(map.has_target(self.commands@[k as int]));
                    }
                    match &self.commands[k] {
                        EditCmd::ChangeIntersection { i: _, new: _, old: was } => {
                            let current = map.get_i_edit(IntersectionID(n));
                            if !current.same_as(was) {
                                original_intersections.push((IntersectionID(n), was.clone()));
                                proof {
                                    assert(intersections_view(original_intersections@)
                                        =~= before.push(
                                        (IntersectionID(n), intersection_before(cmds[k as int])),
                                    ));
                                }
                            }
                        },
                        _ => {},
                    }
                },
                None => {},
            }
            n = n + 1;
        }
        // Crossings.
        let marks = first_commands(&self.commands, TargetKind::Crosswalks, map.intersections.len());
        let mut original_crosswalks: Vec<(IntersectionID, EditCrosswalks)> = Vec::new();
        let mut n: usize = 0;
        proof {
            assert(crosswalks_view(original_crosswalks@) =~= original_crosswalks_of(
                cmds,
                map.crosswalk_states(),
                0,
            ));
        }
        while n < map.intersections.len()
            invariant
                n <= map.intersections.len(),
                marks.len() == map.intersections.len(),
                cmds == cmds_view(self.commands@),
                forall|t: int|
                    0 <= t < marks.len() ==> match #[trigger] marks[t] {
                        Some(k) => first_cmd(cmds, TargetKind::Crosswalks, t, cmds.len() as int)
                            == Some(k as int),
                        None => first_cmd(cmds, TargetKind::Crosswalks, t, cmds.len() as int)
                            == None::<int>,
                    },
                crosswalks_view(original_crosswalks@) == original_crosswalks_of(
                    cmds,
                    map.crosswalk_states(),
                    n as int,
                ),
                map.has_targets(self.commands@),
                forall|j: int|
                    0 <= j < original_crosswalks.len() ==> (#[trigger] original_crosswalks[j]).1.wf(),
            decreases map.intersections.len() - n,
        {
            let ghost before = crosswalks_view(original_crosswalks@);
            let ghost recorded = original_crosswalks@;
            match marks[n] {
                Some(k) => {
                    proof {
                        lemma_first_cmd(cmds, TargetKind::Crosswalks, n as int, cmds.len() as int);
                    }
                    match &self.commands[k] {
                        EditCmd::ChangeCrosswalks { i: _, old: was, new: _ } => {
                            let current = map.get_i_crosswalks_edit(IntersectionID(n));
                            if !current.same_as(was) {
                                original_crosswalks.push((IntersectionID(n), was.clone()));
                                proof {
                                    assert(map.has_target(self.commands@[k as int]));
                                    assert forall|j: int|
                                        0 <= j < original_crosswalks.len() implies (
                                    #[trigger] original_crosswalks[j]).1.wf() by {
                                        if j < recorded.len() {
                                            assert(original_crosswalks[j] == recorded[j]);
                                        }
                                    }
                                    assert(crosswalks_view(original_crosswalks@) =~= before.push(
                                        (IntersectionID(n), crosswalks_before(cmds[k as int])),
                                    ));
                                }
                            }
                        },
                        _ => {},
                    }
                },
                None => {},
            }
            n = n + 1;
        }
        self.changed_roads = changed_roads;
        self.changed_routes = changed_routes;
        self.original_intersections = original_intersections;
        self.original_crosswalks = original_crosswalks;
    }
}

} // verus!
